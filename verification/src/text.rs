//! Character-level text utilities: code-point ordering of titles, blank
//! detection, and the decomposition of a virtual path into its segments.

use vstd::prelude::*;

verus! {

/// The separator between the segments of a virtual path.
pub open spec fn is_separator(c: char) -> bool {
    c == '/'
}

/// Strict code-point order on characters.
pub open spec fn char_lt(a: char, b: char) -> bool {
    (a as u32) < (b as u32)
}

/// Lexicographic order on texts, character by character in code-point order.
/// A proper prefix comes before every text that extends it.
pub open spec fn text_le(a: Seq<char>, b: Seq<char>) -> bool
    decreases a.len(),
{
    if a.len() == 0 {
        true
    } else if b.len() == 0 {
        false
    } else if a[0] != b[0] {
        char_lt(a[0], b[0])
    } else {
        text_le(a.drop_first(), b.drop_first())
    }
}

/// Two different characters are ordered one way or the other.
pub proof fn lemma_char_lt_total(c: char, d: char)
    requires
        c != d,
    ensures
        char_lt(c, d) || char_lt(d, c),
{
}

/// Any two texts are ordered one way or the other.
pub proof fn lemma_text_le_total(a: Seq<char>, b: Seq<char>)
    ensures
        text_le(a, b) || text_le(b, a),
    decreases a.len(),
{
    if a.len() > 0 && b.len() > 0 {
        if a[0] == b[0] {
            lemma_text_le_total(a.drop_first(), b.drop_first());
        } else {
            lemma_char_lt_total(a[0], b[0]);
        }
    }
}

/// Texts that are ordered both ways are the same text.
pub proof fn lemma_text_le_antisymmetric(a: Seq<char>, b: Seq<char>)
    requires
        text_le(a, b),
        text_le(b, a),
    ensures
        a == b,
    decreases a.len(),
{
    if a.len() == 0 || b.len() == 0 {
        assert(a =~= b);
    } else {
        lemma_text_le_antisymmetric(a.drop_first(), b.drop_first());
        assert(a =~= seq![a[0]] + a.drop_first());
        assert(b =~= seq![b[0]] + b.drop_first());
    }
}

/// The order of texts is transitive.
pub proof fn lemma_text_le_transitive(a: Seq<char>, b: Seq<char>, c: Seq<char>)
    requires
        text_le(a, b),
        text_le(b, c),
    ensures
        text_le(a, c),
    decreases a.len(),
{
    if a.len() > 0 && b.len() > 0 && c.len() > 0 && a[0] == b[0] && b[0] == c[0] {
        lemma_text_le_transitive(a.drop_first(), b.drop_first(), c.drop_first());
    }
}

/// The characters with the Unicode property White_Space.
pub open spec fn is_white_space(c: char) -> bool {
    let n = c as u32;
    ||| 0x09 <= n <= 0x0D
    ||| n == 0x20
    ||| n == 0x85
    ||| n == 0xA0
    ||| n == 0x1680
    ||| 0x2000 <= n <= 0x200A
    ||| n == 0x2028
    ||| n == 0x2029
    ||| n == 0x202F
    ||| n == 0x205F
    ||| n == 0x3000
}

/// A text is blank when it holds nothing but white space.
pub open spec fn is_blank(s: Seq<char>) -> bool {
    forall|i: int| 0 <= i < s.len() ==> is_white_space(#[trigger] s[i])
}

/// The pieces of `s` between separators, where `current` holds the
/// characters of the piece under way. Empty pieces are dropped.
pub open spec fn pieces(s: Seq<char>, current: Seq<char>) -> Seq<Seq<char>>
    decreases s.len(),
{
    if s.len() == 0 {
        closed_piece(current)
    } else if is_separator(s[0]) {
        closed_piece(current) + pieces(s.drop_first(), Seq::empty())
    } else {
        pieces(s.drop_first(), current.push(s[0]))
    }
}

/// What a finished piece contributes: itself, unless it is empty.
pub open spec fn closed_piece(current: Seq<char>) -> Seq<Seq<char>> {
    if current.len() == 0 {
        Seq::empty()
    } else {
        seq![current]
    }
}

/// The segments of a path: its maximal runs of characters other than the
/// separator, in order. Empty runs (leading, trailing or doubled
/// separators) give no segment.
pub open spec fn segments(s: Seq<char>) -> Seq<Seq<char>> {
    pieces(s, Seq::empty())
}

/// A text that can be a segment: it is not empty and holds no separator.
pub open spec fn is_run(piece: Seq<char>) -> bool {
    piece.len() > 0 && forall|j: int| 0 <= j < piece.len() ==> !is_separator(#[trigger] piece[j])
}

/// Every piece is a run, as long as the piece under way holds no
/// separator.
pub proof fn lemma_pieces_are_runs(s: Seq<char>, current: Seq<char>)
    requires
        forall|j: int| 0 <= j < current.len() ==> !is_separator(#[trigger] current[j]),
    ensures
        forall|i: int| 0 <= i < pieces(s, current).len() ==> is_run(#[trigger] pieces(s, current)[i]),
    decreases s.len(),
{
    let out = pieces(s, current);
    if s.len() == 0 {
        assert forall|i: int| 0 <= i < out.len() implies is_run(#[trigger] out[i]) by {
            assert(out[i] == current);
        }
    } else if is_separator(s[0]) {
        let rest = pieces(s.drop_first(), Seq::empty());
        lemma_pieces_are_runs(s.drop_first(), Seq::empty());
        assert forall|i: int| 0 <= i < out.len() implies is_run(#[trigger] out[i]) by {
            if current.len() == 0 {
                assert(out[i] == rest[i]);
            } else if i == 0 {
                assert(out[i] == current);
            } else {
                assert(out[i] == rest[i - 1]);
            }
        }
    } else {
        let longer = current.push(s[0]);
        assert forall|j: int| 0 <= j < longer.len() implies !is_separator(#[trigger] longer[j]) by {
            if j < current.len() {
                assert(longer[j] == current[j]);
            }
        }
        lemma_pieces_are_runs(s.drop_first(), longer);
        let rest = pieces(s.drop_first(), longer);
        assert(out == rest);
        assert forall|i: int| 0 <= i < out.len() implies is_run(#[trigger] out[i]) by {
            assert(out[i] == rest[i]);
        }
    }
}

/// Every segment of a path is a run: none is empty, and none holds a
/// separator.
pub proof fn lemma_segments_are_runs(s: Seq<char>)
    ensures
        forall|i: int| 0 <= i < segments(s).len() ==> is_run(#[trigger] segments(s)[i]),
{
    lemma_pieces_are_runs(s, Seq::empty());
}

/// Whether `a` comes at or before `b` in code-point lexicographic order.
pub fn title_le(a: &str, b: &str) -> (r: bool)
    ensures
        r == text_le(a@, b@),
{
    let la: usize = a.unicode_len();
    let lb: usize = b.unicode_len();
    let mut i: usize = 0;
    proof {
        assert(a@.skip(0) =~= a@);
        assert(b@.skip(0) =~= b@);
    }
    while i < la && i < lb
        invariant
            la == a@.len(),
            lb == b@.len(),
            i <= la,
            i <= lb,
            text_le(a@, b@) == text_le(a@.skip(i as int), b@.skip(i as int)),
        decreases la - i,
    {
        let ca: char = a.get_char(i);
        let cb: char = b.get_char(i);
        proof {
            assert(a@.skip(i as int).drop_first() =~= a@.skip(i + 1));
            assert(b@.skip(i as int).drop_first() =~= b@.skip(i + 1));
        }
        if ca != cb {
            return (ca as u32) < (cb as u32);
        }
        i += 1;
    }
    i == la
}

/// Whether the text holds nothing but white space.
pub fn blank(s: &str) -> (r: bool)
    ensures
        r == is_blank(s@),
{
    let n: usize = s.unicode_len();
    let mut i: usize = 0;
    while i < n
        invariant
            n == s@.len(),
            i <= n,
            forall|j: int| 0 <= j < i ==> is_white_space(#[trigger] s@[j]),
        decreases n - i,
    {
        let c: u32 = s.get_char(i) as u32;
        let white: bool = (0x09 <= c && c <= 0x0D) || c == 0x20 || c == 0x85 || c == 0xA0
            || c == 0x1680 || (0x2000 <= c && c <= 0x200A) || c == 0x2028 || c == 0x2029
            || c == 0x202F || c == 0x205F || c == 0x3000;
        if !white {
            return false;
        }
        i += 1;
    }
    true
}

/// Splits a virtual path at its separators and drops the empty pieces.
pub fn split_path(path: &str) -> (parts: Vec<String>)
    ensures
        texts(parts@) == segments(path@),
        forall|i: int| 0 <= i < parts.len() ==> is_run(#[trigger] parts[i]@),
{
    proof {
        lemma_segments_are_runs(path@);
    }
    let n: usize = path.unicode_len();
    let mut parts: Vec<String> = Vec::new();
    let mut start: usize = 0;
    let mut i: usize = 0;
    proof {
        assert(path@.skip(0) =~= path@);
        assert(path@.subrange(0, 0) =~= Seq::<char>::empty());
        assert(texts(parts@) =~= Seq::<Seq<char>>::empty());
        assert(texts(parts@) + segments(path@) =~= segments(path@));
    }
    while i < n
        invariant
            n == path@.len(),
            start <= i <= n,
            segments(path@) == texts(parts@) + pieces(
                path@.skip(i as int),
                path@.subrange(start as int, i as int),
            ),
        decreases n - i,
    {
        let c: char = path.get_char(i);
        proof {
            assert(path@.skip(i as int).drop_first() =~= path@.skip(i + 1));
            assert(path@.subrange(start as int, i as int).push(c) =~= path@.subrange(
                start as int,
                i + 1,
            ));
            assert(path@.subrange(i + 1, i + 1) =~= Seq::<char>::empty());
        }
        if c == '/' {
            if start < i {
                let piece: String = path.substring_char(start, i).to_owned();
                proof {
                    assert(texts(parts@.push(piece)) =~= texts(parts@) + seq![piece@]);
                }
                parts.push(piece);
            }
            start = i + 1;
        }
        i += 1;
    }
    proof {
        assert(path@.skip(n as int) =~= Seq::<char>::empty());
    }
    if start < n {
        let piece: String = path.substring_char(start, n).to_owned();
        proof {
            assert(texts(parts@.push(piece)) =~= texts(parts@) + seq![piece@]);
        }
        parts.push(piece);
    }
    proof {
        assert forall|i: int| 0 <= i < parts.len() implies is_run(#[trigger] parts[i]@) by {
            assert(texts(parts@)[i] == parts[i]@);
        }
    }
    parts
}

/// The texts held by a sequence of strings.
pub open spec fn texts(parts: Seq<String>) -> Seq<Seq<char>> {
    Seq::new(parts.len(), |i: int| parts[i]@)
}

} // verus!
