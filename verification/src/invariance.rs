//! The order of the documents does not matter: where no two documents get
//! in each other's way, every arrangement of the list gives the same tree.

use crate::sorting::{
    insertion_point, lemma_insert_sorted_is_insert, lemma_sort_by_title, lemma_sort_keeps_nodes,
    ordered, sort_by_title, sorted_below, sorted_node, sorted_tree,
};
use crate::synthesis::{
    entries_of, entry_of, placed, synthesized, with_entry, DocumentView, Entry,
};
use crate::text::{lemma_text_le_antisymmetric, text_le};
use crate::tree::{folder, leaf, lemma_position, position, put, NodeView};
use vstd::prelude::*;

verus! {

/// The entry as it is seen from inside its first folder.
pub open spec fn tail(entry: Entry) -> Entry {
    Entry { segments: entry.segments.drop_first(), title: entry.title, link: entry.link }
}

/// The title of the node that an entry puts, or looks for, at the top
/// level: the title of its leaf where its path has one segment, else the
/// name of its first folder.
pub open spec fn top_title(entry: Entry) -> Seq<char>
    recommends
        entry.segments.len() > 0,
{
    if entry.segments.len() == 1 {
        entry.title
    } else {
        entry.segments[0]
    }
}

/// Whether two entries get in each other's way. Entries that share their
/// first folder collide where they collide inside it. Otherwise they
/// collide where both claim one title at the top level, or where the first
/// segment of one, under which it looks for a node to reuse or replace, is
/// the title that the other puts there. An entry without segments collides
/// with nothing.
pub open spec fn collide(x: Entry, y: Entry) -> bool
    decreases x.segments.len(),
{
    if x.segments.len() == 0 || y.segments.len() == 0 {
        false
    } else if x.segments.len() > 1 && y.segments.len() > 1 && x.segments[0] == y.segments[0] {
        collide(tail(x), tail(y))
    } else {
        top_title(x) == top_title(y) || x.segments[0] == top_title(y) || y.segments[0]
            == top_title(x)
    }
}

/// No two entries of the list collide.
pub open spec fn conflict_free(entries: Seq<Entry>) -> bool {
    forall|i: int, j: int|
        #![trigger entries[i], entries[j]]
        0 <= i < entries.len() && 0 <= j < entries.len() && i != j ==> !collide(
            entries[i],
            entries[j],
        )
}

/// Whether the entry belongs under the folder `name` of the top level.
pub open spec fn goes_below(entry: Entry, name: Seq<char>) -> bool {
    entry.segments.len() > 1 && entry.segments[0] == name
}

/// The entries that belong under the folder `name`, in their order, each
/// as it is seen from inside the folder.
pub open spec fn below(entries: Seq<Entry>, name: Seq<char>) -> Seq<Entry>
    decreases entries.len(),
{
    if entries.len() == 0 {
        Seq::empty()
    } else if goes_below(entries.last(), name) {
        below(entries.drop_last(), name).push(tail(entries.last()))
    } else {
        below(entries.drop_last(), name)
    }
}

/// Whether `inner` is the tail of an entry of the list that belongs under
/// the folder `name`.
pub open spec fn comes_from(entries: Seq<Entry>, name: Seq<char>, inner: Entry) -> bool {
    exists|j: int|
        0 <= j < entries.len() && goes_below(#[trigger] entries[j], name) && tail(entries[j])
            == inner
}

/// What stands under a folder is what the entries that belong there
/// bring, and all of it.
pub proof fn lemma_below_members(entries: Seq<Entry>, name: Seq<char>)
    ensures
        forall|p: int|
            0 <= p < below(entries, name).len() ==> comes_from(
                entries,
                name,
                #[trigger] below(entries, name)[p],
            ),
        forall|j: int|
            0 <= j < entries.len() && goes_below(#[trigger] entries[j], name) ==> below(
                entries,
                name,
            ).contains(tail(entries[j])),
    decreases entries.len(),
{
    if entries.len() > 0 {
        let front = entries.drop_last();
        let last = entries.last();
        let inner = below(entries, name);
        lemma_below_members(front, name);
        assert forall|p: int| 0 <= p < inner.len() implies comes_from(
            entries,
            name,
            #[trigger] inner[p],
        ) by {
            if p < below(front, name).len() {
                assert(inner[p] == below(front, name)[p]);
                assert(comes_from(front, name, inner[p]));
                let j = choose|j: int|
                    0 <= j < front.len() && goes_below(#[trigger] front[j], name) && tail(front[j])
                        == inner[p];
                assert(entries[j] == front[j]);
            } else {
                assert(entries[entries.len() - 1] == last);
            }
        }
        assert forall|j: int|
            0 <= j < entries.len() && goes_below(#[trigger] entries[j], name) implies inner.contains(
            tail(entries[j]),
        ) by {
            if j < front.len() {
                assert(entries[j] == front[j]);
                let p = choose|p: int|
                    0 <= p < below(front, name).len() && below(front, name)[p] == tail(front[j]);
                assert(inner[p] == tail(entries[j]));
            } else {
                assert(inner[inner.len() - 1] == tail(entries[j]));
            }
        }
    }
}

/// Entries that do not collide do not collide inside a folder either.
pub proof fn lemma_below_conflict_free(entries: Seq<Entry>, name: Seq<char>)
    requires
        conflict_free(entries),
    ensures
        conflict_free(below(entries, name)),
    decreases entries.len(),
{
    if entries.len() > 0 {
        let front = entries.drop_last();
        let last = entries.last();
        let inner = below(entries, name);
        let before = below(front, name);
        assert(conflict_free(front)) by {
            assert forall|i: int, j: int|
                #![trigger front[i], front[j]]
                0 <= i < front.len() && 0 <= j < front.len() && i != j implies !collide(
                front[i],
                front[j],
            ) by {
                assert(front[i] == entries[i] && front[j] == entries[j]);
            }
        }
        lemma_below_conflict_free(front, name);
        lemma_below_members(front, name);
        if goes_below(last, name) {
            assert forall|i: int, j: int|
                #![trigger inner[i], inner[j]]
                0 <= i < inner.len() && 0 <= j < inner.len() && i != j implies !collide(
                inner[i],
                inner[j],
            ) by {
                if i < before.len() && j < before.len() {
                    assert(inner[i] == before[i] && inner[j] == before[j]);
                } else {
                    let p = if i < before.len() {
                        i
                    } else {
                        j
                    };
                    assert(inner[p] == before[p]);
                    assert(comes_from(front, name, before[p]));
                    let k = choose|k: int|
                        0 <= k < front.len() && goes_below(#[trigger] front[k], name) && tail(
                            front[k],
                        ) == before[p];
                    assert(entries[k] == front[k]);
                    assert(entries[entries.len() - 1] == last);
                    assert(!collide(entries[k], entries[entries.len() - 1]));
                    assert(!collide(entries[entries.len() - 1], entries[k]));
                }
            }
        }
    }
}

/// The node that stands at the top level for an entry of the list: its
/// leaf where its path has one segment, else its first folder, which holds
/// all the entries of the list that belong under it.
pub open spec fn top_node(entries: Seq<Entry>, entry: Entry) -> NodeView
    recommends
        entry.segments.len() > 0,
{
    if entry.segments.len() == 1 {
        leaf(entry.title, entry.link)
    } else {
        folder(entry.segments[0], placed(below(entries, entry.segments[0])))
    }
}

/// No two nodes of the level have the same title.
pub open spec fn distinct_titles(level: Seq<NodeView>) -> bool {
    forall|i: int, j: int|
        #![trigger level[i], level[j]]
        0 <= i < level.len() && 0 <= j < level.len() && i != j ==> level[i].title
            != level[j].title
}

/// Whether the node is the top node of an entry of the list.
pub open spec fn stands_for(entries: Seq<Entry>, node: NodeView) -> bool {
    exists|k: int|
        0 <= k < entries.len() && (#[trigger] entries[k]).segments.len() > 0 && top_node(
            entries,
            entries[k],
        ) == node
}

/// The level is what the entries say: its titles differ, each of its nodes
/// is the top node of an entry, and the top node of every entry is there.
pub open spec fn describes(entries: Seq<Entry>, level: Seq<NodeView>) -> bool {
    &&& distinct_titles(level)
    &&& forall|i: int| 0 <= i < level.len() ==> stands_for(entries, #[trigger] level[i])
    &&& forall|k: int|
        0 <= k < entries.len() && (#[trigger] entries[k]).segments.len() > 0 ==> level.contains(
            top_node(entries, entries[k]),
        )
}

/// What stands under a folder once one more entry has joined the list.
pub proof fn lemma_below_push(front: Seq<Entry>, x: Entry, name: Seq<char>)
    ensures
        below(front.push(x), name) == if goes_below(x, name) {
            below(front, name).push(tail(x))
        } else {
            below(front, name)
        },
        goes_below(x, name) ==> placed(below(front.push(x), name)) == with_entry(
            placed(below(front, name)),
            tail(x),
        ),
{
    assert(front.push(x).drop_last() =~= front);
    assert(front.push(x).last() == x);
    if goes_below(x, name) {
        let inner = below(front, name);
        assert(inner.push(tail(x)).drop_last() =~= inner);
        assert(inner.push(tail(x)).last() == tail(x));
    }
}

/// The top node of an entry stays as it is when an entry joins the list
/// that does not belong under it.
pub proof fn lemma_top_node_kept(front: Seq<Entry>, x: Entry, y: Entry)
    requires
        y.segments.len() > 0,
        y.segments.len() == 1 || !goes_below(x, y.segments[0]),
    ensures
        top_node(front.push(x), y) == top_node(front, y),
{
    if y.segments.len() > 1 {
        lemma_below_push(front, x, y.segments[0]);
    }
}

/// A list whose entries do not collide keeps that when its last entry
/// leaves, and its last entry collides with none before it.
pub proof fn lemma_conflict_free_front(front: Seq<Entry>, x: Entry)
    requires
        conflict_free(front.push(x)),
    ensures
        conflict_free(front),
        forall|k: int|
            0 <= k < front.len() ==> !collide(#[trigger] front[k], x) && !collide(x, front[k]),
{
    let all = front.push(x);
    assert forall|i: int, j: int|
        #![trigger front[i], front[j]]
        0 <= i < front.len() && 0 <= j < front.len() && i != j implies !collide(
        front[i],
        front[j],
    ) by {
        assert(all[i] == front[i] && all[j] == front[j]);
    }
    assert forall|k: int| 0 <= k < front.len() implies !collide(#[trigger] front[k], x)
        && !collide(x, front[k]) by {
        assert(all[k] == front[k]);
        assert(all[front.len() as int] == x);
    }
}

/// An entry with one segment finds no node under its segment, and no node
/// with the title of its leaf.
proof fn lemma_leaf_is_new(front: Seq<Entry>, x: Entry, level: Seq<NodeView>)
    requires
        describes(front, level),
        conflict_free(front.push(x)),
        x.segments.len() == 1,
    ensures
        position(level, x.segments[0]) == level.len(),
        forall|i: int| 0 <= i < level.len() ==> (#[trigger] level[i]).title != x.title,
{
    lemma_conflict_free_front(front, x);
    lemma_position(level, x.segments[0]);
    let at = position(level, x.segments[0]);
    if at < level.len() {
        assert(stands_for(front, level[at]));
        let k = choose|k: int|
            0 <= k < front.len() && (#[trigger] front[k]).segments.len() > 0 && top_node(
                front,
                front[k],
            ) == level[at];
        assert(top_title(front[k]) == x.segments[0]);
        assert(collide(x, front[k]));
    }
    assert forall|i: int| 0 <= i < level.len() implies (#[trigger] level[i]).title != x.title by {
        assert(stands_for(front, level[i]));
        let k = choose|k: int|
            0 <= k < front.len() && (#[trigger] front[k]).segments.len() > 0 && top_node(
                front,
                front[k],
            ) == level[i];
        if level[i].title == x.title {
            assert(top_title(front[k]) == top_title(x));
            assert(collide(x, front[k]));
        }
    }
}

/// Placing an entry with one segment keeps the level described.
proof fn lemma_step_leaf(front: Seq<Entry>, x: Entry, level: Seq<NodeView>)
    requires
        describes(front, level),
        conflict_free(front.push(x)),
        x.segments.len() == 1,
    ensures
        describes(front.push(x), with_entry(level, x)),
{
    let all = front.push(x);
    let node = leaf(x.title, x.link);
    let out = with_entry(level, x);
    lemma_leaf_is_new(front, x, level);
    assert(out == level.push(node));
    assert forall|i: int| 0 <= i < out.len() implies stands_for(all, #[trigger] out[i]) by {
        if i < level.len() {
            assert(stands_for(front, level[i]));
            let k = choose|k: int|
                0 <= k < front.len() && (#[trigger] front[k]).segments.len() > 0 && top_node(
                    front,
                    front[k],
                ) == level[i];
            lemma_top_node_kept(front, x, front[k]);
            assert(all[k] == front[k]);
        } else {
            assert(all[front.len() as int] == x);
        }
    }
    assert forall|k: int|
        0 <= k < all.len() && (#[trigger] all[k]).segments.len() > 0 implies out.contains(
        top_node(all, all[k]),
    ) by {
        if k < front.len() {
            assert(all[k] == front[k]);
            lemma_top_node_kept(front, x, front[k]);
            assert(level.contains(top_node(front, front[k])));
            let p = choose|p: int| 0 <= p < level.len() && level[p] == top_node(front, front[k]);
            assert(out[p] == level[p]);
        } else {
            assert(out[level.len() as int] == node);
        }
    }
    assert forall|i: int, j: int|
        #![trigger out[i], out[j]]
        0 <= i < out.len() && 0 <= j < out.len() && i != j implies out[i].title
        != out[j].title by {
        if i < level.len() && j < level.len() {
            assert(out[i] == level[i] && out[j] == level[j]);
        } else if i < level.len() {
            assert(out[i] == level[i]);
        } else {
            assert(out[j] == level[j]);
        }
    }
}

/// Placing an entry without segments keeps the level described.
proof fn lemma_step_none(front: Seq<Entry>, x: Entry, level: Seq<NodeView>)
    requires
        describes(front, level),
        x.segments.len() == 0,
    ensures
        describes(front.push(x), with_entry(level, x)),
{
    let all = front.push(x);
    assert forall|i: int| 0 <= i < level.len() implies stands_for(all, #[trigger] level[i]) by {
        assert(stands_for(front, level[i]));
        let k = choose|k: int|
            0 <= k < front.len() && (#[trigger] front[k]).segments.len() > 0 && top_node(
                front,
                front[k],
            ) == level[i];
        lemma_top_node_kept(front, x, front[k]);
        assert(all[k] == front[k]);
    }
    assert forall|k: int|
        0 <= k < all.len() && (#[trigger] all[k]).segments.len() > 0 implies level.contains(
        top_node(all, all[k]),
    ) by {
        assert(all[k] == front[k]);
        lemma_top_node_kept(front, x, front[k]);
    }
}

/// What an entry with several segments finds under its first segment: the
/// folder of the entries that share it, or nothing where none does.
proof fn lemma_folder_found(front: Seq<Entry>, x: Entry, level: Seq<NodeView>)
    requires
        describes(front, level),
        conflict_free(front.push(x)),
        x.segments.len() > 1,
    ensures
        position(level, x.segments[0]) < level.len() ==> level[position(level, x.segments[0])]
            == folder(x.segments[0], placed(below(front, x.segments[0]))),
        position(level, x.segments[0]) == level.len() ==> below(front, x.segments[0]).len() == 0,
        0 <= position(level, x.segments[0]) <= level.len(),
{
    let name = x.segments[0];
    let at = position(level, name);
    lemma_conflict_free_front(front, x);
    lemma_position(level, name);
    if at < level.len() {
        assert(stands_for(front, level[at]));
        let k = choose|k: int|
            0 <= k < front.len() && (#[trigger] front[k]).segments.len() > 0 && top_node(
                front,
                front[k],
            ) == level[at];
        assert(top_title(front[k]) == name);
        if front[k].segments.len() == 1 {
            assert(collide(x, front[k]));
        }
    } else {
        let inner = below(front, name);
        if inner.len() > 0 {
            lemma_below_members(front, name);
            assert(comes_from(front, name, inner[0]));
            let j = choose|j: int|
                0 <= j < front.len() && goes_below(#[trigger] front[j], name) && tail(front[j])
                    == inner[0];
            assert(level.contains(top_node(front, front[j])));
            let p = choose|p: int| 0 <= p < level.len() && level[p] == top_node(front, front[j]);
            assert(level[p].title == name);
        }
    }
}

/// Placing an entry with several segments keeps the level described.
proof fn lemma_step_folder(front: Seq<Entry>, x: Entry, level: Seq<NodeView>)
    requires
        describes(front, level),
        conflict_free(front.push(x)),
        x.segments.len() > 1,
    ensures
        describes(front.push(x), with_entry(level, x)),
{
    let all = front.push(x);
    let name = x.segments[0];
    let at = position(level, name);
    let out = with_entry(level, x);
    let node = top_node(all, x);
    lemma_folder_found(front, x, level);
    lemma_below_push(front, x, name);
    lemma_position(level, name);
    assert(placed(Seq::<Entry>::empty()) =~= Seq::<NodeView>::empty());
    if at == level.len() {
        assert(below(front, name) =~= Seq::<Entry>::empty());
    }
    assert(out == put(level, at, node));
    assert(node.title == name);
    assert(all[front.len() as int] == x);
    assert forall|i: int| 0 <= i < out.len() implies stands_for(all, #[trigger] out[i]) by {
        if i == at {
            assert(out[i] == node);
        } else {
            assert(out[i] == level[i]);
            assert(stands_for(front, level[i]));
            let k = choose|k: int|
                0 <= k < front.len() && (#[trigger] front[k]).segments.len() > 0 && top_node(
                    front,
                    front[k],
                ) == level[i];
            assert(level[i].title != name) by {
                if at < level.len() {
                    assert(level[i].title != level[at].title);
                }
            }
            lemma_top_node_kept(front, x, front[k]);
            assert(all[k] == front[k]);
        }
    }
    assert forall|k: int|
        0 <= k < all.len() && (#[trigger] all[k]).segments.len() > 0 implies out.contains(
        top_node(all, all[k]),
    ) by {
        if k < front.len() {
            assert(all[k] == front[k]);
            assert(level.contains(top_node(front, front[k])));
            let p = choose|p: int| 0 <= p < level.len() && level[p] == top_node(front, front[k]);
            if top_title(front[k]) == name {
                lemma_conflict_free_front(front, x);
                if front[k].segments.len() == 1 {
                    assert(collide(x, front[k]));
                }
                assert(top_node(all, front[k]) == node);
                assert(out[at] == node);
            } else {
                lemma_top_node_kept(front, x, front[k]);
                assert(p != at);
                assert(out[p] == level[p]);
            }
        } else {
            assert(out[at] == node);
        }
    }
    assert forall|i: int, j: int|
        #![trigger out[i], out[j]]
        0 <= i < out.len() && 0 <= j < out.len() && i != j implies out[i].title
        != out[j].title by {
        if i != at && j != at {
            assert(out[i] == level[i] && out[j] == level[j]);
        } else if i == at {
            assert(out[j] == level[j]);
            if at < level.len() {
                assert(level[j].title != level[at].title);
            }
        } else {
            assert(out[i] == level[i]);
            if at < level.len() {
                assert(level[i].title != level[at].title);
            }
        }
    }
}

/// The tree of entries that do not collide is what the entries say: at the
/// top level no title stands twice, every node is the top node of an
/// entry, and the top node of every entry is there.
pub proof fn lemma_placed_described(entries: Seq<Entry>)
    requires
        conflict_free(entries),
    ensures
        describes(entries, placed(entries)),
    decreases entries.len(),
{
    if entries.len() > 0 {
        let front = entries.drop_last();
        let x = entries.last();
        assert(front.push(x) =~= entries);
        lemma_conflict_free_front(front, x);
        lemma_placed_described(front);
        if x.segments.len() == 0 {
            lemma_step_none(front, x, placed(front));
        } else if x.segments.len() == 1 {
            lemma_step_leaf(front, x, placed(front));
        } else {
            lemma_step_folder(front, x, placed(front));
        }
    }
}

/// Two levels hold the same nodes.
pub open spec fn same_nodes(a: Seq<NodeView>, b: Seq<NodeView>) -> bool {
    forall|node: NodeView| a.contains(node) <==> b.contains(node)
}

/// Two lists hold the same entries.
pub open spec fn same_entries(a: Seq<Entry>, b: Seq<Entry>) -> bool {
    forall|entry: Entry| a.contains(entry) <==> b.contains(entry)
}

/// No entry of the list has more than `depth` segments.
pub open spec fn within_depth(entries: Seq<Entry>, depth: nat) -> bool {
    forall|i: int| 0 <= i < entries.len() ==> (#[trigger] entries[i]).segments.len() <= depth
}

/// An ordered level without a repeated title is fixed by the nodes it
/// holds: two such levels with the same nodes are the same level.
pub proof fn lemma_ordered_unique(a: Seq<NodeView>, b: Seq<NodeView>)
    requires
        ordered(a),
        ordered(b),
        distinct_titles(a),
        distinct_titles(b),
        same_nodes(a, b),
    ensures
        a == b,
    decreases a.len(),
{
    if a.len() == 0 {
        if b.len() > 0 {
            assert(b.contains(b[0]));
            assert(a.contains(b[0]));
        }
        assert(a =~= b);
    } else {
        let top = a.last();
        assert(a.contains(a[a.len() - 1]));
        assert(b.contains(top));
        let k = choose|k: int| 0 <= k < b.len() && b[k] == top;
        let end = b.last();
        assert(b.contains(b[b.len() - 1]));
        assert(a.contains(end));
        let q = choose|q: int| 0 <= q < a.len() && a[q] == end;
        if k < b.len() - 1 {
            assert(text_le(b[k].title, b[b.len() - 1].title));
            if q < a.len() - 1 {
                assert(text_le(a[q].title, a[a.len() - 1].title));
                lemma_text_le_antisymmetric(top.title, end.title);
                assert(a[q].title != a[a.len() - 1].title);
            } else {
                assert(b[k].title != b[b.len() - 1].title);
            }
        }
        let fa = a.drop_last();
        let fb = b.drop_last();
        assert forall|node: NodeView| fa.contains(node) <==> fb.contains(node) by {
            if fa.contains(node) {
                let i = choose|i: int| 0 <= i < fa.len() && fa[i] == node;
                assert(a[i] == node);
                assert(a.contains(node));
                assert(b.contains(node));
                let j = choose|j: int| 0 <= j < b.len() && b[j] == node;
                if j == b.len() - 1 {
                    assert(a[i].title != a[a.len() - 1].title);
                }
                assert(fb[j] == node);
            }
            if fb.contains(node) {
                let i = choose|i: int| 0 <= i < fb.len() && fb[i] == node;
                assert(b[i] == node);
                assert(b.contains(node));
                assert(a.contains(node));
                let j = choose|j: int| 0 <= j < a.len() && a[j] == node;
                if j == a.len() - 1 {
                    assert(b[i].title != b[b.len() - 1].title);
                }
                assert(fa[j] == node);
            }
        }
        assert(ordered(fa)) by {
            assert forall|i: int, j: int|
                #![trigger fa[i], fa[j]]
                0 <= i < j < fa.len() implies text_le(fa[i].title, fa[j].title) by {
                assert(fa[i] == a[i] && fa[j] == a[j]);
            }
        }
        assert(ordered(fb)) by {
            assert forall|i: int, j: int|
                #![trigger fb[i], fb[j]]
                0 <= i < j < fb.len() implies text_le(fb[i].title, fb[j].title) by {
                assert(fb[i] == b[i] && fb[j] == b[j]);
            }
        }
        assert(distinct_titles(fa)) by {
            assert forall|i: int, j: int|
                #![trigger fa[i], fa[j]]
                0 <= i < fa.len() && 0 <= j < fa.len() && i != j implies fa[i].title
                != fa[j].title by {
                assert(fa[i] == a[i] && fa[j] == a[j]);
            }
        }
        assert(distinct_titles(fb)) by {
            assert forall|i: int, j: int|
                #![trigger fb[i], fb[j]]
                0 <= i < fb.len() && 0 <= j < fb.len() && i != j implies fb[i].title
                != fb[j].title by {
                assert(fb[i] == b[i] && fb[j] == b[j]);
            }
        }
        lemma_ordered_unique(fa, fb);
        assert(a =~= fa.push(top));
        assert(b =~= fb.push(end));
    }
}

/// Sorting a level without a repeated title gives one without.
pub proof fn lemma_sort_keeps_distinct(level: Seq<NodeView>)
    requires
        distinct_titles(level),
    ensures
        distinct_titles(sort_by_title(level)),
    decreases level.len(),
{
    if level.len() > 0 {
        let front = level.drop_last();
        let last = level.last();
        let sorted = sort_by_title(front);
        let out = sort_by_title(level);
        assert(distinct_titles(front)) by {
            assert forall|i: int, j: int|
                #![trigger front[i], front[j]]
                0 <= i < front.len() && 0 <= j < front.len() && i != j implies front[i].title
                != front[j].title by {
                assert(front[i] == level[i] && front[j] == level[j]);
            }
        }
        lemma_sort_keeps_distinct(front);
        lemma_sort_keeps_nodes(front);
        lemma_insert_sorted_is_insert(sorted, last);
        let at = insertion_point(sorted, last);
        assert(out == sorted.insert(at, last));
        assert forall|i: int| 0 <= i < sorted.len() implies (#[trigger] sorted[i]).title
            != last.title by {
            assert(sorted.contains(sorted[i]));
            assert(front.contains(sorted[i]));
            let k = choose|k: int| 0 <= k < front.len() && front[k] == sorted[i];
            assert(level[k] == front[k]);
            assert(level[k].title != level[level.len() - 1].title);
        }
        assert forall|i: int, j: int|
            #![trigger out[i], out[j]]
            0 <= i < out.len() && 0 <= j < out.len() && i != j implies out[i].title
            != out[j].title by {
            let si = if i < at {
                i
            } else {
                i - 1
            };
            let sj = if j < at {
                j
            } else {
                j - 1
            };
            if i == at {
                assert(out[j] == sorted[sj]);
            } else if j == at {
                assert(out[i] == sorted[si]);
            } else {
                assert(out[i] == sorted[si] && out[j] == sorted[sj]);
            }
        }
    }
}

/// Lists with the same entries have the same entries under every folder.
pub proof fn lemma_below_same(a: Seq<Entry>, b: Seq<Entry>, name: Seq<char>)
    requires
        same_entries(a, b),
    ensures
        same_entries(below(a, name), below(b, name)),
{
    lemma_below_members(a, name);
    lemma_below_members(b, name);
    let ia = below(a, name);
    let ib = below(b, name);
    assert forall|entry: Entry| ia.contains(entry) <==> ib.contains(entry) by {
        if ia.contains(entry) {
            let p = choose|p: int| 0 <= p < ia.len() && ia[p] == entry;
            assert(comes_from(a, name, ia[p]));
            let j = choose|j: int|
                0 <= j < a.len() && goes_below(#[trigger] a[j], name) && tail(a[j]) == entry;
            assert(a.contains(a[j]));
            assert(b.contains(a[j]));
            let k = choose|k: int| 0 <= k < b.len() && b[k] == a[j];
            assert(goes_below(b[k], name));
        }
        if ib.contains(entry) {
            let p = choose|p: int| 0 <= p < ib.len() && ib[p] == entry;
            assert(comes_from(b, name, ib[p]));
            let j = choose|j: int|
                0 <= j < b.len() && goes_below(#[trigger] b[j], name) && tail(b[j]) == entry;
            assert(b.contains(b[j]));
            assert(a.contains(b[j]));
            let k = choose|k: int| 0 <= k < a.len() && a[k] == b[j];
            assert(goes_below(a[k], name));
        }
    }
}

/// The entries under a folder have one segment less.
pub proof fn lemma_below_depth(entries: Seq<Entry>, name: Seq<char>, depth: nat)
    requires
        within_depth(entries, depth),
        depth > 0,
    ensures
        within_depth(below(entries, name), (depth - 1) as nat),
{
    lemma_below_members(entries, name);
    let inner = below(entries, name);
    assert forall|i: int| 0 <= i < inner.len() implies (#[trigger] inner[i]).segments.len()
        <= depth - 1 by {
        assert(comes_from(entries, name, inner[i]));
        let j = choose|j: int|
            0 <= j < entries.len() && goes_below(#[trigger] entries[j], name) && tail(entries[j])
                == inner[i];
    }
}

/// Every node of the first tree, with the tree under it sorted, stands in
/// the second tree as well.
proof fn lemma_sorted_nodes_carry(a: Seq<Entry>, b: Seq<Entry>, depth: nat)
    requires
        conflict_free(a),
        conflict_free(b),
        same_entries(a, b),
        within_depth(a, depth),
        within_depth(b, depth),
    ensures
        forall|node: NodeView|
            sorted_below(placed(a)).contains(node) ==> sorted_below(placed(b)).contains(node),
    decreases depth, 0nat,
{
    let ta = placed(a);
    let tb = placed(b);
    let xa = sorted_below(ta);
    let xb = sorted_below(tb);
    lemma_placed_described(a);
    lemma_placed_described(b);
    assert forall|node: NodeView| xa.contains(node) implies xb.contains(node) by {
        let i = choose|i: int| 0 <= i < xa.len() && xa[i] == node;
        assert(node == sorted_node(ta[i]));
        assert(stands_for(a, ta[i]));
        let k = choose|k: int|
            0 <= k < a.len() && (#[trigger] a[k]).segments.len() > 0 && top_node(a, a[k]) == ta[i];
        let entry = a[k];
        assert(a.contains(entry));
        assert(b.contains(entry));
        let m = choose|m: int| 0 <= m < b.len() && b[m] == entry;
        assert(tb.contains(top_node(b, b[m])));
        let p = choose|p: int| 0 <= p < tb.len() && tb[p] == top_node(b, entry);
        if entry.segments.len() > 1 {
            let name = entry.segments[0];
            lemma_below_conflict_free(a, name);
            lemma_below_conflict_free(b, name);
            lemma_below_same(a, b, name);
            lemma_below_depth(a, name, depth);
            lemma_below_depth(b, name, depth);
            lemma_same_entries_same_tree(below(a, name), below(b, name), (depth - 1) as nat);
        }
        assert(sorted_node(top_node(a, entry)) == sorted_node(top_node(b, entry)));
        assert(xb[p] == sorted_node(tb[p]));
    }
}

/// Lists that hold the same entries, none of which collide, give the same
/// sorted tree.
pub proof fn lemma_same_entries_same_tree(a: Seq<Entry>, b: Seq<Entry>, depth: nat)
    requires
        conflict_free(a),
        conflict_free(b),
        same_entries(a, b),
        within_depth(a, depth),
        within_depth(b, depth),
    ensures
        sorted_tree(placed(a)) == sorted_tree(placed(b)),
    decreases depth, 1nat,
{
    let xa = sorted_below(placed(a));
    let xb = sorted_below(placed(b));
    lemma_placed_described(a);
    lemma_placed_described(b);
    lemma_sorted_nodes_carry(a, b, depth);
    lemma_sorted_nodes_carry(b, a, depth);
    lemma_sorted_below_distinct(placed(a));
    lemma_sorted_below_distinct(placed(b));
    lemma_sort_keeps_distinct(xa);
    lemma_sort_keeps_distinct(xb);
    lemma_sort_keeps_nodes(xa);
    lemma_sort_keeps_nodes(xb);
    lemma_sort_by_title(xa);
    lemma_sort_by_title(xb);
    assert forall|node: NodeView|
        sort_by_title(xa).contains(node) <==> sort_by_title(xb).contains(node) by {
        assert(sort_by_title(xa).contains(node) <==> xa.contains(node));
        assert(sort_by_title(xb).contains(node) <==> xb.contains(node));
        assert(xa.contains(node) ==> xb.contains(node));
        assert(xb.contains(node) ==> xa.contains(node));
    }
    lemma_ordered_unique(sort_by_title(xa), sort_by_title(xb));
}

/// Sorting under the nodes of a level changes no title.
pub proof fn lemma_sorted_below_distinct(level: Seq<NodeView>)
    requires
        distinct_titles(level),
    ensures
        distinct_titles(sorted_below(level)),
{
    let out = sorted_below(level);
    assert forall|i: int, j: int|
        #![trigger out[i], out[j]]
        0 <= i < out.len() && 0 <= j < out.len() && i != j implies out[i].title
        != out[j].title by {
        assert(out[i].title == level[i].title);
        assert(out[j].title == level[j].title);
    }
}

/// The largest number of segments that an entry of the list has.
pub open spec fn deepest(entries: Seq<Entry>) -> nat
    decreases entries.len(),
{
    if entries.len() == 0 {
        0
    } else if entries.last().segments.len() > deepest(entries.drop_last()) {
        entries.last().segments.len()
    } else {
        deepest(entries.drop_last())
    }
}

/// No entry is deeper than the deepest.
pub proof fn lemma_deepest(entries: Seq<Entry>)
    ensures
        within_depth(entries, deepest(entries)),
    decreases entries.len(),
{
    if entries.len() > 0 {
        let front = entries.drop_last();
        lemma_deepest(front);
        assert forall|i: int| 0 <= i < entries.len() implies (#[trigger] entries[i]).segments.len()
            <= deepest(entries) by {
            if i < front.len() {
                assert(entries[i] == front[i]);
            }
        }
    }
}

/// No two documents of the list get in each other's way: their entries do
/// not collide.
pub open spec fn documents_conflict_free(documents: Seq<DocumentView>) -> bool {
    conflict_free(entries_of(documents))
}

/// Documents that do not collide in one arrangement of the list do not
/// collide in any other.
pub proof fn lemma_conflict_free_rearranged(a: Seq<DocumentView>, b: Seq<DocumentView>)
    requires
        a.to_multiset() == b.to_multiset(),
        documents_conflict_free(a),
    ensures
        documents_conflict_free(b),
    decreases a.len(),
{
    let ea = entries_of(a);
    let eb = entries_of(b);
    vstd::seq_lib::to_multiset_len(a);
    vstd::seq_lib::to_multiset_len(b);
    if a.len() > 0 {
        let x = a.last();
        let fa = a.drop_last();
        assert(a.contains(a[a.len() - 1]));
        vstd::seq_lib::to_multiset_contains(a, x);
        vstd::seq_lib::to_multiset_contains(b, x);
        let i = choose|i: int| 0 <= i < b.len() && b[i] == x;
        let fb = b.remove(i);
        assert(fa =~= a.remove(a.len() - 1));
        vstd::seq_lib::to_multiset_remove(a, a.len() - 1);
        vstd::seq_lib::to_multiset_remove(b, i);
        assert(entries_of(fa).push(entry_of(x)) =~= ea);
        lemma_conflict_free_front(entries_of(fa), entry_of(x));
        lemma_conflict_free_rearranged(fa, fb);
        let efb = entries_of(fb);
        assert forall|p: int, q: int|
            #![trigger eb[p], eb[q]]
            0 <= p < eb.len() && 0 <= q < eb.len() && p != q implies !collide(eb[p], eb[q]) by {
            let sp = if p < i {
                p
            } else {
                p - 1
            };
            let sq = if q < i {
                q
            } else {
                q - 1
            };
            if p != i && q != i {
                assert(fb[sp] == b[p] && fb[sq] == b[q]);
                assert(efb[sp] == eb[p] && efb[sq] == eb[q]);
            } else {
                let other = if p == i {
                    q
                } else {
                    p
                };
                let so = if p == i {
                    sq
                } else {
                    sp
                };
                assert(fb[so] == b[other]);
                assert(fb.contains(b[other]));
                vstd::seq_lib::to_multiset_contains(fa, b[other]);
                vstd::seq_lib::to_multiset_contains(fb, b[other]);
                let j = choose|j: int| 0 <= j < fa.len() && fa[j] == b[other];
                assert(entries_of(fa)[j] == entry_of(b[other]));
            }
        }
    }
}

/// Lists that hold the same documents hold the same entries.
pub proof fn lemma_same_documents_same_entries(a: Seq<DocumentView>, b: Seq<DocumentView>)
    requires
        a.to_multiset() == b.to_multiset(),
    ensures
        same_entries(entries_of(a), entries_of(b)),
{
    let ea = entries_of(a);
    let eb = entries_of(b);
    assert forall|entry: Entry| ea.contains(entry) <==> eb.contains(entry) by {
        if ea.contains(entry) {
            let i = choose|i: int| 0 <= i < ea.len() && ea[i] == entry;
            assert(a.contains(a[i]));
            vstd::seq_lib::to_multiset_contains(a, a[i]);
            vstd::seq_lib::to_multiset_contains(b, a[i]);
            let j = choose|j: int| 0 <= j < b.len() && b[j] == a[i];
            assert(eb[j] == entry);
        }
        if eb.contains(entry) {
            let i = choose|i: int| 0 <= i < eb.len() && eb[i] == entry;
            assert(b.contains(b[i]));
            vstd::seq_lib::to_multiset_contains(a, b[i]);
            vstd::seq_lib::to_multiset_contains(b, b[i]);
            let j = choose|j: int| 0 <= j < a.len() && a[j] == b[i];
            assert(ea[j] == entry);
        }
    }
}

/// The order of the documents does not matter: two lists that hold the
/// same documents, each as often as the other, give the same tree,
/// provided that no two of the documents collide.
pub proof fn lemma_synthesis_ignores_order(a: Seq<DocumentView>, b: Seq<DocumentView>)
    requires
        a.to_multiset() == b.to_multiset(),
        documents_conflict_free(a),
    ensures
        synthesized(a) == synthesized(b),
{
    let ea = entries_of(a);
    let eb = entries_of(b);
    let depth = deepest(ea) + deepest(eb);
    lemma_conflict_free_rearranged(a, b);
    lemma_same_documents_same_entries(a, b);
    lemma_deepest(ea);
    lemma_deepest(eb);
    lemma_same_entries_same_tree(ea, eb, depth);
}

/// No sibling sequence of the tree, at any depth, holds a title twice.
pub open spec fn distinct_throughout(level: Seq<NodeView>) -> bool
    decreases level,
{
    &&& distinct_titles(level)
    &&& forall|i: int|
        0 <= i < level.len() ==> match (#[trigger] level[i]).children {
            Some(children) => distinct_throughout(children),
            None => true,
        }
}

/// In the tree of entries that do not collide, no sibling sequence holds a
/// title twice: every repeated segment has reused its folder.
pub proof fn lemma_placed_distinct(entries: Seq<Entry>, depth: nat)
    requires
        conflict_free(entries),
        within_depth(entries, depth),
    ensures
        distinct_throughout(placed(entries)),
    decreases depth,
{
    let level = placed(entries);
    lemma_placed_described(entries);
    assert forall|i: int| 0 <= i < level.len() implies match (#[trigger] level[i]).children {
        Some(children) => distinct_throughout(children),
        None => true,
    } by {
        assert(stands_for(entries, level[i]));
        let k = choose|k: int|
            0 <= k < entries.len() && (#[trigger] entries[k]).segments.len() > 0 && top_node(
                entries,
                entries[k],
            ) == level[i];
        if entries[k].segments.len() > 1 {
            let name = entries[k].segments[0];
            lemma_below_conflict_free(entries, name);
            lemma_below_depth(entries, name, depth);
            lemma_placed_distinct(below(entries, name), (depth - 1) as nat);
        }
    }
}

/// Sorting keeps every sibling sequence free of repeated titles.
pub proof fn lemma_sorted_tree_distinct(level: Seq<NodeView>)
    requires
        distinct_throughout(level),
    ensures
        distinct_throughout(sorted_tree(level)),
    decreases level,
{
    let under = sorted_below(level);
    let out = sorted_tree(level);
    lemma_sorted_below_distinct(level);
    lemma_sort_keeps_distinct(under);
    lemma_sort_keeps_nodes(under);
    assert forall|i: int| 0 <= i < out.len() implies match (#[trigger] out[i]).children {
        Some(children) => distinct_throughout(children),
        None => true,
    } by {
        assert(out.contains(out[i]));
        assert(under.contains(out[i]));
        let k = choose|k: int| 0 <= k < under.len() && under[k] == out[i];
        assert(out[i] == sorted_node(level[k]));
        match level[k].children {
            Some(children) => {
                lemma_sorted_tree_distinct(children);
            },
            None => {},
        }
    }
}

/// The tree of documents that do not collide holds no title twice in any
/// sibling sequence.
pub proof fn lemma_synthesis_keeps_titles_apart(documents: Seq<DocumentView>)
    requires
        documents_conflict_free(documents),
    ensures
        distinct_throughout(synthesized(documents)),
{
    let entries = entries_of(documents);
    lemma_deepest(entries);
    lemma_placed_distinct(entries, deepest(entries));
    lemma_sorted_tree_distinct(placed(entries));
}

} // verus!
