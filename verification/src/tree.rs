//! The navigation tree: its nodes, and the placement of one document in it.

use vstd::prelude::*;

verus! {

/// A node of the navigation tree. A leaf stands for a document and carries
/// its link; a folder stands for a shared path prefix and carries children.
#[derive(Debug, PartialEq, Eq)]
pub struct TreeNode {
    pub title: String,
    pub link: Option<String>,
    pub children: Option<Vec<TreeNode>>,
}

/// The mathematical value of a `TreeNode`.
pub struct NodeView {
    pub title: Seq<char>,
    pub link: Option<Seq<char>>,
    pub children: Option<Seq<NodeView>>,
}

impl View for TreeNode {
    type V = NodeView;

    open spec fn view(&self) -> NodeView {
        node_view(*self)
    }
}

/// The value of a node: its title, its link, and the values of its
/// children.
pub open spec fn node_view(node: TreeNode) -> NodeView
    decreases node,
{
    NodeView {
        title: node.title@,
        link: match node.link {
            Some(link) => Some(link@),
            None => None,
        },
        children: match node.children {
            Some(nodes) => Some(nodes_view(nodes@)),
            None => None,
        },
    }
}

/// The values of a sequence of nodes.
pub open spec fn nodes_view(nodes: Seq<TreeNode>) -> Seq<NodeView>
    decreases nodes,
{
    Seq::new(
        nodes.len(),
        |i: int|
            if 0 <= i < nodes.len() {
                node_view(nodes[i])
            } else {
                arbitrary()
            },
    )
}

/// The leaf of a document.
pub open spec fn leaf(title: Seq<char>, link: Seq<char>) -> NodeView {
    NodeView { title, link: Some(link), children: None }
}

/// A folder with the given children.
pub open spec fn folder(title: Seq<char>, children: Seq<NodeView>) -> NodeView {
    NodeView { title, link: None, children: Some(children) }
}

/// The children of a node; a leaf has none.
pub open spec fn children_of(node: NodeView) -> Seq<NodeView> {
    match node.children {
        Some(children) => children,
        None => Seq::empty(),
    }
}

/// The index of the first node of `level` with the given title, or the
/// length of `level` where no node has it.
pub open spec fn position(level: Seq<NodeView>, title: Seq<char>) -> int
    decreases level.len(),
{
    if level.len() == 0 {
        0
    } else if level[0].title == title {
        0
    } else {
        1 + position(level.drop_first(), title)
    }
}

/// The level with `node` at index `at`: in place of the node that stands
/// there, or appended where `at` is the length of the level.
pub open spec fn put(level: Seq<NodeView>, at: int, node: NodeView) -> Seq<NodeView> {
    if 0 <= at < level.len() {
        level.update(at, node)
    } else {
        level.push(node)
    }
}

/// The level after a document with the path segments `segs`, the leaf
/// title `title` and the link `link` has been placed in it.
///
/// Each segment but the last names a folder: the first sibling with that
/// title is reused, and one is appended where there is none. The last
/// segment names the leaf. A sibling that already stands in the way gives
/// way to the later document: a leaf found where a folder is needed
/// becomes an empty folder, and whatever is found under the last segment is
/// replaced by the leaf.
pub open spec fn place(
    level: Seq<NodeView>,
    segs: Seq<Seq<char>>,
    title: Seq<char>,
    link: Seq<char>,
) -> Seq<NodeView>
    decreases segs.len(),
{
    if segs.len() == 0 {
        level
    } else {
        let at = position(level, segs[0]);
        if segs.len() == 1 {
            put(level, at, leaf(title, link))
        } else {
            let below = if at < level.len() {
                children_of(level[at])
            } else {
                Seq::empty()
            };
            put(level, at, folder(segs[0], place(below, segs.drop_first(), title, link)))
        }
    }
}

/// A tree is well formed when each of its nodes, at every depth, is a leaf
/// with a link and no children, or a folder with children and no link.
pub open spec fn well_formed(level: Seq<NodeView>) -> bool
    decreases level,
{
    forall|i: int|
        0 <= i < level.len() ==> match (#[trigger] level[i]).children {
            Some(children) => level[i].link is None && well_formed(children),
            None => level[i].link is Some,
        }
}

/// Placing a document in a well-formed tree gives a well-formed tree.
pub proof fn lemma_place_well_formed(
    level: Seq<NodeView>,
    segs: Seq<Seq<char>>,
    title: Seq<char>,
    link: Seq<char>,
)
    requires
        well_formed(level),
    ensures
        well_formed(place(level, segs, title, link)),
    decreases segs.len(),
{
    if segs.len() > 0 {
        let at = position(level, segs[0]);
        let out = place(level, segs, title, link);
        lemma_position(level, segs[0]);
        if segs.len() > 1 {
            let under = if at < level.len() {
                children_of(level[at])
            } else {
                Seq::empty()
            };
            assert(well_formed(under));
            lemma_place_well_formed(under, segs.drop_first(), title, link);
        }
        assert forall|i: int| 0 <= i < out.len() implies match (#[trigger] out[i]).children {
            Some(children) => out[i].link is None && well_formed(children),
            None => out[i].link is Some,
        } by {
            if i != at {
                assert(out[i] == level[i]);
            }
        }
    }
}

/// The position of a title lies within the level or at its end, no node
/// before it has the title, and the node at it, if any, has.
pub proof fn lemma_position(level: Seq<NodeView>, title: Seq<char>)
    ensures
        0 <= position(level, title) <= level.len(),
        forall|j: int| 0 <= j < position(level, title) ==> (#[trigger] level[j]).title != title,
        position(level, title) < level.len() ==> level[position(level, title)].title == title,
    decreases level.len(),
{
    if level.len() > 0 && level[0].title != title {
        let rest = level.drop_first();
        lemma_position(rest, title);
        assert forall|j: int| 0 <= j < position(level, title) implies (#[trigger] level[j]).title
            != title by {
            if j > 0 {
                assert(level[j] == rest[j - 1]);
            }
        }
    }
}

/// The first index at which the title stands, with none before it, is the
/// position of the title.
pub proof fn lemma_position_is(level: Seq<NodeView>, title: Seq<char>, at: int)
    requires
        0 <= at <= level.len(),
        forall|j: int| 0 <= j < at ==> (#[trigger] level[j]).title != title,
        at < level.len() ==> level[at].title == title,
    ensures
        position(level, title) == at,
    decreases level.len(),
{
    if at > 0 {
        let rest = level.drop_first();
        assert(level[0].title != title);
        assert forall|j: int| 0 <= j < at - 1 implies (#[trigger] rest[j]).title != title by {
            assert(rest[j] == level[j + 1]);
        }
        lemma_position_is(rest, title, at - 1);
    }
}

/// Finds the first node with the given title; gives the length of the level
/// where there is none.
pub fn find_title(level: &Vec<TreeNode>, title: &String) -> (at: usize)
    ensures
        at == position(nodes_view(level@), title@),
        at <= level.len(),
{
    let n: usize = level.len();
    let mut i: usize = 0;
    while i < n
        invariant
            n == level.len(),
            i <= n,
            forall|j: int| 0 <= j < i ==> (#[trigger] nodes_view(level@)[j]).title != title@,
        decreases n - i,
    {
        if level[i].title == *title {
            proof {
                lemma_position_is(nodes_view(level@), title@, i as int);
            }
            return i;
        }
        i += 1;
    }
    proof {
        lemma_position_is(nodes_view(level@), title@, n as int);
    }
    n
}

/// Places one document in the level: descends along `segments` from index
/// `depth` on and leaves the leaf under the last of them.
pub fn place_document(
    level: &mut Vec<TreeNode>,
    segments: &Vec<String>,
    depth: usize,
    title: String,
    link: String,
)
    requires
        depth < segments.len(),
    ensures
        nodes_view(final(level)@) == place(
            nodes_view(old(level)@),
            crate::text::texts(segments@).skip(depth as int),
            title@,
            link@,
        ),
    decreases segments.len() - depth,
{
    let ghost before = nodes_view(level@);
    let ghost segs = crate::text::texts(segments@).skip(depth as int);
    let at: usize = find_title(level, &segments[depth]);
    let last: bool = depth + 1 == segments.len();
    let ghost title_text = title@;
    let ghost link_text = link@;
    proof {
        assert(segs.len() == segments.len() - depth);
        assert(segs[0] == segments@[depth as int]@);
        assert(segs.drop_first() =~= crate::text::texts(segments@).skip(depth + 1));
    }
    if last {
        let node = TreeNode { title, link: Some(link), children: None };
        if at < level.len() {
            level.set(at, node);
            proof {
                assert(nodes_view(level@) =~= before.update(at as int, node@));
            }
        } else {
            level.push(node);
            proof {
                assert(nodes_view(level@) =~= before.push(node@));
            }
        }
    } else if at < level.len() {
        let ghost found = level@[at as int];
        proof {
            lemma_position(before, segs[0]);
        }
        let node: &mut TreeNode = &mut level[at];
        node.link = None;
        if node.children.is_none() {
            node.children = Some(Vec::new());
        }
        match &mut node.children {
            Some(below) => {
                assert(nodes_view(below@) =~= children_of(found@));
                place_document(below, segments, depth + 1, title, link);
            },
            None => {},
        }
        proof {
            let after = level@[at as int];
            assert(after@ == folder(
                segs[0],
                place(children_of(found@), segs.drop_first(), title_text, link_text),
            ));
            assert(nodes_view(level@) =~= before.update(at as int, after@));
        }
    } else {
        let mut below: Vec<TreeNode> = Vec::new();
        proof {
            assert(nodes_view(below@) =~= Seq::<NodeView>::empty());
        }
        place_document(&mut below, segments, depth + 1, title, link);
        let node = TreeNode { title: segments[depth].clone(), link: None, children: Some(below) };
        level.push(node);
        proof {
            assert(nodes_view(level@) =~= before.push(node@));
        }
    }
}

} // verus!
