//! The order of the navigation tree: every sibling sequence sorted by title.

use crate::text::{lemma_text_le_total, lemma_text_le_transitive, text_le, title_le};
use crate::tree::{nodes_view, well_formed, NodeView, TreeNode};
use vstd::prelude::*;

verus! {

/// The sorted sequence `sorted` with `node` added behind the last node
/// whose title does not come after its own.
pub open spec fn insert_sorted(sorted: Seq<NodeView>, node: NodeView) -> Seq<NodeView>
    decreases sorted.len(),
{
    if sorted.len() == 0 {
        seq![node]
    } else if text_le(sorted.last().title, node.title) {
        sorted.push(node)
    } else {
        insert_sorted(sorted.drop_last(), node).push(sorted.last())
    }
}

/// The nodes of `level` in the order of their titles; nodes with the same
/// title keep the order in which they stand in `level`.
pub open spec fn sort_by_title(level: Seq<NodeView>) -> Seq<NodeView>
    decreases level.len(),
{
    if level.len() == 0 {
        Seq::empty()
    } else {
        insert_sorted(sort_by_title(level.drop_last()), level.last())
    }
}

/// The node with the tree under it sorted.
pub open spec fn sorted_node(node: NodeView) -> NodeView
    decreases node,
{
    NodeView {
        title: node.title,
        link: node.link,
        children: match node.children {
            Some(children) => Some(sorted_tree(children)),
            None => None,
        },
    }
}

/// The nodes of `level`, in their order, each with the tree under it
/// sorted.
pub open spec fn sorted_below(level: Seq<NodeView>) -> Seq<NodeView>
    decreases level, 0nat,
{
    Seq::new(
        level.len(),
        |i: int|
            if 0 <= i < level.len() {
                sorted_node(level[i])
            } else {
                arbitrary()
            },
    )
}

/// The tree with every sibling sequence sorted by title: the top level and,
/// independently, the children of every folder.
pub open spec fn sorted_tree(level: Seq<NodeView>) -> Seq<NodeView>
    decreases level, 1nat,
{
    sort_by_title(sorted_below(level))
}

/// The place of `node` in `sorted`: the nodes from `at` on all come after
/// it, and the node before `at`, if any, does not.
pub proof fn lemma_insert_sorted_at(sorted: Seq<NodeView>, node: NodeView, at: int)
    requires
        0 <= at <= sorted.len(),
        forall|j: int| at <= j < sorted.len() ==> !text_le((#[trigger] sorted[j]).title, node.title),
        at > 0 ==> text_le(sorted[at - 1].title, node.title),
    ensures
        insert_sorted(sorted, node) == sorted.insert(at, node),
    decreases sorted.len(),
{
    if sorted.len() == 0 {
        assert(sorted.insert(at, node) =~= seq![node]);
    } else if at == sorted.len() {
        assert(sorted.insert(at, node) =~= sorted.push(node));
    } else {
        let front = sorted.drop_last();
        assert(!text_le(sorted[sorted.len() - 1].title, node.title));
        assert forall|j: int| at <= j < front.len() implies !text_le(
            (#[trigger] front[j]).title,
            node.title,
        ) by {
            assert(front[j] == sorted[j]);
        }
        lemma_insert_sorted_at(front, node, at);
        assert(front.insert(at, node).push(sorted.last()) =~= sorted.insert(at, node));
    }
}

/// A level is ordered when no node stands before one whose title comes
/// first.
pub open spec fn ordered(level: Seq<NodeView>) -> bool {
    forall|i: int, j: int|
        #![trigger level[i], level[j]]
        0 <= i < j < level.len() ==> text_le(level[i].title, level[j].title)
}

/// A tree is ordered throughout when its top level is ordered and so are,
/// each on its own, the children of every folder at every depth.
pub open spec fn ordered_throughout(level: Seq<NodeView>) -> bool
    decreases level,
{
    &&& ordered(level)
    &&& forall|i: int|
        0 <= i < level.len() ==> match (#[trigger] level[i]).children {
            Some(children) => ordered_throughout(children),
            None => true,
        }
}

/// The index at which `insert_sorted` puts the node.
pub open spec fn insertion_point(sorted: Seq<NodeView>, node: NodeView) -> int
    decreases sorted.len(),
{
    if sorted.len() == 0 || text_le(sorted.last().title, node.title) {
        sorted.len() as int
    } else {
        insertion_point(sorted.drop_last(), node)
    }
}

/// `insert_sorted` puts the node at its insertion point and moves nothing
/// else.
pub proof fn lemma_insert_sorted_is_insert(sorted: Seq<NodeView>, node: NodeView)
    ensures
        0 <= insertion_point(sorted, node) <= sorted.len(),
        insert_sorted(sorted, node) == sorted.insert(insertion_point(sorted, node), node),
        forall|j: int|
            insertion_point(sorted, node) <= j < sorted.len() ==> !text_le(
                (#[trigger] sorted[j]).title,
                node.title,
            ),
        insertion_point(sorted, node) > 0 ==> text_le(
            sorted[insertion_point(sorted, node) - 1].title,
            node.title,
        ),
    decreases sorted.len(),
{
    if sorted.len() == 0 || text_le(sorted.last().title, node.title) {
    } else {
        let front = sorted.drop_last();
        lemma_insert_sorted_is_insert(front, node);
        assert forall|j: int| insertion_point(sorted, node) <= j < sorted.len() implies !text_le(
            (#[trigger] sorted[j]).title,
            node.title,
        ) by {
            if j < front.len() {
                assert(sorted[j] == front[j]);
            }
        }
    }
    lemma_insert_sorted_at(sorted, node, insertion_point(sorted, node));
}

/// Inserting into an ordered level gives an ordered level with one more
/// node and nothing else changed.
pub proof fn lemma_insert_sorted(sorted: Seq<NodeView>, node: NodeView)
    requires
        ordered(sorted),
    ensures
        ordered(insert_sorted(sorted, node)),
        insert_sorted(sorted, node).to_multiset() == sorted.to_multiset().insert(node),
        insert_sorted(sorted, node).len() == sorted.len() + 1,
{
    let at = insertion_point(sorted, node);
    let out = insert_sorted(sorted, node);
    lemma_insert_sorted_is_insert(sorted, node);
    vstd::seq_lib::to_multiset_insert(sorted, at, node);
    assert forall|i: int, j: int| #![trigger out[i], out[j]] 0 <= i < j < out.len() implies text_le(
        out[i].title,
        out[j].title,
    ) by {
        if j < at {
            assert(out[i] == sorted[i] && out[j] == sorted[j]);
        } else if j == at {
            assert(out[i] == sorted[i]);
            if i < at - 1 {
                assert(text_le(sorted[i].title, sorted[at - 1].title));
                lemma_text_le_transitive(sorted[i].title, sorted[at - 1].title, node.title);
            }
        } else if i < at {
            assert(out[i] == sorted[i] && out[j] == sorted[j - 1]);
        } else if i == at {
            assert(out[j] == sorted[j - 1]);
            lemma_text_le_total(sorted[j - 1].title, node.title);
        } else {
            assert(out[i] == sorted[i - 1] && out[j] == sorted[j - 1]);
        }
    }
}

/// Sorting a level orders it and keeps its nodes, each as often as it
/// stood there.
pub proof fn lemma_sort_by_title(level: Seq<NodeView>)
    ensures
        ordered(sort_by_title(level)),
        sort_by_title(level).to_multiset() == level.to_multiset(),
        sort_by_title(level).len() == level.len(),
    decreases level.len(),
{
    if level.len() > 0 {
        let front = level.drop_last();
        lemma_sort_by_title(front);
        lemma_insert_sorted(sort_by_title(front), level.last());
        vstd::seq_lib::to_multiset_build(front, level.last());
        assert(front.push(level.last()) =~= level);
    } else {
        assert(level =~= Seq::<NodeView>::empty());
    }
}

/// The sorted level holds the nodes of the level, and no others.
pub proof fn lemma_sort_keeps_nodes(level: Seq<NodeView>)
    ensures
        forall|node: NodeView| sort_by_title(level).contains(node) <==> level.contains(node),
{
    lemma_sort_by_title(level);
    assert forall|node: NodeView| sort_by_title(level).contains(node) <==> level.contains(
        node,
    ) by {
        vstd::seq_lib::to_multiset_contains(sort_by_title(level), node);
        vstd::seq_lib::to_multiset_contains(level, node);
    }
}

/// The sorted tree is ordered throughout.
pub proof fn lemma_sorted_tree_ordered(level: Seq<NodeView>)
    ensures
        ordered_throughout(sorted_tree(level)),
    decreases level,
{
    let below = sorted_below(level);
    let out = sorted_tree(level);
    lemma_sort_by_title(below);
    lemma_sort_keeps_nodes(below);
    assert forall|i: int| 0 <= i < out.len() implies match (#[trigger] out[i]).children {
        Some(children) => ordered_throughout(children),
        None => true,
    } by {
        assert(out.contains(out[i]));
        assert(below.contains(out[i]));
        let k = choose|k: int| 0 <= k < below.len() && below[k] == out[i];
        assert(out[i] == sorted_node(level[k]));
        match level[k].children {
            Some(children) => {
                lemma_sorted_tree_ordered(children);
            },
            None => {},
        }
    }
}

/// Sorting an ordered level changes nothing.
pub proof fn lemma_sort_of_ordered(level: Seq<NodeView>)
    requires
        ordered(level),
    ensures
        sort_by_title(level) == level,
    decreases level.len(),
{
    if level.len() == 0 {
        assert(level =~= Seq::<NodeView>::empty());
    } else {
        let front = level.drop_last();
        assert(ordered(front)) by {
            assert forall|i: int, j: int|
                #![trigger front[i], front[j]]
                0 <= i < j < front.len() implies text_le(front[i].title, front[j].title) by {
                assert(front[i] == level[i] && front[j] == level[j]);
            }
        }
        lemma_sort_of_ordered(front);
        if front.len() > 0 {
            assert(text_le(level[front.len() - 1].title, level[level.len() - 1].title));
        }
        assert(front.push(level.last()) =~= level);
    }
}

/// Sorting a tree that is ordered throughout changes nothing.
pub proof fn lemma_sorted_tree_of_ordered(level: Seq<NodeView>)
    requires
        ordered_throughout(level),
    ensures
        sorted_tree(level) == level,
    decreases level,
{
    let under = sorted_below(level);
    assert forall|i: int| 0 <= i < level.len() implies under[i] == level[i] by {
        match level[i].children {
            Some(children) => {
                lemma_sorted_tree_of_ordered(children);
            },
            None => {},
        }
    }
    assert(under =~= level);
    lemma_sort_of_ordered(level);
}

/// Sorting twice is sorting once.
pub proof fn lemma_sorted_tree_idempotent(level: Seq<NodeView>)
    ensures
        sorted_tree(sorted_tree(level)) == sorted_tree(level),
{
    lemma_sorted_tree_ordered(level);
    lemma_sorted_tree_of_ordered(sorted_tree(level));
}

/// Sorting keeps a well-formed tree well formed.
pub proof fn lemma_sorted_tree_well_formed(level: Seq<NodeView>)
    requires
        well_formed(level),
    ensures
        well_formed(sorted_tree(level)),
    decreases level,
{
    let under = sorted_below(level);
    let out = sorted_tree(level);
    lemma_sort_keeps_nodes(under);
    assert forall|i: int| 0 <= i < out.len() implies match (#[trigger] out[i]).children {
        Some(children) => out[i].link is None && well_formed(children),
        None => out[i].link is Some,
    } by {
        assert(out.contains(out[i]));
        assert(under.contains(out[i]));
        let k = choose|k: int| 0 <= k < under.len() && under[k] == out[i];
        assert(out[i] == sorted_node(level[k]));
        match level[k].children {
            Some(children) => {
                lemma_sorted_tree_well_formed(children);
            },
            None => {},
        }
    }
}

/// Sorts one level by title, keeping nodes with equal titles in order.
fn sort_level(nodes: &mut Vec<TreeNode>)
    ensures
        nodes_view(final(nodes)@) == sort_by_title(nodes_view(old(nodes)@)),
{
    let ghost start = nodes_view(nodes@);
    let n: usize = nodes.len();
    let mut i: usize = 0;
    proof {
        assert(start.take(0) =~= Seq::<NodeView>::empty());
        assert(sort_by_title(start.take(0)) + start.skip(0) =~= start);
    }
    while i < n
        invariant
            n == nodes.len(),
            n == start.len(),
            i <= n,
            nodes_view(nodes@) == sort_by_title(start.take(i as int)) + start.skip(i as int),
            sort_by_title(start.take(i as int)).len() == i,
        decreases n - i,
    {
        let ghost done = sort_by_title(start.take(i as int));
        let ghost current = nodes_view(nodes@);
        let node: TreeNode = nodes.remove(i);
        proof {
            assert(nodes_view(nodes@) =~= current.remove(i as int));
            assert(current.remove(i as int) =~= done + start.skip(i + 1));
            assert(current[i as int] == node@);
            assert(current[i as int] == start.skip(i as int)[0]);
        }
        let mut at: usize = i;
        while at > 0 && !title_le(nodes[at - 1].title.as_str(), node.title.as_str())
            invariant
                at <= i,
                i < n,
                nodes.len() == n - 1,
                done.len() == i,
                nodes_view(nodes@) == done + start.skip(i + 1),
                forall|j: int| at <= j < i ==> !text_le((#[trigger] done[j]).title, node@.title),
            decreases at,
        {
            proof {
                assert(nodes_view(nodes@)[at - 1] == done[at - 1]);
            }
            at -= 1;
        }
        proof {
            if at > 0 {
                assert(nodes_view(nodes@)[at - 1] == done[at - 1]);
            }
            lemma_insert_sorted_at(done, node@, at as int);
            assert(start.take(i + 1).drop_last() =~= start.take(i as int));
            assert(start.take(i + 1).last() == start[i as int]);
        }
        let ghost without = nodes_view(nodes@);
        nodes.insert(at, node);
        proof {
            assert(nodes_view(nodes@) =~= without.insert(at as int, node@));
            assert(without.insert(at as int, node@) =~= done.insert(at as int, node@) + start.skip(
                i + 1,
            ));
        }
        i += 1;
    }
    proof {
        assert(start.take(n as int) =~= start);
        assert(start.skip(n as int) =~= Seq::<NodeView>::empty());
        assert(sort_by_title(start) + Seq::<NodeView>::empty() =~= sort_by_title(start));
    }
}

/// Sorts the tree in place: the top level by title, and the children of
/// every folder by title, each sibling sequence on its own.
pub fn sort_tree(nodes: &mut Vec<TreeNode>)
    ensures
        nodes_view(final(nodes)@) == sorted_tree(nodes_view(old(nodes)@)),
        ordered_throughout(nodes_view(final(nodes)@)),
    decreases *old(nodes),
{
    proof {
        lemma_sorted_tree_ordered(nodes_view(nodes@));
    }
    let ghost start = nodes_view(nodes@);
    let n: usize = nodes.len();
    let mut i: usize = 0;
    while i < n
        invariant
            n == nodes.len(),
            n == old(nodes).len(),
            i <= n,
            start == nodes_view(old(nodes)@),
            forall|j: int| 0 <= j < i ==> #[trigger] nodes_view(nodes@)[j] == sorted_node(start[j]),
            forall|j: int| i <= j < n ==> #[trigger] nodes@[j] == old(nodes)@[j],
        decreases n - i,
    {
        let ghost before = nodes@;
        let node: &mut TreeNode = &mut nodes[i];
        match &mut node.children {
            Some(children) => {
                sort_tree(children);
            },
            None => {},
        }
        proof {
            assert forall|j: int| 0 <= j < i + 1 implies #[trigger] nodes_view(nodes@)[j]
                == sorted_node(start[j]) by {
                if j < i {
                    assert(nodes@[j] == before[j]);
                    assert(nodes_view(before)[j] == sorted_node(start[j]));
                }
            }
        }
        i += 1;
    }
    proof {
        assert(nodes_view(nodes@) =~= sorted_below(start));
    }
    sort_level(nodes);
}

} // verus!
