//! The synthesis of the navigation tree from the flat list of documents.

use crate::json::{declared_title, json_parse, leaf_title, metadata_title, title_or_segment};
use crate::sorting::{lemma_sorted_tree_well_formed, ordered_throughout, sort_tree, sorted_tree};
use crate::text::{segments, split_path, texts};
use crate::tree::{
    lemma_place_well_formed, nodes_view, place, place_document, well_formed, NodeView, TreeNode,
};
use vstd::prelude::*;

verus! {

/// A document of the knowledge base, as the document directory hands it
/// out: its virtual path, its body, and its metadata as stored.
#[derive(Clone, Debug, PartialEq, Eq)]
pub struct Document {
    pub virtual_path: String,
    pub content: String,
    pub metadata: String,
}

/// The mathematical value of a `Document`.
pub struct DocumentView {
    pub virtual_path: Seq<char>,
    pub content: Seq<char>,
    pub metadata: Seq<char>,
}

impl View for Document {
    type V = DocumentView;

    open spec fn view(&self) -> DocumentView {
        DocumentView {
            virtual_path: self.virtual_path@,
            content: self.content@,
            metadata: self.metadata@,
        }
    }
}

/// The values of a sequence of documents.
pub open spec fn documents_view(documents: Seq<Document>) -> Seq<DocumentView> {
    Seq::new(documents.len(), |i: int| documents[i]@)
}

/// What a document contributes to the tree: the segments of its path, the
/// title of its leaf, and the link of its leaf.
pub struct Entry {
    pub segments: Seq<Seq<char>>,
    pub title: Seq<char>,
    pub link: Seq<char>,
}

/// The title of the leaf of a document: the title that its metadata
/// declares, else the last segment of its path.
pub open spec fn document_title(document: DocumentView) -> Seq<char>
    recommends
        segments(document.virtual_path).len() > 0,
{
    title_or_segment(segments(document.virtual_path).last(), metadata_title(document.metadata))
}

/// The entry of a document. Its link is the whole virtual path.
pub open spec fn entry_of(document: DocumentView) -> Entry {
    Entry {
        segments: segments(document.virtual_path),
        title: document_title(document),
        link: document.virtual_path,
    }
}

/// The entries of a list of documents, in the order of the list.
pub open spec fn entries_of(documents: Seq<DocumentView>) -> Seq<Entry> {
    Seq::new(documents.len(), |i: int| entry_of(documents[i]))
}

/// The level with one more entry placed in it. An entry without segments
/// leaves the level as it is.
pub open spec fn with_entry(level: Seq<NodeView>, entry: Entry) -> Seq<NodeView> {
    place(level, entry.segments, entry.title, entry.link)
}

/// The tree that holds the entries, placed one after the other in the
/// order of the list, before it is sorted.
pub open spec fn placed(entries: Seq<Entry>) -> Seq<NodeView>
    decreases entries.len(),
{
    if entries.len() == 0 {
        Seq::empty()
    } else {
        with_entry(placed(entries.drop_last()), entries.last())
    }
}

/// The navigation tree of a list of documents: every document placed, then
/// every sibling sequence sorted by title.
pub open spec fn synthesized(documents: Seq<DocumentView>) -> Seq<NodeView> {
    sorted_tree(placed(entries_of(documents)))
}

/// A document whose metadata declare no title, because they are not JSON
/// or for any other reason, gets the last segment of its path as the title
/// of its leaf.
pub proof fn lemma_title_falls_back_to_segment(document: DocumentView)
    requires
        json_parse(document.metadata) is Err || metadata_title(document.metadata) is None,
    ensures
        document_title(document) == segments(document.virtual_path).last(),
        entry_of(document).title == segments(document.virtual_path).last(),
{
}

/// The tree depends on the metadata of a document only through the title
/// that they declare. Metadata that cannot be read are as good as metadata
/// without a title: they change the leaf of no other document, and their
/// own document is placed as if it had declared none.
pub proof fn lemma_tree_reads_titles_only(a: Seq<DocumentView>, b: Seq<DocumentView>)
    requires
        a.len() == b.len(),
        forall|i: int|
            0 <= i < a.len() ==> (#[trigger] a[i]).virtual_path == b[i].virtual_path
                && metadata_title(a[i].metadata) == metadata_title(b[i].metadata),
    ensures
        synthesized(a) == synthesized(b),
{
    assert(entries_of(a) =~= entries_of(b));
}

/// The tree of any list of entries is well formed.
pub proof fn lemma_placed_well_formed(entries: Seq<Entry>)
    ensures
        well_formed(placed(entries)),
    decreases entries.len(),
{
    if entries.len() > 0 {
        let last = entries.last();
        lemma_placed_well_formed(entries.drop_last());
        lemma_place_well_formed(
            placed(entries.drop_last()),
            last.segments,
            last.title,
            last.link,
        );
    }
}

/// Builds the navigation tree of the documents.
pub fn synthesize(documents: &[Document]) -> (tree: Vec<TreeNode>)
    ensures
        nodes_view(tree@) == synthesized(documents_view(documents@)),
        ordered_throughout(nodes_view(tree@)),
        well_formed(nodes_view(tree@)),
{
    let ghost all = documents_view(documents@);
    let mut root: Vec<TreeNode> = Vec::new();
    let n: usize = documents.len();
    let mut i: usize = 0;
    proof {
        assert(entries_of(all.take(0)) =~= Seq::<Entry>::empty());
        assert(nodes_view(root@) =~= Seq::<NodeView>::empty());
    }
    while i < n
        invariant
            n == documents.len(),
            i <= n,
            all == documents_view(documents@),
            nodes_view(root@) == placed(entries_of(all.take(i as int))),
        decreases n - i,
    {
        let document: &Document = &documents[i];
        let parts: Vec<String> = split_path(document.virtual_path.as_str());
        proof {
            assert(entries_of(all.take(i + 1)).drop_last() =~= entries_of(all.take(i as int)));
            assert(entries_of(all.take(i + 1)).last() == entry_of(document@));
            assert(texts(parts@).skip(0) =~= texts(parts@));
        }
        if parts.len() > 0 {
            let declared: Option<String> = declared_title(document.metadata.as_str());
            let title: String = leaf_title(parts[parts.len() - 1].as_str(), declared);
            place_document(&mut root, &parts, 0, title, document.virtual_path.clone());
        }
        i += 1;
    }
    proof {
        assert(all.take(n as int) =~= all);
        lemma_placed_well_formed(entries_of(all));
        lemma_sorted_tree_well_formed(placed(entries_of(all)));
    }
    sort_tree(&mut root);
    root
}

} // verus!
