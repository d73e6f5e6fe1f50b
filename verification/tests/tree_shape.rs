use notemancy_content::sorting::sort_tree;
use notemancy_content::synthesis::{synthesize, Document};
use notemancy_content::tree::{find_title, place_document, TreeNode};

fn doc(path: &str, metadata: &str) -> Document {
    Document {
        virtual_path: path.to_string(),
        content: String::new(),
        metadata: metadata.to_string(),
    }
}

fn leaf(title: &str, link: &str) -> TreeNode {
    TreeNode { title: title.to_string(), link: Some(link.to_string()), children: None }
}

fn folder(title: &str, children: Vec<TreeNode>) -> TreeNode {
    TreeNode { title: title.to_string(), link: None, children: Some(children) }
}

#[test]
fn folder_and_leaf_are_shaped_and_sorted() {
    let docs = vec![doc("x.md", ""), doc("a/c.md", ""), doc("a/b.md", "")];
    let tree = synthesize(&docs);
    let expected = vec![
        folder("a", vec![leaf("b.md", "a/b.md"), leaf("c.md", "a/c.md")]),
        leaf("x.md", "x.md"),
    ];
    assert_eq!(tree, expected);
}

#[test]
fn metadata_title_overrides_segment() {
    let docs = vec![doc("notes/foo.md", "{\"title\":\"Foo Bar\"}")];
    let tree = synthesize(&docs);
    let expected = vec![folder("notes", vec![leaf("Foo Bar", "notes/foo.md")])];
    assert_eq!(tree, expected);
}

#[test]
fn no_documents_give_an_empty_tree() {
    let docs: Vec<Document> = Vec::new();
    assert_eq!(synthesize(&docs), Vec::<TreeNode>::new());
}

#[test]
fn unreadable_metadata_fall_back_to_the_segment() {
    let docs = vec![
        doc("a/one.md", "{\"title\":\"One\"}"),
        doc("a/two.md", "{not json"),
        doc("b.md", "{\"title\":\"Bee\"}"),
    ];
    let tree = synthesize(&docs);
    let expected = vec![
        leaf("Bee", "b.md"),
        folder("a", vec![leaf("One", "a/one.md"), leaf("two.md", "a/two.md")]),
    ];
    assert_eq!(tree, expected);
}

#[test]
fn titles_that_are_no_strings_are_ignored() {
    let docs = vec![
        doc("n.md", "{\"title\":null}"),
        doc("m.md", "{\"title\":7}"),
        doc("l.md", "[\"title\"]"),
        doc("k.md", "{\"name\":\"K\"}"),
        doc("j.md", "\"title\""),
    ];
    let tree = synthesize(&docs);
    let expected = vec![
        leaf("j.md", "j.md"),
        leaf("k.md", "k.md"),
        leaf("l.md", "l.md"),
        leaf("m.md", "m.md"),
        leaf("n.md", "n.md"),
    ];
    assert_eq!(tree, expected);
}

#[test]
fn empty_segments_are_dropped_and_the_link_is_kept() {
    let docs = vec![doc("/a//b.md/", ""), doc("///", ""), doc("", "")];
    let tree = synthesize(&docs);
    let expected = vec![folder("a", vec![leaf("b.md", "/a//b.md/")])];
    assert_eq!(tree, expected);
}

#[test]
fn every_arrangement_gives_the_same_tree() {
    let a = doc("a/b.md", "{\"title\":\"Beta\"}");
    let b = doc("a/c/d.md", "");
    let c = doc("x.md", "{\"title\":\"Alpha\"}");
    let expected = vec![
        leaf("Alpha", "x.md"),
        folder("a", vec![leaf("Beta", "a/b.md"), folder("c", vec![leaf("d.md", "a/c/d.md")])]),
    ];
    let orders: Vec<Vec<Document>> = vec![
        vec![a.clone(), b.clone(), c.clone()],
        vec![a.clone(), c.clone(), b.clone()],
        vec![b.clone(), a.clone(), c.clone()],
        vec![b.clone(), c.clone(), a.clone()],
        vec![c.clone(), a.clone(), b.clone()],
        vec![c.clone(), b.clone(), a.clone()],
    ];
    for order in orders {
        assert_eq!(synthesize(&order), expected);
    }
}

#[test]
fn folders_are_sorted_each_on_its_own() {
    let docs = vec![
        doc("b/z.md", ""),
        doc("a/y.md", ""),
        doc("b/a.md", ""),
        doc("a/b.md", ""),
    ];
    let tree = synthesize(&docs);
    let expected = vec![
        folder("a", vec![leaf("b.md", "a/b.md"), leaf("y.md", "a/y.md")]),
        folder("b", vec![leaf("a.md", "b/a.md"), leaf("z.md", "b/z.md")]),
    ];
    assert_eq!(tree, expected);
}

#[test]
fn titles_are_ordered_by_code_point() {
    let docs = vec![
        doc("b.md", ""),
        doc("a.md", ""),
        doc("B.md", ""),
        doc("ab.md", ""),
        doc("\u{e9}.md", ""),
        doc("a", ""),
        doc("Z.md", ""),
    ];
    let tree = synthesize(&docs);
    let titles: Vec<String> = tree.iter().map(|node| node.title.clone()).collect();
    assert_eq!(titles, vec!["B.md", "Z.md", "a", "a.md", "ab.md", "b.md", "\u{e9}.md"]);
}

#[test]
fn a_later_document_replaces_the_leaf_under_its_segment() {
    let docs = vec![doc("a.md", ""), doc("a.md", "{\"title\":\"Second\"}")];
    let tree = synthesize(&docs);
    assert_eq!(tree, vec![leaf("Second", "a.md")]);
}

#[test]
fn a_leaf_gives_way_to_a_folder_that_a_later_document_needs() {
    let docs = vec![doc("a", ""), doc("a/b.md", "")];
    let tree = synthesize(&docs);
    assert_eq!(tree, vec![folder("a", vec![leaf("b.md", "a/b.md")])]);
}

#[test]
fn a_folder_gives_way_to_a_later_leaf_under_its_name() {
    let docs = vec![doc("a/b.md", ""), doc("a", "")];
    let tree = synthesize(&docs);
    assert_eq!(tree, vec![leaf("a", "a")]);
}

#[test]
fn equal_titles_keep_the_order_of_the_list() {
    let docs = vec![
        doc("two.md", "{\"title\":\"Same\"}"),
        doc("one.md", "{\"title\":\"Same\"}"),
        doc("zero.md", "{\"title\":\"A\"}"),
    ];
    let tree = synthesize(&docs);
    let expected = vec![leaf("A", "zero.md"), leaf("Same", "two.md"), leaf("Same", "one.md")];
    assert_eq!(tree, expected);
}

#[test]
fn sort_tree_sorts_every_level() {
    let mut tree = vec![
        folder("m", vec![leaf("z", "m/z"), folder("k", vec![leaf("2", "m/k/2"), leaf("1", "m/k/1")])]),
        leaf("c", "c"),
        folder("a", vec![]),
    ];
    sort_tree(&mut tree);
    let expected = vec![
        folder("a", vec![]),
        leaf("c", "c"),
        folder("m", vec![folder("k", vec![leaf("1", "m/k/1"), leaf("2", "m/k/2")]), leaf("z", "m/z")]),
    ];
    assert_eq!(tree, expected);
}

#[test]
fn sort_tree_leaves_a_sorted_tree_alone() {
    let mut tree = vec![leaf("a", "1"), leaf("a", "2"), leaf("b", "3")];
    sort_tree(&mut tree);
    assert_eq!(tree, vec![leaf("a", "1"), leaf("a", "2"), leaf("b", "3")]);
}

#[test]
fn find_title_gives_the_first_match_or_the_length() {
    let level = vec![leaf("a", "1"), leaf("b", "2"), leaf("b", "3")];
    assert_eq!(find_title(&level, &"a".to_string()), 0);
    assert_eq!(find_title(&level, &"b".to_string()), 1);
    assert_eq!(find_title(&level, &"c".to_string()), 3);
}

#[test]
fn place_document_reuses_the_folder_of_a_repeated_segment() {
    let mut level: Vec<TreeNode> = Vec::new();
    let first = vec!["a".to_string(), "b.md".to_string()];
    let second = vec!["a".to_string(), "c.md".to_string()];
    place_document(&mut level, &first, 0, "b.md".to_string(), "a/b.md".to_string());
    place_document(&mut level, &second, 0, "C".to_string(), "a/c.md".to_string());
    assert_eq!(level, vec![folder("a", vec![leaf("b.md", "a/b.md"), leaf("C", "a/c.md")])]);
}

#[test]
fn place_document_descends_from_the_given_depth() {
    let mut level: Vec<TreeNode> = Vec::new();
    let parts = vec!["skipped".to_string(), "kept".to_string(), "leaf.md".to_string()];
    place_document(&mut level, &parts, 1, "leaf.md".to_string(), "link".to_string());
    assert_eq!(level, vec![folder("kept", vec![leaf("leaf.md", "link")])]);
}
