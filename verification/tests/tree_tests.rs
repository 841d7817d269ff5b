use xmldoc::error::Error;
use xmldoc::xmldata::{XmlData, XmlNode, XmlNodeEdge};
use xmldoc::xmlvalue::{Text, ValueType, XmlValue};

fn new_doc(data: &mut XmlData, root_name: &str) -> (xmldoc::document::Document, XmlNode) {
    let name = data.add_name(root_name);
    let el = data.new_element(name);
    let doc = data.new_document(el).expect("building a document must succeed");
    (doc, el)
}

fn assert_no_adjacent_text(data: &XmlData, node: XmlNode) {
    let kids = data.children(node);
    for pair in kids.windows(2) {
        assert!(
            !(data.is_text(pair[0]) && data.is_text(pair[1])),
            "two adjacent text siblings"
        );
    }
    for k in kids {
        assert_no_adjacent_text(data, k);
    }
}

#[test]
fn append_text_merges_into_last_child() {
    let mut data = XmlData::new();
    let (_doc, el) = new_doc(&mut data, "doc");
    data.append_text(el, "a").unwrap();
    data.append_text(el, "b").unwrap();
    let kids = data.children(el);
    assert_eq!(kids.len(), 1);
    assert_eq!(data.text_str(kids[0]), Some("ab"));
    assert_no_adjacent_text(&data, el);
}

#[test]
fn insert_text_after_sole_text_child_consolidates() {
    let mut data = XmlData::new();
    let (_doc, el) = new_doc(&mut data, "doc");
    data.append_text(el, "a").unwrap();
    let t = data.children(el)[0];
    let nb = data.new_text("b");
    data.insert_after(t, nb).unwrap();
    let kids = data.children(el);
    assert_eq!(kids.len(), 1);
    assert_eq!(data.text_str(kids[0]), Some("ab"));
}

#[test]
fn insert_text_before_text_consolidates() {
    let mut data = XmlData::new();
    let (_doc, el) = new_doc(&mut data, "doc");
    data.append_text(el, "b").unwrap();
    let t = data.children(el)[0];
    let na = data.new_text("a");
    data.insert_before(t, na).unwrap();
    let kids = data.children(el);
    assert_eq!(kids.len(), 1);
    assert_eq!(data.text_str(kids[0]), Some("ab"));
}

#[test]
fn prepend_text_merges_into_first_child() {
    let mut data = XmlData::new();
    let (_doc, el) = new_doc(&mut data, "doc");
    data.append_text(el, "b").unwrap();
    let na = data.new_text("a");
    data.prepend(el, na).unwrap();
    let kids = data.children(el);
    assert_eq!(kids.len(), 1);
    assert_eq!(data.text_str(kids[0]), Some("ab"));
}

#[test]
fn removing_element_between_texts_consolidates() {
    let mut data = XmlData::new();
    let (_doc, el) = new_doc(&mut data, "doc");
    let mid_name = data.add_name("mid");
    data.append_text(el, "a").unwrap();
    data.append_element(el, mid_name).unwrap();
    data.append_text(el, "b").unwrap();
    assert_eq!(data.children(el).len(), 3);
    let mid = data.children(el)[1];
    data.remove(mid).unwrap();
    let kids = data.children(el);
    assert_eq!(kids.len(), 1);
    assert_eq!(data.text_str(kids[0]), Some("ab"));
    assert!(data.is_removed(mid));
}

#[test]
fn detaching_element_between_texts_consolidates_and_keeps_it_live() {
    let mut data = XmlData::new();
    let (_doc, el) = new_doc(&mut data, "doc");
    let mid_name = data.add_name("mid");
    data.append_text(el, "a").unwrap();
    data.append_element(el, mid_name).unwrap();
    data.append_text(el, "b").unwrap();
    let mid = data.children(el)[1];
    data.detach(mid).unwrap();
    let kids = data.children(el);
    assert_eq!(kids.len(), 1);
    assert_eq!(data.text_str(kids[0]), Some("ab"));
    assert!(!data.is_removed(mid));
    assert!(data.parent(mid).is_none());
}

#[test]
fn second_element_under_root_is_refused_and_tree_unchanged() {
    let mut data = XmlData::new();
    let (doc, _el) = new_doc(&mut data, "doc");
    let root = doc.root();
    let before: Vec<XmlNode> = data.children(root);
    let other_name = data.add_name("other");
    let extra = data.new_element(other_name);
    let r = data.append(root, extra);
    assert!(matches!(r, Err(Error::InvalidOperation(_))));
    let after: Vec<XmlNode> = data.children(root);
    assert_eq!(before, after);
}

#[test]
fn text_under_root_is_refused() {
    let mut data = XmlData::new();
    let (doc, _el) = new_doc(&mut data, "doc");
    let root = doc.root();
    let r = data.append_text(root, "stray");
    assert!(matches!(r, Err(Error::InvalidOperation(_))));
    assert_eq!(data.children(root).len(), 1);
}

#[test]
fn comments_and_processing_instructions_may_sit_under_root() {
    let mut data = XmlData::new();
    let (doc, _el) = new_doc(&mut data, "doc");
    let root = doc.root();
    data.append_comment(root, "note").unwrap();
    data.append_processing_instruction(root, "target", Some("data"))
        .unwrap();
    let kids = data.children(root);
    assert_eq!(kids.len(), 3);
    assert_eq!(data.value_type(kids[1]), ValueType::Comment);
    assert_eq!(data.value_type(kids[2]), ValueType::ProcessingInstruction);
    assert_eq!(data.comment_str(kids[1]), Some("note"));
}

#[test]
fn moving_the_document_root_is_refused() {
    let mut data = XmlData::new();
    let (doc, el) = new_doc(&mut data, "doc");
    let root = doc.root();
    let r = data.append(el, root);
    assert!(matches!(r, Err(Error::InvalidOperation(_))));
    let r2 = data.detach(root);
    assert!(matches!(r2, Err(Error::InvalidOperation(_))));
    let r3 = data.remove(root);
    assert!(matches!(r3, Err(Error::InvalidOperation(_))));
}

#[test]
fn detaching_the_root_element_is_refused() {
    let mut data = XmlData::new();
    let (_doc, el) = new_doc(&mut data, "doc");
    let r = data.detach(el);
    assert!(matches!(r, Err(Error::InvalidOperation(_))));
    let r2 = data.remove(el);
    assert!(matches!(r2, Err(Error::InvalidOperation(_))));
}

#[test]
fn detaching_other_elements_keeps_their_subtree_live() {
    let mut data = XmlData::new();
    let (_doc, el) = new_doc(&mut data, "doc");
    let inner_name = data.add_name("inner");
    data.append_element(el, inner_name).unwrap();
    let inner = data.children(el)[0];
    data.append_text(inner, "payload").unwrap();
    let payload = data.children(inner)[0];
    data.detach(inner).unwrap();
    assert!(!data.is_removed(inner));
    assert!(!data.is_removed(payload));
    assert!(data.parent(inner).is_none());
    assert_eq!(data.parent(payload), Some(inner));
    assert_eq!(data.text_str(payload), Some("payload"));
}

#[test]
fn remove_invalidates_the_whole_subtree() {
    let mut data = XmlData::new();
    let (_doc, el) = new_doc(&mut data, "doc");
    let inner_name = data.add_name("inner");
    data.append_element(el, inner_name).unwrap();
    let inner = data.children(el)[0];
    data.append_text(inner, "payload").unwrap();
    let payload = data.children(inner)[0];
    data.remove(inner).unwrap();
    assert!(data.is_removed(inner));
    assert!(data.is_removed(payload));
    assert_eq!(data.children(el).len(), 0);
}

#[test]
fn round_trip_detach_and_reattach() {
    let mut data = XmlData::new();
    let (_doc, el) = new_doc(&mut data, "doc");
    let inner_name = data.add_name("inner");
    data.append_comment(el, "c").unwrap();
    data.append_text(el, "x").unwrap();
    data.append_element(el, inner_name).unwrap();
    let inner = data.children(el)[2];
    data.append_text(inner, "z").unwrap();
    data.append_text(el, "y").unwrap();
    assert_eq!(data.children(el).len(), 4);

    data.detach(inner).unwrap();
    let kids = data.children(el);
    assert_eq!(kids.len(), 2);
    assert_eq!(data.value_type(kids[0]), ValueType::Comment);
    assert_eq!(data.text_str(kids[1]), Some("xy"));

    data.append(el, inner).unwrap();
    let kids = data.children(el);
    assert_eq!(kids.len(), 3);
    assert_eq!(kids[2], inner);
    let inner_kids = data.children(inner);
    assert_eq!(inner_kids.len(), 1);
    assert_eq!(data.text_str(inner_kids[0]), Some("z"));
    assert_no_adjacent_text(&data, el);
}

#[test]
fn sibling_navigation_matches_child_order() {
    let mut data = XmlData::new();
    let (_doc, el) = new_doc(&mut data, "doc");
    let a_name = data.add_name("a");
    let b_name = data.add_name("b");
    data.append_element(el, a_name).unwrap();
    data.append_element(el, b_name).unwrap();
    let kids = data.children(el);
    assert_eq!(data.next_sibling(kids[0]), Some(kids[1]));
    assert_eq!(data.previous_sibling(kids[1]), Some(kids[0]));
    assert_eq!(data.next_sibling(kids[1]), None);
    assert_eq!(data.previous_sibling(kids[0]), None);
    assert_eq!(data.first_child(el), Some(kids[0]));
    assert_eq!(data.last_child(el), Some(kids[1]));
    let rev = data.reverse_children(el);
    assert_eq!(rev, vec![kids[1], kids[0]]);
    assert_eq!(data.following_siblings(kids[0]), vec![kids[1]]);
    assert_eq!(data.preceding_siblings(kids[1]), vec![kids[0]]);
}

#[test]
fn root_element_is_found() {
    let mut data = XmlData::new();
    let (doc, el) = new_doc(&mut data, "doc");
    let root = doc.root();
    let lead = data.new_comment("lead");
    data.prepend(root, lead).unwrap();
    assert_eq!(data.root_element(&doc), el);
    assert!(data.is_root(root));
    assert!(data.is_under_root(el));
    assert!(data.has_element_child(root));
}

#[test]
fn inserting_a_node_inside_its_own_subtree_is_refused() {
    let mut data = XmlData::new();
    let (_doc, el) = new_doc(&mut data, "doc");
    let inner_name = data.add_name("inner");
    data.append_element(el, inner_name).unwrap();
    let inner = data.children(el)[0];
    let r = data.append(inner, el);
    assert!(matches!(r, Err(Error::InvalidOperation(_))));
    let r2 = data.append(el, el);
    assert!(matches!(r2, Err(Error::InvalidOperation(_))));
}

#[test]
fn sibling_of_root_is_refused() {
    let mut data = XmlData::new();
    let (doc, _el) = new_doc(&mut data, "doc");
    let root = doc.root();
    let c = data.new_comment("stray");
    let r = data.insert_after(root, c);
    assert!(matches!(r, Err(Error::InvalidOperation(_))));
}

#[test]
fn ancestors_walk_toward_the_root() {
    let mut data = XmlData::new();
    let (doc, el) = new_doc(&mut data, "doc");
    let inner_name = data.add_name("inner");
    data.append_element(el, inner_name).unwrap();
    let inner = data.children(el)[0];
    let anc = data.ancestors(inner);
    assert_eq!(anc, vec![inner, el, doc.root()]);
}

#[test]
fn descendants_list_the_subtree_in_preorder() {
    let mut data = XmlData::new();
    let (_doc, el) = new_doc(&mut data, "doc");
    let a_name = data.add_name("a");
    let b_name = data.add_name("b");
    data.append_element(el, a_name).unwrap();
    let a = data.children(el)[0];
    data.append_text(a, "t").unwrap();
    data.append_element(el, b_name).unwrap();
    let b = data.children(el)[1];
    let t = data.children(a)[0];
    assert_eq!(data.descendants(el), vec![el, a, t, b]);
}

#[test]
fn traverse_emits_start_and_end_edges() {
    let mut data = XmlData::new();
    let (_doc, el) = new_doc(&mut data, "doc");
    let a_name = data.add_name("a");
    data.append_element(el, a_name).unwrap();
    let a = data.children(el)[0];
    let edges = data.traverse(el);
    assert_eq!(
        edges,
        vec![
            XmlNodeEdge::Start(el),
            XmlNodeEdge::Start(a),
            XmlNodeEdge::End(a),
            XmlNodeEdge::End(el),
        ]
    );
    let rev = data.reverse_traverse(el);
    let mut back = edges.clone();
    back.reverse();
    assert_eq!(rev, back);
}

#[test]
fn set_xml_value_replaces_content_of_same_kind() {
    let mut data = XmlData::new();
    let (_doc, el) = new_doc(&mut data, "doc");
    data.append_text(el, "old").unwrap();
    let t = data.children(el)[0];
    data.set_xml_value(t, XmlValue::Text(Text::new(String::from("new"))));
    assert_eq!(data.text_str(t), Some("new"));
}

#[test]
fn new_document_refuses_non_elements_and_attached_elements() {
    let mut data = XmlData::new();
    let c = data.new_comment("not an element");
    assert!(matches!(
        data.new_document(c),
        Err(Error::InvalidOperation(_))
    ));
    let (_doc, el) = new_doc(&mut data, "doc");
    assert!(matches!(
        data.new_document(el),
        Err(Error::InvalidOperation(_))
    ));
}
