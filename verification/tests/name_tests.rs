use xmldoc::error::Error;
use xmldoc::xmldata::{XmlData, XmlNode};
use xmldoc::xmlname::{Lookup, MapLookup, NameIdInfo, NodeLookup, XmlNameRef};

fn new_doc(data: &mut XmlData, root_name: &str) -> XmlNode {
    let name = data.add_name(root_name);
    let el = data.new_element(name);
    data.new_document(el).expect("building a document must succeed");
    el
}

#[test]
fn same_local_and_namespace_intern_to_the_same_id() {
    let mut data = XmlData::new();
    let ns1 = data.add_namespace("urn:one");
    let ns2 = data.add_namespace("urn:two");
    let a = data.add_name_ns("item", ns1);
    let b = data.add_name_ns("item", ns1);
    let c = data.add_name_ns("item", ns2);
    assert_eq!(a, b);
    assert_ne!(a, c);
    assert_eq!(data.name_ns("item", ns1), Some(a));
    assert_eq!(data.name_ns("missing", ns1), None);
    assert_eq!(data.local_name_str(a), "item");
    assert_eq!(data.namespace_str(data.namespace_for_name(c)), "urn:two");
}

#[test]
fn names_compare_equal_whatever_prefix_was_in_use() {
    let mut data = XmlData::new();
    let el = new_doc(&mut data, "doc");
    let ns = data.add_namespace("urn:one");
    let p1 = data.add_prefix("p");
    let p2 = data.add_prefix("q");
    data.element_set_prefix(el, p1, ns);
    data.element_set_prefix(el, p2, ns);
    let id1 = data.add_name_ns("item", ns);
    let id2 = data.add_name_ns("item", ns);
    let r1 = XmlNameRef::new(&data, NodeLookup::new(&data, el), id1);
    let r2 = XmlNameRef::new(&data, NodeLookup::new(&data, el), id2);
    assert!(r1 == r2);
}

#[test]
fn resolution_prefers_the_nearest_declaration() {
    let mut data = XmlData::new();
    let outer = new_doc(&mut data, "outer");
    let inner_name = data.add_name("inner");
    let sib_name = data.add_name("sib");
    data.append_element(outer, inner_name).unwrap();
    data.append_element(outer, sib_name).unwrap();
    let inner = data.children(outer)[0];
    let sibling = data.children(outer)[1];

    let p = data.add_prefix("p");
    let n1 = data.add_namespace("urn:one");
    let n2 = data.add_namespace("urn:two");
    data.element_set_prefix(outer, p, n1);
    data.element_set_prefix(inner, p, n2);

    assert_eq!(data.namespace_for_prefix(inner, p), Some(n2));
    assert_eq!(data.namespace_for_prefix(sibling, p), Some(n1));
    assert_eq!(data.namespace_for_prefix(outer, p), Some(n1));
    assert_eq!(data.prefix_for_namespace(inner, n2), Some(p));
    assert_eq!(data.prefix_for_namespace(sibling, n1), Some(p));
    assert_eq!(data.prefix_for_namespace(sibling, n2), None);
}

#[test]
fn contextual_name_renders_local_namespace_prefix_and_fullname() {
    let mut data = XmlData::new();
    let el = new_doc(&mut data, "doc");
    let ns = data.add_namespace("urn:one");
    let p = data.add_prefix("p");
    data.element_set_prefix(el, p, ns);
    let id = data.add_name_ns("item", ns);
    let r = XmlNameRef::new(&data, NodeLookup::new(&data, el), id);
    assert_eq!(r.local_name(), "item");
    assert_eq!(r.namespace(), "urn:one");
    assert_eq!(r.prefix().unwrap(), "p");
    assert_eq!(r.fullname().unwrap(), "p:item");
    assert_eq!(r.name_id(), id);
    assert_eq!(r.namespace_id(), ns);
    assert_eq!(r.prefix_id().unwrap(), p);
    let state = r.to_state().unwrap();
    assert_eq!(state.name_id(), id);
    assert_eq!(state.namespace_id(), ns);
    assert_eq!(state.prefix_id(), p);
}

#[test]
fn missing_prefix_is_reported() {
    let mut data = XmlData::new();
    let el = new_doc(&mut data, "doc");
    let ns = data.add_namespace("urn:unbound");
    let id = data.add_name_ns("item", ns);
    let r = XmlNameRef::new(&data, NodeLookup::new(&data, el), id);
    assert!(matches!(r.prefix(), Err(Error::MissingPrefix(_))));
    assert!(matches!(r.fullname(), Err(Error::MissingPrefix(_))));
    assert!(matches!(r.to_state(), Err(Error::MissingPrefix(_))));
}

#[test]
fn no_namespace_names_use_the_empty_prefix_without_lookup() {
    let mut data = XmlData::new();
    let el = new_doc(&mut data, "doc");
    let id = data.add_name("plain");
    let r = XmlNameRef::new(&data, NodeLookup::new(&data, el), id);
    assert_eq!(r.prefix().unwrap(), "");
    assert_eq!(r.fullname().unwrap(), "plain");
    assert_eq!(r.namespace(), "");
}

#[test]
fn from_name_ns_interns_both_strings() {
    let mut data = XmlData::new();
    let lookup = MapLookup::new();
    let r = XmlNameRef::from_name_ns(&mut data, lookup, "item", "urn:one");
    assert_eq!(r.local_name(), "item");
    assert_eq!(r.namespace(), "urn:one");
}

#[test]
fn from_prefix_name_requires_a_binding_in_context() {
    let mut data = XmlData::new();
    let p = data.add_prefix("p");
    let ns = data.add_namespace("urn:one");
    let mut bound = MapLookup::new();
    bound.insert(p, ns);
    let r = XmlNameRef::from_prefix_name(&mut data, bound, "p", "item").unwrap();
    assert_eq!(r.local_name(), "item");
    assert_eq!(r.namespace(), "urn:one");

    let mut data2 = XmlData::new();
    let empty = MapLookup::new();
    let r2 = XmlNameRef::from_prefix_name(&mut data2, empty, "p", "item");
    assert!(matches!(r2, Err(Error::UnknownPrefix(_))));
}

#[test]
fn from_fullname_splits_at_the_first_colon() {
    let mut data = XmlData::new();
    let p = data.add_prefix("p");
    let ns = data.add_namespace("urn:one");
    let mut bound = MapLookup::new();
    bound.insert(p, ns);
    let r = XmlNameRef::from_fullname(&mut data, bound, "p:item").unwrap();
    assert_eq!(r.local_name(), "item");
    assert_eq!(r.namespace(), "urn:one");

    let mut data2 = XmlData::new();
    let empty_prefix = data2.add_prefix("");
    let ns2 = data2.add_namespace("urn:default");
    let mut defaulted = MapLookup::new();
    defaulted.insert(empty_prefix, ns2);
    let r2 = XmlNameRef::from_fullname(&mut data2, defaulted, "bare").unwrap();
    assert_eq!(r2.local_name(), "bare");
    assert_eq!(r2.namespace(), "urn:default");
}

#[test]
fn map_lookup_answers_both_directions() {
    let mut data = XmlData::new();
    let p = data.add_prefix("p");
    let q = data.add_prefix("q");
    let n1 = data.add_namespace("urn:one");
    let n2 = data.add_namespace("urn:two");
    let mut ml = MapLookup::new();
    ml.insert(p, n1);
    ml.insert(q, n2);
    assert_eq!(ml.namespace_id_for_prefix_id(p), Some(n1));
    assert_eq!(ml.namespace_id_for_prefix_id(q), Some(n2));
    assert_eq!(ml.prefix_id_for_namespace_id(n1), Some(p));
    assert_eq!(ml.prefix_id_for_namespace_id(n2), Some(q));
    assert_eq!(ml.prefix_id_for_namespace_id(data.no_namespace()), None);
}

#[test]
fn from_name_ns_twice_yields_the_same_identity() {
    let mut data = XmlData::new();
    let id1 = {
        let r1 = XmlNameRef::from_name_ns(&mut data, MapLookup::new(), "item", "urn:one");
        r1.name_id()
    };
    let id2 = {
        let r2 = XmlNameRef::from_name_ns(&mut data, MapLookup::new(), "item", "urn:one");
        r2.name_id()
    };
    let other = {
        let r3 = XmlNameRef::from_name_ns(&mut data, MapLookup::new(), "item", "urn:two");
        r3.name_id()
    };
    assert_eq!(id1, id2);
    assert_ne!(id1, other);
}

#[test]
fn failed_prefix_name_construction_interns_no_name() {
    let mut data = XmlData::new();
    let r = XmlNameRef::from_prefix_name(&mut data, MapLookup::new(), "p", "item");
    assert!(matches!(r, Err(Error::UnknownPrefix(_))));
    let no_ns = data.no_namespace();
    assert_eq!(data.name_ns("item", no_ns), None);
}

#[test]
fn contextual_names_can_be_cloned() {
    let mut data = XmlData::new();
    let el = new_doc(&mut data, "doc");
    let id = data.add_name("plain");
    let r = XmlNameRef::new(&data, NodeLookup::new(&data, el), id);
    let copy = r.clone();
    assert!(copy == r);
    assert_eq!(copy.name_id(), id);
}
