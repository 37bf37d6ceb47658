use ltl_forge::xml::{nets_of_document, XmlDocument, XmlNodeData};
use ltl_forge::xml::parse_u32;
use ltl_forge::builder::PetriNetBuilder;

const PNML: &str = r#"<?xml version="1.0"?>
<pnml xmlns="http://www.pnml.org/version-2009/grammar/pnml">
  <net id="net1" type="http://www.pnml.org/version-2009/grammar/ptnet">
    <name><text>Small</text></name>
    <page id="page1">
      <place id="p1"><initialMarking><text>3</text></initialMarking></place>
      <place id="p2"/>
      <transition id="t1"/>
      <arc id="a1" source="p1" target="t1"/>
      <arc id="a2" source="t1" target="p2"/>
      <arc id="a3" source="p1" target="p2"/>
    </page>
  </net>
</pnml>"#;

#[test]
fn test_build_from_xml() {
    let nets = PetriNetBuilder::build_from_xml(PNML);
    assert_eq!(nets.len(), 1);
    let net = &nets[0];
    assert_eq!(net.id, "net1");
    assert_eq!(net.name, "Small");
    assert_eq!(net.places.len(), 2);
    assert_eq!(net.initial_tokens, vec![3, 0]);
    assert_eq!(net.transitions.len(), 1);
    assert_eq!(net.transitions[0].incoming, vec![0]);
    assert_eq!(net.transitions[0].outgoing, vec![1]);
}

#[test]
fn test_try_build_from_bad_xml() {
    assert!(PetriNetBuilder::try_build_from_xml("<pnml><net").is_none());
    assert!(PetriNetBuilder::try_build_from_xml(PNML).is_some());
}

/// Tokens are kept as they are, and arcs between two places are left out.
#[test]
fn test_builder_chain() {
    let net = PetriNetBuilder::new("n".to_string(), "N".to_string())
        .add_place("p".to_string(), 300)
        .add_place("q".to_string(), 1)
        .add_transition("t".to_string())
        .add_arc("p".to_string(), "t".to_string())
        .add_arc("t".to_string(), "q".to_string())
        .add_arc("p".to_string(), "q".to_string())
        .build();
    assert_eq!(net.initial_tokens, vec![300, 1]);
    assert_eq!(net.transitions[0].incoming, vec![0]);
    assert_eq!(net.transitions[0].outgoing, vec![1]);
}

#[test]
fn test_parse_u32() {
    assert_eq!(parse_u32("42"), Some(42));
    assert_eq!(parse_u32("+7"), Some(7));
    assert_eq!(parse_u32(""), None);
    assert_eq!(parse_u32("-1"), None);
    assert_eq!(parse_u32("4294967296"), None);
    assert_eq!(parse_u32("4294967295"), Some(u32::MAX));
}

/// A document read by hand: one `net` element with a page holding one place gives one net.
#[test]
fn test_nets_of_document() {
    let node = |is_element: bool, name: &str, id: &str, children: Vec<usize>| XmlNodeData {
        is_element,
        name: name.to_string(),
        attributes: if id.is_empty() { vec![] } else { vec![("id".to_string(), id.to_string())] },
        text: None,
        children,
    };
    let doc = XmlDocument {
        nodes: vec![
            node(false, "", "", vec![1]),
            node(true, "net", "n1", vec![2]),
            node(true, "page", "g1", vec![3]),
            node(true, "place", "p1", vec![]),
        ],
    };
    let nets = nets_of_document(&doc).unwrap();
    assert_eq!(nets.len(), 1);
    assert_eq!(nets[0].id, "n1");
    assert_eq!(nets[0].places.len(), 1);
    assert_eq!(nets[0].places[0].id, "p1");
    assert_eq!(nets[0].initial_tokens, vec![0]);
}
