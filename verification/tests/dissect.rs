use woab::xml::{XmlEvent, XmlEventKind};
use woab::builder_dissect::dissect_xml_events;
use woab::xml::XmlEventKind::{Empty, End, Start, Text};
use woab::builder_dissect::{dissect_builder_xml, factory_index_of, try_dissect_builder_xml};
use woab::error::WoabError;

fn ids(lists: &[&[&str]]) -> Vec<Vec<String>> {
    lists.iter().map(|l| l.iter().map(|s| s.to_string()).collect()).collect()
}

fn text(b: &[u8]) -> &str {
    std::str::from_utf8(b).unwrap()
}

#[test]
fn objects_go_to_their_factory_and_the_rest_to_all() {
    let xml = br#"<interface><object id="a"><child/></object><object id="b"><x/></object></interface>"#;
    let mut targets = vec![Vec::new(), Vec::new()];
    dissect_builder_xml(xml, &mut targets, &ids(&[&["a"], &["b"]])).unwrap();
    assert_eq!(text(&targets[0]), r#"<interface><object id="a"><child/></object></interface>"#);
    assert_eq!(text(&targets[1]), r#"<interface><object id="b"><x/></object></interface>"#);
}

#[test]
fn extra_ids_and_unlisted_objects() {
    let xml = br#"<interface><object id="win"/><object id="menu"><item/></object><object id="other"><y/></object></interface>"#;
    let mut targets = vec![Vec::new(), Vec::new()];
    dissect_builder_xml(xml, &mut targets, &ids(&[&["main", "menu"], &["win"]])).unwrap();
    // An empty `<object/>` tag has nothing nested in it and is not claimed by a factory.
    assert_eq!(
        text(&targets[0]),
        r#"<interface><object id="win"/><object id="menu"><item/></object><object id="other"><y/></object></interface>"#
    );
    assert_eq!(
        text(&targets[1]),
        r#"<interface><object id="win"/><object id="other"><y/></object></interface>"#
    );
}

#[test]
fn nested_objects_of_another_factory_are_split_out() {
    let xml = br#"<interface><object id="outer"><child><object id="inner"><z/></object></child></object></interface>"#;
    let mut targets = vec![Vec::new(), Vec::new()];
    dissect_builder_xml(xml, &mut targets, &ids(&[&["outer"], &["inner"]])).unwrap();
    assert_eq!(text(&targets[0]), r#"<interface><object id="outer"><child></child></object></interface>"#);
    assert_eq!(text(&targets[1]), r#"<interface><object id="inner"><z/></object></interface>"#);
}

#[test]
fn without_factory_objects_every_output_gets_the_whole_document() {
    let xml = b"<interface><object id=\"a\"><p>hi</p></object><!--c--></interface>";
    let mut targets = vec![Vec::new(), Vec::new(), Vec::new()];
    dissect_builder_xml(xml, &mut targets, &ids(&[&[], &[]])).unwrap();
    for t in targets.iter() {
        assert_eq!(text(t), "<interface><object id=\"a\"><p>hi</p></object><!--c--></interface>");
    }
}

#[test]
fn reentering_an_object_of_the_same_factory_is_refused() {
    let xml = br#"<interface><object id="a"><child><object id="a2"></object></child></object></interface>"#;
    let mut targets = vec![b"keep".to_vec()];
    assert!(try_dissect_builder_xml(xml, &mut targets, &ids(&[&["a", "a2"]])).is_none());
    assert_eq!(targets, vec![b"keep".to_vec()]);
}

#[test]
fn outputs_overwrite_the_start_of_their_targets() {
    let xml = b"<a/>";
    let mut targets = vec![b"0123456789".to_vec(), b"xy".to_vec()];
    assert!(matches!(try_dissect_builder_xml(xml, &mut targets, &ids(&[])), Some(Ok(()))));
    assert_eq!(text(&targets[0]), "<a/>456789");
    assert_eq!(text(&targets[1]), "<a/>");
}

#[test]
fn a_read_error_keeps_what_was_dissected_before_it() {
    let xml = br#"<interface><object id="a"><q/></interface>"#;
    let mut targets = vec![Vec::new(), Vec::new()];
    let r = dissect_builder_xml(xml, &mut targets, &ids(&[&["a"], &[]]));
    assert!(matches!(r, Err(WoabError::XmlError(_))));
    assert_eq!(text(&targets[0]), r#"<interface><object id="a"><q/>"#);
    assert_eq!(text(&targets[1]), "<interface>");
}

#[test]
fn the_first_factory_listing_an_id_wins() {
    let table = ids(&[&["x"], &["y", "x"], &["z"]]);
    assert_eq!(factory_index_of(&table, "x"), Some(0));
    assert_eq!(factory_index_of(&table, "y"), Some(1));
    assert_eq!(factory_index_of(&table, "z"), Some(2));
    assert_eq!(factory_index_of(&table, "w"), None);
}

fn event(kind: XmlEventKind, content: &str, name_len: usize) -> XmlEvent {
    XmlEvent { kind, content: content.to_owned(), name_len }
}

#[test]
fn dissecting_events_that_were_read() {
    let events = vec![
        event(Start, "interface", 9),
        event(Start, "object id=\"a\"", 6),
        event(Text, "hi", 0),
        event(End, "object", 0),
        event(Empty, "object id=\"b\"", 6),
        event(End, "interface", 0),
    ];
    let outs = dissect_xml_events(&events, 2, &ids(&[&["a"], &["b"]])).unwrap();
    assert_eq!(text(&outs[0]), r#"<interface><object id="a">hi</object><object id="b"/></interface>"#);
    assert_eq!(text(&outs[1]), r#"<interface><object id="b"/></interface>"#);

    let reentering = vec![
        event(Start, "object id=\"a\"", 6),
        event(Start, "object id=\"a\"", 6),
        event(End, "object", 0),
        event(End, "object", 0),
    ];
    assert!(dissect_xml_events(&reentering, 1, &ids(&[&["a"]])).is_none());
}

#[test]
fn attributes_after_a_multibyte_tag_name_are_read() {
    let xml = "<interface><objé id=\"x\"/><object id=\"a\"><é/></object></interface>".as_bytes();
    let mut targets = vec![Vec::new(), Vec::new()];
    dissect_builder_xml(xml, &mut targets, &ids(&[&["a"], &[]])).unwrap();
    assert_eq!(text(&targets[0]), "<interface><objé id=\"x\"/><object id=\"a\"><é/></object></interface>");
    assert_eq!(text(&targets[1]), "<interface><objé id=\"x\"/></interface>");
}
