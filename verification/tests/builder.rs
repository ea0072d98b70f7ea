use woab::builder::signal_handlers_in;
use woab::xml::XmlEvent;
use woab::xml::XmlEventKind::{Empty, Start};
use woab::builder::{resolve_builder_object, BuilderFactory};
use woab::error::WoabError;
use woab::factories::Factory;

const README_XML: &str = r#"
        <interface>
          <object class="GtkApplicationWindow" id="window">
            <child>
              <object class="GtkButton" id="button">
                <property name="label">Click Me!</property>
                <signal name="clicked" handler="button_clicked"/>
              </object>
            </child>
          </object>
        </interface>
        "#;

#[test]
fn a_factory_lists_the_signal_handlers_of_its_xml() {
    let factory = BuilderFactory::try_from_xml(README_XML.to_owned()).unwrap();
    assert_eq!(factory.xml(), README_XML);
    assert_eq!(factory.signals(), &vec!["button_clicked".to_owned()]);
    let copy = factory.clone();
    assert_eq!(copy.xml(), README_XML);
    assert_eq!(copy.signals(), &vec!["button_clicked".to_owned()]);
}

#[test]
fn signal_handlers_come_in_document_order() {
    let xml = r#"<interface>
        <signal name="a" handler="first"/>
        <signal name="b"/>
        <signal name="c" handler="second"></signal>
        <other handler="not_a_signal"/>
        <signal name="d" handler="third"/>
    </interface>"#;
    let factory = BuilderFactory::try_from_xml(xml.to_owned()).unwrap();
    assert_eq!(factory.signals(), &vec!["first".to_owned(), "third".to_owned()]);
}

#[test]
fn unreadable_xml_is_refused() {
    assert!(matches!(
        BuilderFactory::try_from_xml("<interface><object></interface>".to_owned()),
        Err(WoabError::XmlError(_))
    ));
    assert!(matches!(
        BuilderFactory::try_from_xml("<interface><signal handler=unquoted/></interface>".to_owned()),
        Err(WoabError::XmlAttributeError(_))
    ));
}

#[test]
fn looking_up_builder_objects() {
    assert_eq!(resolve_builder_object("button", Some(3), None, "GtkButton".to_owned()).unwrap(), 3);
    match resolve_builder_object::<u8>("button", None, Some("GtkLabel".to_owned()), "GtkButton".to_owned()) {
        Err(WoabError::IncorrectWidgetTypeInBuilder { widget_id, expected_type, actual_type }) => {
            assert_eq!(widget_id, "button");
            assert_eq!(expected_type, "GtkButton");
            assert_eq!(actual_type, "GtkLabel");
        }
        _ => panic!("expected a type error"),
    }
    match resolve_builder_object::<u8>("button", None, None, "GtkButton".to_owned()) {
        Err(WoabError::WidgetMissingInBuilder(id)) => assert_eq!(id, "button"),
        _ => panic!("expected a missing widget"),
    }
}

#[test]
fn typed_factories_keep_their_xml() {
    let factory: Factory<(), (), ()> = Factory::from_xml("<interface/>".to_owned());
    assert_eq!(factory.xml(), "<interface/>");
}

#[test]
fn signal_handlers_of_events_that_were_read() {
    let ev = |kind, content: &str, name_len| XmlEvent { kind, content: content.to_owned(), name_len };
    let events = vec![
        ev(Start, "interface", 9),
        ev(Empty, "signal name=\"clicked\" handler=\"on_click\"", 6),
        ev(Empty, "signal name=\"x\"", 6),
        ev(Empty, "signals handler=\"no\"", 7),
        ev(Empty, "signal handler='second'", 6),
    ];
    assert_eq!(signal_handlers_in(&events).unwrap(), vec!["on_click".to_owned(), "second".to_owned()]);
    assert!(signal_handlers_in(&vec![ev(Empty, "signal handler=bad", 6)]).is_err());
}
