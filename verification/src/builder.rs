//! Builder factories: the XML of a GTK builder together with the names of the signal handlers it
//! declares.
use vstd::prelude::*;
use vstd::utf8::encode_utf8;
use crate::error::WoabError;
use quick_xml::events::attributes::AttrError;
use crate::xml::{
    XmlEvent, XmlEventKind, XmlItem, xml_char_boundary, xml_event_items, xml_event_name_is,
    xml_events_on_boundaries, xml_item_name_is, xml_parse_events, xml_read_events, xml_reader_from_str,
    xml_tag_attribute, xml_try_get_attribute,
};

verus! {

/// The handlers of the `<signal .../>` tags among `items`, in order. `None` when an attribute of
/// one of these tags cannot be read.
pub open spec fn signal_handlers(items: Seq<Option<XmlItem>>) -> Option<Seq<Seq<char>>>
    decreases items.len(),
{
    if items.len() == 0 {
        Some(Seq::empty())
    } else {
        match signal_handlers(items.drop_last()) {
            None => None,
            Some(acc) => match items.last() {
                Some(item) => if item.kind == XmlEventKind::Empty && xml_item_name_is(
                    item,
                    "signal"@,
                ) {
                    match xml_tag_attribute(item.content, item.name_len, "handler"@) {
                        None => None,
                        Some(None) => Some(acc),
                        Some(Some(handler)) => Some(acc.push(handler)),
                    }
                } else {
                    Some(acc)
                },
                None => Some(acc),
            },
        }
    }
}

/// Why the signal handlers of a builder XML cannot be listed.
pub enum SignalScanFailure {
    /// The XML cannot be read.
    Read,
    /// An attribute of a `<signal .../>` tag is malformed.
    Attribute,
}

/// The handler names of the `<signal .../>` tags of a builder XML, in document order.
pub open spec fn builder_signals(xml: Seq<char>) -> Result<Seq<Seq<char>>, SignalScanFailure> {
    let events = xml_parse_events(encode_utf8(xml));
    let last = events.len() - 1;
    match signal_handlers(events.take(last)) {
        None => Err(SignalScanFailure::Attribute),
        Some(handlers) => if events[last] is None {
            Err(SignalScanFailure::Read)
        } else {
            Ok(handlers)
        },
    }
}

/// Once the scan fails on a prefix, it fails on the whole sequence.
proof fn lemma_signal_handlers_none_prefix(items: Seq<Option<XmlItem>>, k: int)
    requires
        0 <= k <= items.len(),
        signal_handlers(items.take(k)) is None,
    ensures
        signal_handlers(items) is None,
    decreases items.len() - k,
{
    if k == items.len() {
        assert(items.take(k) =~= items);
    } else {
        assert(items.take(k + 1).drop_last() =~= items.take(k));
        lemma_signal_handlers_none_prefix(items, k + 1);
    }
}

/// The handlers of the `<signal .../>` tags among events that were read, in order; the first
/// error met reading an attribute of one of these tags.
pub fn signal_handlers_in(events: &Vec<XmlEvent>) -> (r: Result<Vec<String>, AttrError>)
    requires
        xml_events_on_boundaries(events@),
    ensures
        match signal_handlers(xml_event_items(events@)) {
            Some(handlers) => r matches Ok(v) && v.deep_view() == handlers,
            None => r is Err,
        },
{
    let ghost items = xml_event_items(events@);
    let mut result: Vec<String> = Vec::new();
    let mut i: usize = 0;
    while i < events.len()
        invariant
            items == xml_event_items(events@),
            xml_events_on_boundaries(events@),
            i <= events.len(),
            signal_handlers(items.take(i as int)) == Some(result.deep_view()),
        decreases events.len() - i,
    {
        proof {
            assert(items.take(i + 1).drop_last() =~= items.take(i as int));
            assert(items.take(i + 1).last() == items[i as int]);
        }
        let ev = &events[i];
        assert(items[i as int] == Some(ev@));
        if ev.kind == XmlEventKind::Empty && xml_event_name_is(ev, "signal") {
            assert(xml_char_boundary(events@[i as int].content@, events@[i as int].name_len as nat));
            match xml_try_get_attribute(ev.content.as_str(), ev.name_len, "handler") {
                Err(e) => {
                    proof {
                        lemma_signal_handlers_none_prefix(items, i + 1);
                    }
                    return Err(e);
                },
                Ok(Some(handler)) => {
                    result.push(handler);
                },
                Ok(None) => {},
            }
        }
        proof {
            assert(result.deep_view() =~= result.deep_view());
        }
        i = i + 1;
    }
    assert(items.take(i as int) =~= items);
    Ok(result)
}

/// Lists the handlers of the `<signal .../>` tags of a builder XML.
fn extract_signals(xml: &str) -> (r: Result<Vec<String>, WoabError>)
    ensures
        match builder_signals(xml@) {
            Ok(handlers) => r matches Ok(v) && v.deep_view() == handlers,
            Err(SignalScanFailure::Attribute) => r matches Err(WoabError::XmlAttributeError(_)),
            Err(SignalScanFailure::Read) => r matches Err(WoabError::XmlError(_)),
        },
{
    let (events, read) = xml_read_events(xml_reader_from_str(xml));
    match signal_handlers_in(&events) {
        Err(e) => Err(WoabError::XmlAttributeError(e)),
        Ok(handlers) => match read {
            Ok(()) => Ok(handlers),
            Err(e) => Err(WoabError::XmlError(e)),
        },
    }
}

/// Holds instructions for generating a GTK builder: its XML, and the names of the signal
/// handlers the XML declares (so that signals can be routed before the builder is created).
pub struct BuilderFactory {
    xml: String,
    signals: Vec<String>,
}

impl BuilderFactory {
    #[verifier::type_invariant]
    spec fn wf(self) -> bool {
        builder_signals(self.xml@) == Ok::<Seq<Seq<char>>, SignalScanFailure>(self.signals.deep_view())
    }

    pub closed spec fn spec_xml(self) -> Seq<char> {
        self.xml@
    }

    /// Creates a factory from a builder XML, listing its signal handlers. Fails when the XML
    /// cannot be read or an attribute of a `<signal>` tag is malformed.
    pub fn try_from_xml(xml: String) -> (r: Result<BuilderFactory, WoabError>)
        ensures
            match builder_signals(xml@) {
                Ok(_) => r matches Ok(f) && f.spec_xml() == xml@,
                Err(SignalScanFailure::Attribute) => r matches Err(WoabError::XmlAttributeError(_)),
                Err(SignalScanFailure::Read) => r matches Err(WoabError::XmlError(_)),
            },
    {
        match extract_signals(xml.as_str()) {
            Ok(signals) => Ok(BuilderFactory { xml, signals }),
            Err(e) => Err(e),
        }
    }

    /// The builder XML.
    pub fn xml(&self) -> (r: &str)
        ensures
            r@ == self.spec_xml(),
    {
        self.xml.as_str()
    }

    /// The names of the signal handlers the XML declares, in document order.
    pub fn signals(&self) -> (r: &Vec<String>)
        ensures
            builder_signals(self.spec_xml()) == Ok::<Seq<Seq<char>>, SignalScanFailure>(r.deep_view()),
    {
        proof {
            use_type_invariant(self);
        }
        &self.signals
    }
}

impl Clone for BuilderFactory {
    fn clone(&self) -> (r: Self)
        ensures
            r.spec_xml() == self.spec_xml(),
    {
        proof {
            use_type_invariant(self);
        }
        let signals = self.signals.clone();
        assert(signals.deep_view() =~= self.signals.deep_view());
        BuilderFactory { xml: self.xml.clone(), signals }
    }
}

/// The outcome of looking up an object by id in a builder: `typed` is the object if it exists
/// with the requested type, `actual_type` the name of the type of the object with that id if one
/// exists at all.
pub fn resolve_builder_object<W>(
    id: &str,
    typed: Option<W>,
    actual_type: Option<String>,
    expected_type: String,
) -> (r: Result<W, WoabError>)
    ensures
        typed matches Some(w) ==> r == Ok::<W, WoabError>(w),
        typed is None ==> match actual_type {
            Some(t) => r matches Err(WoabError::IncorrectWidgetTypeInBuilder { widget_id, expected_type: e, actual_type: a })
                && widget_id@ == id@ && e@ == expected_type@ && a@ == t@,
            None => r matches Err(WoabError::WidgetMissingInBuilder(widget_id)) && widget_id@ == id@,
        },
{
    match typed {
        Some(w) => Ok(w),
        None => match actual_type {
            Some(t) => Err(
                WoabError::IncorrectWidgetTypeInBuilder {
                    widget_id: id.to_owned(),
                    expected_type,
                    actual_type: t,
                },
            ),
            None => Err(WoabError::WidgetMissingInBuilder(id.to_owned())),
        },
    }
}

} // verus!
