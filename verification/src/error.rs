//! The errors of the library.
use vstd::prelude::*;
use crate::event_loops_bridge::RuntimeStopError;

verus! {

/// When a future cannot be woken.
///
/// For example the widget that holds the signal handler that was supposed to wake the future can
/// be deleted before the signal is triggered. In that scenario, the future will be resolved with
/// this error instead.
#[derive(Clone, Copy, Debug, PartialEq, Eq, Structural)]
pub struct WakerPerished;

/// The errors of WoAB. Values of the GTK type system (types of widgets, of signal parameters, of
/// actions) are held by their names.
#[derive(Debug)]
pub enum WoabError {
    /// Reading input failed (the message of the I/O error).
    IoError(String),
    /// Bytes that should have been UTF-8 were not.
    FromUtf8Error,
    /// The XML reader failed.
    XmlError(quick_xml::Error),
    /// An attribute of an XML tag is malformed.
    XmlAttributeError(quick_xml::events::attributes::AttrError),
    /// A GTK call reported failure (its message).
    GtkBoolError(String),
    /// GTK exited with a non-zero code.
    GtkBadExitCode(i32),
    /// A widget is missing in a builder.
    WidgetMissingInBuilder(String),
    /// A widget in a builder has the wrong type.
    IncorrectWidgetTypeInBuilder { widget_id: String, expected_type: String, actual_type: String },
    /// A signal handler does not recognize the name of the signal routed to it.
    NoSuchSignalError(String),
    /// A signal parameter has the wrong type.
    IncorrectSignalParameterType {
        signal: String,
        index: usize,
        expected_type: String,
        actual_type: String,
    },
    /// A signal has fewer parameters than the handler expects.
    SignalParameterIndexOutOfBound { signal: String, index: usize, num_parameters: usize },
    /// An event signal's parameter is of the wrong event type.
    IncorrectEventParameter { signal: String, expected_type: String, actual_type: String },
    /// An action signal's parameter is of the wrong type.
    IncorrectActionParameter { signal: String, expected_type: String, actual_type: String },
    /// A signal has more parameters than the handler extracted.
    NotAllParametersExtracted { signal: String, num_parameters: usize, num_extracted: usize },
    /// A future could not be woken.
    WakerPerished(WakerPerished),
    /// The Actix runtime could not be stopped.
    RuntimeStopError(RuntimeStopError),
}

} // verus!
