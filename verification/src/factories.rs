//! Factories of builders that are bound to an actor, widgets and signal types, and the message
//! that removes an actor together with its widgets.
use vstd::prelude::*;
use core::marker::PhantomData;

verus! {

/// Holds the XML of a GTK builder whose widgets are handled by actor type `A`, extracted into
/// widgets type `W`, and whose signals are of type `S`.
pub struct Factory<A, W, S> {
    xml: String,
    _phantom: PhantomData<(A, W, S)>,
}

impl<A, W, S> Factory<A, W, S> {
    pub closed spec fn spec_xml(self) -> Seq<char> {
        self.xml@
    }

    /// A factory for the given builder XML.
    pub fn from_xml(xml: String) -> (r: Self)
        ensures
            r.spec_xml() == xml@,
    {
        Factory { xml, _phantom: PhantomData }
    }

    /// The builder XML.
    pub fn xml(&self) -> (r: &str)
        ensures
            r@ == self.spec_xml(),
    {
        self.xml.as_str()
    }
}

/// A message for removing actors along with their GUI.
#[derive(Clone, Copy, Debug, PartialEq, Eq, Structural)]
pub struct Remove;

} // verus!
