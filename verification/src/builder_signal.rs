//! Configuring how signals of a builder are delivered: with or without a tag that identifies the
//! builder instance, and with an optional decision on the propagation of each signal.
use vstd::prelude::*;
use core::marker::PhantomData;

verus! {

/// Transforms a signal before it is delivered.
pub trait SignalTransformer<S> {
    type Output;

    fn transform(&self, signal: S) -> Self::Output;
}

/// No transformation: the signal is delivered as it is.
impl<S> SignalTransformer<S> for () {
    type Output = S;

    fn transform(&self, signal: S) -> (r: S)
        ensures
            r == signal,
    {
        signal
    }
}

/// Tagging: the signal is delivered together with a clone of the tag.
impl<S, T: Clone> SignalTransformer<S> for (T,) {
    type Output = (T, S);

    fn transform(&self, signal: S) -> (r: (T, S))
        ensures
            r.1 == signal,
            cloned::<T>(self.0, r.0),
    {
        (self.0.clone(), signal)
    }
}

/// Fluent configuration of the delivery of signals of type `S`: the transformer `T` and the
/// propagation decision `I`.
pub struct BuilderSignalConnector<S, T, I> {
    transformer: T,
    inhibit_dlg: I,
    _phantom_data: PhantomData<S>,
}

impl<S, T, I> BuilderSignalConnector<S, T, I> {
    pub closed spec fn spec_transformer(self) -> T {
        self.transformer
    }

    pub closed spec fn spec_inhibit(self) -> I {
        self.inhibit_dlg
    }

    /// The transformer.
    pub fn transformer(&self) -> (r: &T)
        ensures
            *r == self.spec_transformer(),
    {
        &self.transformer
    }

    /// The propagation decision.
    pub fn inhibit_dlg(&self) -> (r: &I)
        ensures
            *r == self.spec_inhibit(),
    {
        &self.inhibit_dlg
    }
}

impl<S> BuilderSignalConnector<S, (), ()> {
    /// A connector that delivers signals as they are, with the default propagation.
    pub fn connector() -> (r: Self)
        ensures
            r.spec_transformer() == (),
            r.spec_inhibit() == (),
    {
        BuilderSignalConnector { transformer: (), inhibit_dlg: (), _phantom_data: PhantomData }
    }
}

impl<S, I> BuilderSignalConnector<S, (), I> {
    /// Adds a tag for identifying the builder instance that generated the signal.
    pub fn tag<T: Clone>(self, tag: T) -> (r: BuilderSignalConnector<S, (T,), I>)
        ensures
            r.spec_transformer() == (tag,),
            r.spec_inhibit() == self.spec_inhibit(),
    {
        BuilderSignalConnector { transformer: (tag,), inhibit_dlg: self.inhibit_dlg, _phantom_data: PhantomData }
    }
}

impl<S, T> BuilderSignalConnector<S, T, ()> {
    /// Registers a function that decides the propagation of each signal.
    pub fn inhibit<F: Clone>(self, dlg: F) -> (r: BuilderSignalConnector<S, T, F>)
        ensures
            r.spec_transformer() == self.spec_transformer(),
            r.spec_inhibit() == dlg,
    {
        BuilderSignalConnector { transformer: self.transformer, inhibit_dlg: dlg, _phantom_data: PhantomData }
    }
}

} // verus!
