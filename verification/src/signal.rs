//! The generic signal that WoAB routes: a name, a list of parameters and a tag.
use vstd::prelude::*;
use std::rc::Rc;
use crate::error::WoabError;

verus! {

/// A signal: its name, its parameters (of type `P`, GLib values when it comes from GTK) and a tag
/// that identifies where it came from.
pub struct Signal<T, P> {
    name: Rc<String>,
    parameters: Vec<P>,
    tag: T,
}

/// A failed conversion of a value to another type: the names of the type that was expected and
/// of the type the value has.
pub struct TypeMismatch {
    pub expected_type: String,
    pub actual_type: String,
}

/// Creates the signals of one name and tag, each with the parameters it is given.
pub struct SignalCreator<T> {
    name: Rc<String>,
    tag: T,
}

impl<T: Clone> SignalCreator<T> {
    pub closed spec fn spec_name(self) -> Seq<char> {
        (*self.name)@
    }

    pub closed spec fn spec_tag(self) -> T {
        self.tag
    }

    /// A creator of signals named `name`, tagged with `tag`.
    pub fn new(name: &str, tag: T) -> (r: Self)
        ensures
            r.spec_name() == name@,
            r.spec_tag() == tag,
    {
        SignalCreator { name: Rc::new(name.to_owned()), tag }
    }

    /// A signal with the creator's name, the given parameters, and a clone of the creator's tag.
    pub fn create<P>(&self, parameters: Vec<P>) -> (r: Signal<T, P>)
        ensures
            r.spec_name() == self.spec_name(),
            r.spec_parameters() == parameters@,
            cloned::<T>(self.spec_tag(), r.spec_tag()),
    {
        Signal { name: self.name.clone(), parameters, tag: self.tag.clone() }
    }
}

impl<T, P> Signal<T, P> {
    pub closed spec fn spec_name(self) -> Seq<char> {
        (*self.name)@
    }

    pub closed spec fn spec_parameters(self) -> Seq<P> {
        self.parameters@
    }

    pub closed spec fn spec_tag(self) -> T {
        self.tag
    }

    /// A signal with the given name, parameters and tag.
    pub fn new(name: Rc<String>, parameters: Vec<P>, tag: T) -> (r: Self)
        ensures
            r.spec_name() == (*name)@,
            r.spec_parameters() == parameters@,
            r.spec_tag() == tag,
    {
        Signal { name, parameters, tag }
    }

    /// The name of the signal.
    pub fn name(&self) -> (r: &str)
        ensures
            r@ == self.spec_name(),
    {
        self.name.as_str()
    }

    /// The tag of the signal.
    pub fn tag(&self) -> (r: &T)
        ensures
            *r == self.spec_tag(),
    {
        &self.tag
    }

    /// The number of parameters of the signal.
    pub fn num_parameters(&self) -> (r: usize)
        ensures
            r == self.spec_parameters().len(),
    {
        self.parameters.len()
    }

    /// The parameter at `index`, as it is.
    pub fn raw_param(&self, index: usize) -> (r: Result<&P, WoabError>)
        ensures
            index < self.spec_parameters().len() ==> (r matches Ok(p) && *p == self.spec_parameters()[index as int]),
            index >= self.spec_parameters().len() ==> (r matches Err(
                WoabError::SignalParameterIndexOutOfBound { signal, index: i, num_parameters },
            ) && signal@ == self.spec_name() && i == index && num_parameters == self.spec_parameters().len()),
    {
        if index < self.parameters.len() {
            Ok(&self.parameters[index])
        } else {
            Err(
                WoabError::SignalParameterIndexOutOfBound {
                    signal: self.name.as_str().to_owned(),
                    index,
                    num_parameters: self.parameters.len(),
                },
            )
        }
    }

    /// The parameter at `index`, once the conversion of its raw value to the handler's type gave
    /// `converted`.
    pub fn param_from<X>(&self, index: usize, converted: Result<X, TypeMismatch>) -> (r: Result<X, WoabError>)
        ensures
            match converted {
                Ok(x) => r matches Ok(y) && y == x,
                Err(m) => r matches Err(
                    WoabError::IncorrectSignalParameterType { signal, index: i, expected_type, actual_type },
                ) && signal@ == self.spec_name() && i == index && expected_type@ == m.expected_type@
                    && actual_type@ == m.actual_type@,
            },
    {
        match converted {
            Ok(x) => Ok(x),
            Err(m) => Err(
                WoabError::IncorrectSignalParameterType {
                    signal: self.name.as_str().to_owned(),
                    index,
                    expected_type: m.expected_type,
                    actual_type: m.actual_type,
                },
            ),
        }
    }

    /// The parameter of an action signal (its parameter, or its state for a stateful action),
    /// once the conversion of the variant to the handler's type gave `converted`.
    pub fn action_param_from<X>(&self, converted: Result<X, TypeMismatch>) -> (r: Result<X, WoabError>)
        ensures
            match converted {
                Ok(x) => r matches Ok(y) && y == x,
                Err(m) => r matches Err(
                    WoabError::IncorrectActionParameter { signal, expected_type, actual_type },
                ) && signal@ == self.spec_name() && expected_type@ == m.expected_type@ && actual_type@
                    == m.actual_type@,
            },
    {
        match converted {
            Ok(x) => Ok(x),
            Err(m) => Err(
                WoabError::IncorrectActionParameter {
                    signal: self.name.as_str().to_owned(),
                    expected_type: m.expected_type,
                    actual_type: m.actual_type,
                },
            ),
        }
    }

    /// The error a handler returns for a signal it does not recognize.
    pub fn cant_handle<X>(&self) -> (r: Result<X, WoabError>)
        ensures
            r matches Err(WoabError::NoSuchSignalError(n)) && n@ == self.spec_name(),
    {
        Err(WoabError::NoSuchSignalError(self.name.as_str().to_owned()))
    }

    /// After the first `num_extracted` parameters were extracted: fails when parameters are left.
    pub fn check_all_extracted(&self, num_extracted: usize) -> (r: Result<(), WoabError>)
        ensures
            num_extracted >= self.spec_parameters().len() ==> r is Ok,
            num_extracted < self.spec_parameters().len() ==> (r matches Err(
                WoabError::NotAllParametersExtracted { signal, num_parameters, num_extracted: k },
            ) && signal@ == self.spec_name() && num_parameters == self.spec_parameters().len()
                && k == num_extracted),
    {
        if num_extracted < self.parameters.len() {
            Err(
                WoabError::NotAllParametersExtracted {
                    signal: self.name.as_str().to_owned(),
                    num_parameters: self.parameters.len(),
                    num_extracted,
                },
            )
        } else {
            Ok(())
        }
    }

    /// Extracts `count` parameters as they are, checking that no parameter is left over.
    pub fn raw_params(&self, count: usize) -> (r: Result<Vec<&P>, WoabError>)
        ensures
            count == self.spec_parameters().len() ==> (r matches Ok(v) && v@.len() == count && forall|i: int|
                0 <= i < count ==> *v@[i] == self.spec_parameters()[i]),
            count > self.spec_parameters().len() ==> (r matches Err(
                WoabError::SignalParameterIndexOutOfBound { signal, index, num_parameters },
            ) && signal@ == self.spec_name() && index == self.spec_parameters().len()
                && num_parameters == self.spec_parameters().len()),
            count < self.spec_parameters().len() ==> (r matches Err(
                WoabError::NotAllParametersExtracted { signal, num_parameters, num_extracted },
            ) && signal@ == self.spec_name() && num_parameters == self.spec_parameters().len()
                && num_extracted == count),
    {
        let mut result: Vec<&P> = Vec::new();
        let mut i: usize = 0;
        while i < count
            invariant
                i <= count,
                i <= self.spec_parameters().len(),
                result@.len() == i,
                forall|j: int| 0 <= j < i ==> *result@[j] == self.spec_parameters()[j],
            decreases count - i,
        {
            match self.raw_param(i) {
                Ok(p) => result.push(p),
                Err(e) => return Err(e),
            }
            i = i + 1;
        }
        match self.check_all_extracted(count) {
            Ok(()) => Ok(result),
            Err(e) => Err(e),
        }
    }
}

} // verus!
