use std::rc::Rc;

use woab::builder_signal::{BuilderSignalConnector, SignalTransformer};
use woab::error::WoabError;
use woab::signal::{Signal, SignalCreator, TypeMismatch};

/// Parameters as a handler receives them: values of a few types.
#[derive(Debug, Clone, PartialEq)]
enum Value {
    I32(i32),
    Str(String),
    F32(f32),
}

fn signal(params: Vec<Value>) -> Signal<(), Value> {
    Signal::new(Rc::new("signal".to_owned()), params, ())
}

fn as_i32(v: &Value) -> Result<i32, TypeMismatch> {
    match v {
        Value::I32(i) => Ok(*i),
        _ => Err(TypeMismatch { expected_type: "gint".to_owned(), actual_type: "other".to_owned() }),
    }
}

fn as_string(v: &Value) -> Result<String, TypeMismatch> {
    match v {
        Value::Str(s) => Ok(s.clone()),
        _ => Err(TypeMismatch { expected_type: "gchararray".to_owned(), actual_type: "other".to_owned() }),
    }
}

fn as_f32(v: &Value) -> Result<f32, TypeMismatch> {
    match v {
        Value::F32(f) => Ok(*f),
        _ => Err(TypeMismatch { expected_type: "gfloat".to_owned(), actual_type: "other".to_owned() }),
    }
}

#[test]
fn test_param_extraction() {
    assert!(signal(vec![]).raw_params(0).is_ok());

    match signal(vec![Value::I32(1), Value::Str("two".to_owned())]).raw_params(0) {
        Err(WoabError::NotAllParametersExtracted { signal, num_parameters, num_extracted }) => {
            assert_eq!(signal, "signal");
            assert_eq!(num_parameters, 2);
            assert_eq!(num_extracted, 0);
        }
        Ok(_) => panic!("Should have failed"),
        Err(err) => panic!("{:?}", err),
    }

    let s = signal(vec![Value::I32(3), Value::Str("four".to_owned())]);
    let params = s.raw_params(2).unwrap();
    let a = s.param_from(0, as_i32(params[0])).unwrap();
    let b = s.param_from(1, as_string(params[1])).unwrap();
    assert_eq!(a, 3);
    assert_eq!(b, "four");

    let s = signal(vec![Value::I32(5), Value::Str("six".to_owned()), Value::F32(7.0)]);
    let params = s.raw_params(3).unwrap();
    let c = s.param_from(0, as_i32(params[0])).unwrap();
    let d = s.param_from(2, as_f32(params[2])).unwrap();
    assert_eq!(c, 5);
    assert_eq!(d, 7.0);
}

#[test]
fn extracting_more_parameters_than_the_signal_has_fails() {
    match signal(vec![Value::I32(1)]).raw_params(3) {
        Err(WoabError::SignalParameterIndexOutOfBound { signal, index, num_parameters }) => {
            assert_eq!(signal, "signal");
            assert_eq!(index, 1);
            assert_eq!(num_parameters, 1);
        }
        _ => panic!("expected an out-of-bound parameter"),
    }
    match signal(vec![]).raw_param(0) {
        Err(WoabError::SignalParameterIndexOutOfBound { index: 0, num_parameters: 0, .. }) => {}
        _ => panic!("expected an out-of-bound parameter"),
    }
}

#[test]
fn a_parameter_of_the_wrong_type_is_reported() {
    let s = signal(vec![Value::Str("two".to_owned())]);
    match s.param_from(0, as_i32(s.raw_param(0).unwrap())) {
        Err(WoabError::IncorrectSignalParameterType { signal, index, expected_type, actual_type }) => {
            assert_eq!(signal, "signal");
            assert_eq!(index, 0);
            assert_eq!(expected_type, "gint");
            assert_eq!(actual_type, "other");
        }
        _ => panic!("expected a type error"),
    }
    match s.action_param_from(as_f32(s.raw_param(0).unwrap())) {
        Err(WoabError::IncorrectActionParameter { signal, expected_type, .. }) => {
            assert_eq!(signal, "signal");
            assert_eq!(expected_type, "gfloat");
        }
        _ => panic!("expected an action parameter error"),
    }
}

#[test]
fn signals_know_their_name_tag_and_unknown_signals() {
    let s: Signal<u8, Value> = Signal::new(Rc::new("button_clicked".to_owned()), vec![Value::I32(1)], 9);
    assert_eq!(s.name(), "button_clicked");
    assert_eq!(*s.tag(), 9);
    assert_eq!(s.num_parameters(), 1);
    assert_eq!(*s.raw_param(0).unwrap(), Value::I32(1));
    match s.cant_handle::<()>() {
        Err(WoabError::NoSuchSignalError(name)) => assert_eq!(name, "button_clicked"),
        _ => panic!("expected NoSuchSignalError"),
    }
}

#[test]
fn a_creator_names_and_tags_every_signal() {
    let creator = SignalCreator::new("row_activated", 4u32);
    let s = creator.create(vec![Value::I32(1), Value::I32(2)]);
    assert_eq!(s.name(), "row_activated");
    assert_eq!(*s.tag(), 4);
    assert_eq!(s.num_parameters(), 2);
    let t = creator.create::<Value>(vec![]);
    assert_eq!(t.name(), "row_activated");
    assert_eq!(t.num_parameters(), 0);
}

#[test]
fn connectors_tag_and_transform_signals() {
    let plain: BuilderSignalConnector<&str, (), ()> = BuilderSignalConnector::connector();
    assert_eq!(plain.transformer().transform("clicked"), "clicked");
    let tagged = plain.tag(3u8);
    assert_eq!(tagged.transformer().transform("clicked"), (3, "clicked"));
    let inhibiting = tagged.inhibit(true);
    assert!(*inhibiting.inhibit_dlg());
    assert_eq!(inhibiting.transformer().transform("pressed"), (3, "pressed"));
}
