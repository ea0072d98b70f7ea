use woab::derive::attr_parameters;
use woab::derive::{
    any_getter, any_setter, attr_parameter, factory_field_ids, path_to_single_string, prop_sync_field,
    removable_attribute, setter_needs_lifetime, signal_field_conversion, signal_variant_arity, signal_variant_inhibit,
    widget_field_source, AttrExprError, AttrExprShape, AttrParam, AttrValue, Conversion, FactoryAttrError, FactoryMeta,
    FieldSync, PathError, PathSegmentShape, PathShape, PropSyncError, PropSyncItem, RemovableError, SignalAttrError,
    SignalParam, VariantFieldsShape, VariantShapeError, WidgetAttrError,
};

fn ident(name: &str) -> PathShape {
    PathShape {
        leading_colon: false,
        segments: vec![PathSegmentShape { ident: name.to_owned(), has_arguments: false }],
    }
}

fn param(name: &str, value: Option<AttrValue>) -> AttrParam {
    AttrParam { name: ident(name), value }
}

fn sparam(name: &str, has_value: bool) -> SignalParam {
    SignalParam { name: ident(name), has_value }
}

#[test]
fn paths_must_be_single_identifiers() {
    assert_eq!(path_to_single_string(&ident("nested")).unwrap(), "nested");
    let leading = PathShape { leading_colon: true, segments: ident("a").segments };
    assert_eq!(path_to_single_string(&leading).err(), Some(PathError::LeadingColon));
    let empty = PathShape { leading_colon: false, segments: vec![] };
    assert_eq!(path_to_single_string(&empty).err(), Some(PathError::Empty));
    let two = PathShape {
        leading_colon: false,
        segments: vec![
            PathSegmentShape { ident: "a".to_owned(), has_arguments: false },
            PathSegmentShape { ident: "b".to_owned(), has_arguments: false },
        ],
    };
    assert_eq!(path_to_single_string(&two).err(), Some(PathError::MultipleParts));
    let generic = PathShape {
        leading_colon: false,
        segments: vec![PathSegmentShape { ident: "a".to_owned(), has_arguments: true }],
    };
    assert_eq!(path_to_single_string(&generic).err(), Some(PathError::HasArguments));
}

#[test]
fn attribute_items_are_parameters() {
    let (name, value) = attr_parameter(AttrExprShape::Assign { left: Some(ident("name")), right: 5 }).unwrap();
    assert_eq!(path_to_single_string(&name).unwrap(), "name");
    assert_eq!(value, Some(5));
    let (name, value) = attr_parameter::<u8>(AttrExprShape::Path(ident("nested"))).unwrap();
    assert_eq!(path_to_single_string(&name).unwrap(), "nested");
    assert_eq!(value, None);
    assert_eq!(
        attr_parameter(AttrExprShape::Assign { left: None, right: 1 }).err(),
        Some(AttrExprError::NotAValidName)
    );
    assert_eq!(attr_parameter::<u8>(AttrExprShape::Other).err(), Some(AttrExprError::ExpectedParameter));
}

#[test]
fn widget_fields_take_their_id_from_their_name_or_attribute() {
    assert_eq!(widget_field_source("button", &vec![]).unwrap(), Some("button".to_owned()));
    assert_eq!(
        widget_field_source("button", &vec![param("name", Some(AttrValue::StrLit("btn_ok".to_owned())))]).unwrap(),
        Some("btn_ok".to_owned())
    );
    assert_eq!(widget_field_source("inner", &vec![param("nested", None)]).unwrap(), None);
}

#[test]
fn widget_attribute_errors() {
    let lit = || Some(AttrValue::StrLit("x".to_owned()));
    assert_eq!(
        widget_field_source("f", &vec![param("nested", None), param("nested", None)]).err(),
        Some(WidgetAttrError::NestedTwice(1))
    );
    assert_eq!(widget_field_source("f", &vec![param("nested", lit())]).err(), Some(WidgetAttrError::NestedWithValue(0)));
    assert_eq!(widget_field_source("f", &vec![param("name", None)]).err(), Some(WidgetAttrError::NameWithoutValue(0)));
    assert_eq!(
        widget_field_source("f", &vec![param("name", lit()), param("name", lit())]).err(),
        Some(WidgetAttrError::NameTwice(1))
    );
    assert_eq!(widget_field_source("f", &vec![param("other", None)]).err(), Some(WidgetAttrError::UnknownAttribute(0)));
    assert_eq!(
        widget_field_source("f", &vec![param("nested", None), param("name", lit())]).err(),
        Some(WidgetAttrError::NestedAndName)
    );
    assert_eq!(
        widget_field_source("f", &vec![param("name", Some(AttrValue::Other))]).err(),
        Some(WidgetAttrError::NameNotStringLiteral)
    );
    let bad = AttrParam { name: PathShape { leading_colon: true, segments: vec![] }, value: None };
    assert_eq!(widget_field_source("f", &vec![bad]).err(), Some(WidgetAttrError::InvalidName(0, PathError::LeadingColon)));
}

#[test]
fn prop_sync_fields() {
    let f = prop_sync_field(&vec![PropSyncItem::Path(ident("get")), PropSyncItem::Path(ident("set"))]).unwrap();
    assert!(f.getter && f.setter && f.property.is_none());
    let f = prop_sync_field(&vec![
        PropSyncItem::Cast { literal: Some("label".to_owned()), type_is_reference: true },
        PropSyncItem::Path(ident("set")),
    ])
    .unwrap();
    assert!(!f.getter && f.setter);
    assert_eq!(f.property, Some(("label".to_owned(), true)));
    let none = prop_sync_field(&vec![]).unwrap();
    assert!(!none.getter && !none.setter);

    assert!(matches!(prop_sync_field(&vec![PropSyncItem::Path(ident("put"))]), Err(PropSyncError::UnknownAttribute(0))));
    assert!(matches!(
        prop_sync_field(&vec![PropSyncItem::Path(ident("get")), PropSyncItem::Cast { literal: None, type_is_reference: false }]),
        Err(PropSyncError::NotStringLiteral(1))
    ));
    assert!(matches!(prop_sync_field(&vec![PropSyncItem::Other]), Err(PropSyncError::IllegalOption(0))));
    let two = PathShape { leading_colon: false, segments: vec![] };
    assert!(matches!(
        prop_sync_field(&vec![PropSyncItem::Path(two)]),
        Err(PropSyncError::InvalidPath(0, PathError::Empty))
    ));
}

#[test]
fn prop_sync_setters_and_getters() {
    let owned = FieldSync { getter: true, setter: true, property: Some(("active".to_owned(), false)) };
    let by_ref = FieldSync { getter: false, setter: true, property: Some(("text".to_owned(), true)) };
    let nested = FieldSync { getter: true, setter: true, property: None };
    let read_only = FieldSync { getter: true, setter: false, property: None };
    assert!(!setter_needs_lifetime(&vec![FieldSync { getter: true, setter: true, property: Some(("active".to_owned(), false)) }]));
    assert!(setter_needs_lifetime(&vec![by_ref]));
    assert!(setter_needs_lifetime(&vec![nested]));
    assert!(!setter_needs_lifetime(&vec![read_only]));
    assert!(any_setter(&vec![owned]));
    assert!(!any_setter(&vec![FieldSync { getter: true, setter: false, property: None }]));
    assert!(any_getter(&vec![FieldSync { getter: true, setter: false, property: None }]));
    assert!(!any_getter(&vec![FieldSync { getter: false, setter: true, property: None }]));
    assert!(!any_getter(&vec![]));
}

#[test]
fn exactly_one_removable_attribute() {
    assert_eq!(removable_attribute(&vec![false, true, false]), Ok(1));
    assert_eq!(removable_attribute(&vec![false, false]), Err(RemovableError::Missing));
    assert_eq!(removable_attribute(&vec![true, false, true, true]), Err(RemovableError::Duplicate(2)));
}

#[test]
fn signal_variant_attributes() {
    assert_eq!(signal_variant_inhibit(&vec![]), Ok(None));
    assert_eq!(signal_variant_inhibit(&vec![sparam("inhibit", true)]), Ok(Some(0)));
    assert_eq!(signal_variant_inhibit(&vec![sparam("inhibit", false)]), Err(SignalAttrError::InhibitWithoutValue(0)));
    assert_eq!(
        signal_variant_inhibit(&vec![sparam("inhibit", true), sparam("inhibit", true)]),
        Err(SignalAttrError::InhibitTwice(1))
    );
    assert_eq!(signal_variant_inhibit(&vec![sparam("event", false)]), Err(SignalAttrError::UnknownArgument(0)));

    assert_eq!(signal_variant_arity(VariantFieldsShape::Unit), Ok(None));
    assert_eq!(signal_variant_arity(VariantFieldsShape::Unnamed(2)), Ok(Some(2)));
    assert_eq!(signal_variant_arity(VariantFieldsShape::Named), Err(VariantShapeError::NamedFields));
}

#[test]
fn signal_field_conversions() {
    assert_eq!(signal_field_conversion(&vec![]), Ok(Conversion::NoConversion));
    assert_eq!(signal_field_conversion(&vec![sparam("event", false)]), Ok(Conversion::Event));
    assert_eq!(signal_field_conversion(&vec![sparam("variant", false)]), Ok(Conversion::Variant));
    assert_eq!(signal_field_conversion(&vec![sparam("variant", true)]), Err(SignalAttrError::ConversionWithValue(0)));
    assert_eq!(
        signal_field_conversion(&vec![sparam("event", false), sparam("variant", false)]),
        Err(SignalAttrError::ConversionTwice(1, Conversion::Event))
    );
    assert_eq!(signal_field_conversion(&vec![sparam("inhibit", true)]), Err(SignalAttrError::UnknownArgument(0)));
}

#[test]
fn factory_fields_take_their_name_and_extras() {
    assert_eq!(factory_field_ids("win", &vec![]).unwrap(), vec!["win".to_owned()]);
    let extras = FactoryMeta::Extra(vec![Some("adj".to_owned()), None, Some("menu".to_owned())]);
    assert_eq!(
        factory_field_ids("win", &vec![extras]).unwrap(),
        vec!["win".to_owned(), "adj".to_owned(), "menu".to_owned()]
    );
    assert_eq!(
        factory_field_ids("win", &vec![FactoryMeta::Extra(vec![]), FactoryMeta::Unsupported]).err(),
        Some(FactoryAttrError::UnsupportedParameter(1))
    );
}

#[test]
fn attribute_items_are_read_up_to_the_first_that_is_not_a_parameter() {
    let items = vec![
        AttrExprShape::Path(ident("nested")),
        AttrExprShape::Assign { left: Some(ident("name")), right: 7u8 },
        AttrExprShape::Other,
        AttrExprShape::Path(ident("later")),
    ];
    let (params, refused) = attr_parameters(items);
    assert_eq!(params.len(), 2);
    assert_eq!(path_to_single_string(&params[0].0).unwrap(), "nested");
    assert_eq!(params[0].1, None);
    assert_eq!(params[1].1, Some(7));
    assert_eq!(refused, Some((2, AttrExprError::ExpectedParameter)));
    let (params, refused) = attr_parameters::<u8>(vec![AttrExprShape::Path(ident("a"))]);
    assert_eq!(params.len(), 1);
    assert_eq!(refused, None);
}
