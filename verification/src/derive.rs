//! The decisions of WoAB's derives, on the shapes of the attributes they read: which widget a
//! field takes from a builder, which widget data a field synchronizes, and which attributes are
//! refused. The code the derives generate is built from these decisions.
use vstd::prelude::*;
use crate::text::str_eq;

verus! {

/// One segment of a path: its identifier and whether it has generic arguments.
pub struct PathSegmentShape {
    pub ident: String,
    pub has_arguments: bool,
}

/// The shape of a path written in an attribute.
pub struct PathShape {
    pub leading_colon: bool,
    pub segments: Vec<PathSegmentShape>,
}

/// Why a path is not a single identifier.
#[derive(Clone, Copy, Debug, PartialEq, Eq, Structural)]
pub enum PathError {
    /// It starts with `::`.
    LeadingColon,
    /// It has no segment.
    Empty,
    /// It has more than one segment.
    MultipleParts,
    /// Its segment has generic arguments.
    HasArguments,
}

/// The single identifier a path consists of.
pub open spec fn spec_path_to_single_string(path: PathShape) -> Result<Seq<char>, PathError> {
    if path.leading_colon {
        Err(PathError::LeadingColon)
    } else if path.segments.len() == 0 {
        Err(PathError::Empty)
    } else if path.segments.len() > 1 {
        Err(PathError::MultipleParts)
    } else if path.segments@[0].has_arguments {
        Err(PathError::HasArguments)
    } else {
        Ok(path.segments@[0].ident@)
    }
}

/// The single identifier a path consists of.
pub fn path_to_single_string(path: &PathShape) -> (r: Result<String, PathError>)
    ensures
        match spec_path_to_single_string(*path) {
            Ok(s) => r matches Ok(t) && t@ == s,
            Err(e) => r == Err::<String, PathError>(e),
        },
{
    if path.leading_colon {
        Err(PathError::LeadingColon)
    } else if path.segments.len() == 0 {
        Err(PathError::Empty)
    } else if path.segments.len() > 1 {
        Err(PathError::MultipleParts)
    } else if path.segments[0].has_arguments {
        Err(PathError::HasArguments)
    } else {
        Ok(path.segments[0].ident.clone())
    }
}

/// Whether a path is the single identifier `name`.
fn path_is(path: &PathShape, name: &str) -> (r: Result<bool, PathError>)
    ensures
        match spec_path_to_single_string(*path) {
            Ok(s) => r == Ok::<bool, PathError>(s == name@),
            Err(e) => r == Err::<bool, PathError>(e),
        },
{
    match path_to_single_string(path) {
        Ok(s) => Ok(str_eq(s.as_str(), name)),
        Err(e) => Err(e),
    }
}

proof fn lemma_widget_attrs_err(params: Seq<AttrParam>, k: int)
    requires
        0 <= k <= params.len(),
        widget_attrs(params.take(k)) is Err,
    ensures
        widget_attrs(params) == widget_attrs(params.take(k)),
    decreases params.len() - k,
{
    if k < params.len() {
        assert(params.take(k + 1).drop_last() =~= params.take(k));
        lemma_widget_attrs_err(params, k + 1);
    } else {
        assert(params.take(k) =~= params);
    }
}

proof fn lemma_prop_sync_items_err(items: Seq<PropSyncItem>, k: int)
    requires
        0 <= k <= items.len(),
        prop_sync_items(items.take(k)) is Err,
    ensures
        prop_sync_items(items) == prop_sync_items(items.take(k)),
    decreases items.len() - k,
{
    if k < items.len() {
        assert(items.take(k + 1).drop_last() =~= items.take(k));
        lemma_prop_sync_items_err(items, k + 1);
    } else {
        assert(items.take(k) =~= items);
    }
}

proof fn lemma_variant_inhibit_err(params: Seq<SignalParam>, k: int)
    requires
        0 <= k <= params.len(),
        variant_inhibit(params.take(k)) is Err,
    ensures
        variant_inhibit(params) == variant_inhibit(params.take(k)),
    decreases params.len() - k,
{
    if k < params.len() {
        assert(params.take(k + 1).drop_last() =~= params.take(k));
        lemma_variant_inhibit_err(params, k + 1);
    } else {
        assert(params.take(k) =~= params);
    }
}

proof fn lemma_field_conversion_err(params: Seq<SignalParam>, k: int)
    requires
        0 <= k <= params.len(),
        field_conversion(params.take(k)) is Err,
    ensures
        field_conversion(params) == field_conversion(params.take(k)),
    decreases params.len() - k,
{
    if k < params.len() {
        assert(params.take(k + 1).drop_last() =~= params.take(k));
        lemma_field_conversion_err(params, k + 1);
    } else {
        assert(params.take(k) =~= params);
    }
}

// ---------------------------------------------------------------------------------------------
// Attributes whose items are parameters: `name` or `name = value`.

/// The shape of an item of such an attribute: an assignment (with its left side when that is a
/// path, and its right side), a path, or any other expression.
pub enum AttrExprShape<V> {
    Assign { left: Option<PathShape>, right: V },
    Path(PathShape),
    Other,
}

/// Why an item of such an attribute is not a parameter.
#[derive(Clone, Copy, Debug, PartialEq, Eq, Structural)]
pub enum AttrExprError {
    /// The left side of the assignment is not a path ("Not a valid name").
    NotAValidName,
    /// Neither an assignment nor a path ("Expected (<...>=<...>)").
    ExpectedParameter,
}

/// The parameter an attribute item stands for: its name, and its value when it is an
/// assignment.
pub fn attr_parameter<V>(item: AttrExprShape<V>) -> (r: Result<(PathShape, Option<V>), AttrExprError>)
    ensures
        match item {
            AttrExprShape::Assign { left: Some(path), right } => r == Ok::<(PathShape, Option<V>), AttrExprError>(
                (path, Some(right)),
            ),
            AttrExprShape::Assign { left: None, .. } => r == Err::<(PathShape, Option<V>), AttrExprError>(
                AttrExprError::NotAValidName,
            ),
            AttrExprShape::Path(path) => r == Ok::<(PathShape, Option<V>), AttrExprError>((path, None)),
            AttrExprShape::Other => r == Err::<(PathShape, Option<V>), AttrExprError>(
                AttrExprError::ExpectedParameter,
            ),
        },
{
    match item {
        AttrExprShape::Assign { left, right } => match left {
            Some(path) => Ok((path, Some(right))),
            None => Err(AttrExprError::NotAValidName),
        },
        AttrExprShape::Path(path) => Ok((path, None)),
        AttrExprShape::Other => Err(AttrExprError::ExpectedParameter),
    }
}

/// The parameter an attribute item stands for, or why it is not one.
pub open spec fn spec_attr_parameter<V>(item: AttrExprShape<V>) -> Result<(PathShape, Option<V>), AttrExprError> {
    match item {
        AttrExprShape::Assign { left: Some(path), right } => Ok((path, Some(right))),
        AttrExprShape::Assign { left: None, .. } => Err(AttrExprError::NotAValidName),
        AttrExprShape::Path(path) => Ok((path, None)),
        AttrExprShape::Other => Err(AttrExprError::ExpectedParameter),
    }
}

/// The parameters of the items of an attribute, in order, up to the first item that is not a
/// parameter, with that item's index and refusal.
pub fn attr_parameters<V>(items: Vec<AttrExprShape<V>>) -> (r: (Vec<(PathShape, Option<V>)>, Option<(usize, AttrExprError)>))
    ensures
        r.0.len() <= items@.len(),
        forall|i: int| 0 <= i < r.0.len() ==> spec_attr_parameter(#[trigger] items@[i]) == Ok::<(PathShape, Option<V>), AttrExprError>(r.0@[i]),
        match r.1 {
            None => r.0.len() == items@.len(),
            Some((k, e)) => k == r.0.len() && spec_attr_parameter(items@[k as int]) == Err::<(PathShape, Option<V>), AttrExprError>(e),
        },
{
    let ghost all = items@;
    let mut rest = items;
    let mut params: Vec<(PathShape, Option<V>)> = Vec::new();
    let mut refused: Option<(usize, AttrExprError)> = None;
    while rest.len() > 0
        invariant_except_break
            params.len() + rest.len() == all.len(),
            rest@ == all.skip(params.len() as int),
            refused is None,
        invariant
            params.len() <= all.len(),
            forall|i: int| 0 <= i < params.len() ==> spec_attr_parameter(#[trigger] all[i]) == Ok::<(PathShape, Option<V>), AttrExprError>(params@[i]),
        ensures
            params.len() <= all.len(),
            match refused {
                None => params.len() == all.len(),
                Some((k, e)) => k == params.len() && spec_attr_parameter(all[k as int]) == Err::<(PathShape, Option<V>), AttrExprError>(e),
            },
        decreases rest.len(),
    {
        let k = params.len();
        let item = rest.remove(0);
        assert(item == all[k as int]);
        proof {
            assert(rest@ =~= all.skip(k + 1));
        }
        match attr_parameter(item) {
            Ok(p) => params.push(p),
            Err(e) => {
                refused = Some((k, e));
                break;
            },
        }
    }
    (params, refused)
}

// ---------------------------------------------------------------------------------------------
// `#[widget(...)]` on the fields of `WidgetsFromBuilder`.

/// The value of an attribute parameter: a string literal, or any other expression.
pub enum AttrValue {
    StrLit(String),
    Other,
}

/// An attribute parameter `name` or `name = value`.
pub struct AttrParam {
    pub name: PathShape,
    pub value: Option<AttrValue>,
}

/// Why the `#[widget(...)]` attributes of a field are refused; the index is that of the
/// parameter at fault.
#[derive(Clone, Copy, Debug, PartialEq, Eq, Structural)]
pub enum WidgetAttrError {
    /// The parameter's name is not a single identifier.
    InvalidName(usize, PathError),
    /// `nested` can only be specified once.
    NestedTwice(usize),
    /// `nested` cannot have a value.
    NestedWithValue(usize),
    /// `name` must have a value.
    NameWithoutValue(usize),
    /// `name` can only be specified once.
    NameTwice(usize),
    /// Unknown attribute.
    UnknownAttribute(usize),
    /// `nested` and `name` are mutually exclusive.
    NestedAndName,
    /// `name` must have a string literal value.
    NameNotStringLiteral,
}

/// The value of a `name` parameter, as seen by the derive: `Some(id)` for a string literal.
pub open spec fn attr_value_literal(v: AttrValue) -> Option<Seq<char>> {
    match v {
        AttrValue::StrLit(s) => Some(s@),
        AttrValue::Other => None,
    }
}

/// The `nested` flag and the `name` value gathered from the parameters, or the first refusal.
pub open spec fn widget_attrs(params: Seq<AttrParam>) -> Result<(bool, Option<Option<Seq<char>>>), WidgetAttrError>
    decreases params.len(),
{
    if params.len() == 0 {
        Ok((false, None))
    } else {
        match widget_attrs(params.drop_last()) {
            Err(e) => Err(e),
            Ok((nested, name)) => {
                let i = (params.len() - 1) as usize;
                let p = params.last();
                match spec_path_to_single_string(p.name) {
                    Err(e) => Err(WidgetAttrError::InvalidName(i, e)),
                    Ok(s) => if s == "nested"@ {
                        if nested {
                            Err(WidgetAttrError::NestedTwice(i))
                        } else if p.value is Some {
                            Err(WidgetAttrError::NestedWithValue(i))
                        } else {
                            Ok((true, name))
                        }
                    } else if s == "name"@ {
                        match p.value {
                            None => Err(WidgetAttrError::NameWithoutValue(i)),
                            Some(v) => if name is Some {
                                Err(WidgetAttrError::NameTwice(i))
                            } else {
                                Ok((nested, Some(attr_value_literal(v))))
                            },
                        }
                    } else {
                        Err(WidgetAttrError::UnknownAttribute(i))
                    },
                }
            },
        }
    }
}

/// Where a field of a `WidgetsFromBuilder` struct comes from: `None` for a nested struct that
/// takes its own widgets from the builder, `Some(id)` for the widget with that id.
pub open spec fn spec_widget_field_source(field_name: Seq<char>, params: Seq<AttrParam>) -> Result<
    Option<Seq<char>>,
    WidgetAttrError,
> {
    match widget_attrs(params) {
        Err(e) => Err(e),
        Ok((nested, name)) => if nested && name is Some {
            Err(WidgetAttrError::NestedAndName)
        } else if nested {
            Ok(None)
        } else {
            match name {
                None => Ok(Some(field_name)),
                Some(Some(id)) => Ok(Some(id)),
                Some(None) => Err(WidgetAttrError::NameNotStringLiteral),
            }
        },
    }
}

/// Where a field of a `WidgetsFromBuilder` struct comes from, from its name and the parameters
/// of its `#[widget(...)]` attributes.
pub fn widget_field_source(field_name: &str, params: &Vec<AttrParam>) -> (r: Result<Option<String>, WidgetAttrError>)
    ensures
        match spec_widget_field_source(field_name@, params@) {
            Ok(None) => r matches Ok(None),
            Ok(Some(id)) => r matches Ok(Some(s)) && s@ == id,
            Err(e) => r == Err::<Option<String>, WidgetAttrError>(e),
        },
{
    let mut nested = false;
    let mut name: Option<Option<String>> = None;
    let mut i: usize = 0;
    while i < params.len()
        invariant
            i <= params.len(),
            widget_attrs(params@.take(i as int)) == Ok::<(bool, Option<Option<Seq<char>>>), WidgetAttrError>(
                (
                    nested,
                    match name {
                        None => None,
                        Some(None) => Some(None),
                        Some(Some(s)) => Some(Some(s@)),
                    },
                ),
            ),
        decreases params.len() - i,
    {
        proof {
            assert(params@.take(i + 1).drop_last() =~= params@.take(i as int));
            if widget_attrs(params@.take(i + 1)) is Err {
                lemma_widget_attrs_err(params@, i + 1);
            }
        }
        let p = &params[i];
        let is_nested = match path_is(&p.name, "nested") {
            Ok(b) => b,
            Err(e) => return Err(WidgetAttrError::InvalidName(i, e)),
        };
        if is_nested {
            if nested {
                return Err(WidgetAttrError::NestedTwice(i));
            }
            if p.value.is_some() {
                return Err(WidgetAttrError::NestedWithValue(i));
            }
            nested = true;
        } else if matches!(path_is(&p.name, "name"), Ok(true)) {
            match &p.value {
                None => return Err(WidgetAttrError::NameWithoutValue(i)),
                Some(v) => {
                    if name.is_some() {
                        return Err(WidgetAttrError::NameTwice(i));
                    }
                    name = Some(
                        match v {
                            AttrValue::StrLit(s) => Some(s.clone()),
                            AttrValue::Other => None,
                        },
                    );
                },
            }
        } else {
            return Err(WidgetAttrError::UnknownAttribute(i));
        }
        i = i + 1;
    }
    assert(params@.take(params@.len() as int) =~= params@);
    if nested && name.is_some() {
        return Err(WidgetAttrError::NestedAndName);
    }
    if nested {
        return Ok(None);
    }
    match name {
        None => Ok(Some(field_name.to_owned())),
        Some(Some(id)) => Ok(Some(id)),
        Some(None) => Err(WidgetAttrError::NameNotStringLiteral),
    }
}

// ---------------------------------------------------------------------------------------------
// `#[prop_sync(...)]` on the fields of `PropSync`.

/// An item of a `#[prop_sync(...)]` attribute: a path (`get`, `set`), a cast
/// `"property" as Type` (`literal` is the property when the left side is a string literal), or
/// anything else.
pub enum PropSyncItem {
    Path(PathShape),
    Cast { literal: Option<String>, type_is_reference: bool },
    Other,
}

/// Why the `#[prop_sync(...)]` attributes of a field are refused; the index is that of the item
/// at fault.
#[derive(Clone, Copy, Debug, PartialEq, Eq, Structural)]
pub enum PropSyncError {
    /// A path that is not a single identifier.
    InvalidPath(usize, PathError),
    /// A path other than `get` or `set`.
    UnknownAttribute(usize),
    /// A cast whose left side is not a string literal (a GTK property).
    NotStringLiteral(usize),
    /// Neither a path nor a cast.
    IllegalOption(usize),
}

/// What a field synchronizes: whether it is read and written, and the GTK property used for it
/// with whether its type is a reference (`None`: the widget's own getter and setter are used).
pub struct FieldSync {
    pub getter: bool,
    pub setter: bool,
    pub property: Option<(String, bool)>,
}

/// The flags and property gathered from the items, or the first refusal.
pub open spec fn prop_sync_items(items: Seq<PropSyncItem>) -> Result<(bool, bool, Option<(Seq<char>, bool)>), PropSyncError>
    decreases items.len(),
{
    if items.len() == 0 {
        Ok((false, false, None))
    } else {
        match prop_sync_items(items.drop_last()) {
            Err(e) => Err(e),
            Ok((getter, setter, property)) => {
                let i = (items.len() - 1) as usize;
                match items.last() {
                    PropSyncItem::Path(path) => match spec_path_to_single_string(path) {
                        Err(e) => Err(PropSyncError::InvalidPath(i, e)),
                        Ok(s) => if s == "get"@ {
                            Ok((true, setter, property))
                        } else if s == "set"@ {
                            Ok((getter, true, property))
                        } else {
                            Err(PropSyncError::UnknownAttribute(i))
                        },
                    },
                    PropSyncItem::Cast { literal, type_is_reference } => match literal {
                        Some(p) => Ok((getter, setter, Some((p@, type_is_reference)))),
                        None => Err(PropSyncError::NotStringLiteral(i)),
                    },
                    PropSyncItem::Other => Err(PropSyncError::IllegalOption(i)),
                }
            },
        }
    }
}

/// What a field synchronizes, from the items of its `#[prop_sync(...)]` attributes (a later
/// property replaces an earlier one).
pub fn prop_sync_field(items: &Vec<PropSyncItem>) -> (r: Result<FieldSync, PropSyncError>)
    ensures
        match prop_sync_items(items@) {
            Ok((getter, setter, property)) => r matches Ok(f) && f.getter == getter && f.setter == setter
                && match property {
                None => f.property is None,
                Some((p, reference)) => f.property matches Some((q, rf)) && q@ == p && rf == reference,
            },
            Err(e) => r matches Err(e2) && e2 == e,
        },
{
    let mut getter = false;
    let mut setter = false;
    let mut property: Option<(String, bool)> = None;
    let mut i: usize = 0;
    while i < items.len()
        invariant
            i <= items.len(),
            prop_sync_items(items@.take(i as int)) == Ok::<(bool, bool, Option<(Seq<char>, bool)>), PropSyncError>(
                (
                    getter,
                    setter,
                    match property {
                        None => None,
                        Some((p, rf)) => Some((p@, rf)),
                    },
                ),
            ),
        decreases items.len() - i,
    {
        proof {
            assert(items@.take(i + 1).drop_last() =~= items@.take(i as int));
            if prop_sync_items(items@.take(i + 1)) is Err {
                lemma_prop_sync_items_err(items@, i + 1);
            }
        }
        match &items[i] {
            PropSyncItem::Path(path) => {
                let is_get = match path_is(path, "get") {
                    Ok(b) => b,
                    Err(e) => return Err(PropSyncError::InvalidPath(i, e)),
                };
                if is_get {
                    getter = true;
                } else if matches!(path_is(path, "set"), Ok(true)) {
                    setter = true;
                } else {
                    return Err(PropSyncError::UnknownAttribute(i));
                }
            },
            PropSyncItem::Cast { literal, type_is_reference } => match literal {
                Some(p) => {
                    property = Some((p.clone(), *type_is_reference));
                },
                None => return Err(PropSyncError::NotStringLiteral(i)),
            },
            PropSyncItem::Other => return Err(PropSyncError::IllegalOption(i)),
        }
        i = i + 1;
    }
    assert(items@.take(items@.len() as int) =~= items@);
    Ok(FieldSync { getter, setter, property })
}

/// A field is synchronized at all when it is read or written.
pub fn is_synced(field: &FieldSync) -> (r: bool)
    ensures
        r == (field.getter || field.setter),
{
    field.getter || field.setter
}

/// The setter struct needs a lifetime parameter when one of its fields borrows: a field set
/// through the widget's own setter, or through a property whose type is a reference.
pub open spec fn setter_borrows(f: FieldSync) -> bool {
    f.setter && match f.property {
        None => true,
        Some((_, reference)) => reference,
    }
}

/// Whether a setter is generated: some field is written.
pub fn any_setter(fields: &Vec<FieldSync>) -> (r: bool)
    ensures
        r == exists|i: int| 0 <= i < fields@.len() && (#[trigger] fields@[i]).setter,
{
    let mut i: usize = 0;
    while i < fields.len()
        invariant
            i <= fields.len(),
            forall|j: int| 0 <= j < i ==> !(#[trigger] fields@[j]).setter,
        decreases fields.len() - i,
    {
        if fields[i].setter {
            return true;
        }
        i = i + 1;
    }
    false
}

/// Whether a getter is generated: some field is read.
pub fn any_getter(fields: &Vec<FieldSync>) -> (r: bool)
    ensures
        r == exists|i: int| 0 <= i < fields@.len() && (#[trigger] fields@[i]).getter,
{
    let mut i: usize = 0;
    while i < fields.len()
        invariant
            i <= fields.len(),
            forall|j: int| 0 <= j < i ==> !(#[trigger] fields@[j]).getter,
        decreases fields.len() - i,
    {
        if fields[i].getter {
            return true;
        }
        i = i + 1;
    }
    false
}

/// Whether the generated setter struct needs a lifetime parameter.
pub fn setter_needs_lifetime(fields: &Vec<FieldSync>) -> (r: bool)
    ensures
        r == exists|i: int| 0 <= i < fields@.len() && setter_borrows(#[trigger] fields@[i]),
{
    let mut i: usize = 0;
    while i < fields.len()
        invariant
            i <= fields.len(),
            forall|j: int| 0 <= j < i ==> !setter_borrows(#[trigger] fields@[j]),
        decreases fields.len() - i,
    {
        let f = &fields[i];
        let borrows = f.setter && match &f.property {
            None => true,
            Some((_, reference)) => *reference,
        };
        if borrows {
            return true;
        }
        i = i + 1;
    }
    false
}

// ---------------------------------------------------------------------------------------------
// `#[removable(...)]` on `Removable`.

/// Why the `#[removable(...)]` attribute of an actor is refused.
#[derive(Clone, Copy, Debug, PartialEq, Eq, Structural)]
pub enum RemovableError {
    /// There can only be one `#[removable(...)]` attribute; the index is that of the second.
    Duplicate(usize),
    /// `#[removable(...)]` is mandatory.
    Missing,
}

/// The index of the one `#[removable(...)]` attribute among the attributes of a type, from
/// whether each of them is one.
pub fn removable_attribute(is_removable: &Vec<bool>) -> (r: Result<usize, RemovableError>)
    ensures
        match r {
            Ok(i) => i < is_removable@.len() && is_removable@[i as int] && forall|j: int|
                0 <= j < is_removable@.len() && j != i ==> !is_removable@[j],
            Err(RemovableError::Missing) => forall|j: int| 0 <= j < is_removable@.len() ==> !is_removable@[j],
            Err(RemovableError::Duplicate(k)) => k < is_removable@.len() && is_removable@[k as int]
                && exists|j: int| 0 <= j < k && is_removable@[j] && forall|m: int|
                    0 <= m < k && m != j ==> !is_removable@[m],
        },
{
    let mut found: Option<usize> = None;
    let mut i: usize = 0;
    while i < is_removable.len()
        invariant
            i <= is_removable.len(),
            match found {
                None => forall|j: int| 0 <= j < i ==> !is_removable@[j],
                Some(f) => f < i && is_removable@[f as int] && forall|j: int|
                    0 <= j < i && j != f ==> !is_removable@[j],
            },
        decreases is_removable.len() - i,
    {
        if is_removable[i] {
            if let Some(f) = found {
                assert(0 <= f < i && is_removable@[f as int]);
                return Err(RemovableError::Duplicate(i));
            }
            found = Some(i);
        }
        i = i + 1;
    }
    match found {
        Some(f) => Ok(f),
        None => Err(RemovableError::Missing),
    }
}

// ---------------------------------------------------------------------------------------------
// `#[signal(...)]` on the variants and fields of `BuilderSignal`.

/// A parameter of a `#[signal(...)]` attribute: its name and whether it has a value.
pub struct SignalParam {
    pub name: PathShape,
    pub has_value: bool,
}

/// The fields of an enum variant.
#[derive(Clone, Copy, Debug, PartialEq, Eq, Structural)]
pub enum VariantFieldsShape {
    Unit,
    Unnamed(usize),
    Named,
}

/// A signal variant must be a unit or tuple variant.
#[derive(Clone, Copy, Debug, PartialEq, Eq, Structural)]
pub enum VariantShapeError {
    NamedFields,
}

/// The number of signal parameters a variant takes, if any: `None` for a unit variant, the
/// number of fields for a tuple variant; variants with named fields are refused.
pub fn signal_variant_arity(shape: VariantFieldsShape) -> (r: Result<Option<usize>, VariantShapeError>)
    ensures
        match shape {
            VariantFieldsShape::Unit => r == Ok::<Option<usize>, VariantShapeError>(None),
            VariantFieldsShape::Unnamed(n) => r == Ok::<Option<usize>, VariantShapeError>(Some(n)),
            VariantFieldsShape::Named => r == Err::<Option<usize>, VariantShapeError>(VariantShapeError::NamedFields),
        },
{
    match shape {
        VariantFieldsShape::Unit => Ok(None),
        VariantFieldsShape::Unnamed(n) => Ok(Some(n)),
        VariantFieldsShape::Named => Err(VariantShapeError::NamedFields),
    }
}

/// How a signal argument is converted to the field's type.
#[derive(Clone, Copy, Debug, PartialEq, Eq, Structural)]
pub enum Conversion {
    /// Used as it is.
    NoConversion,
    /// Converted from a GDK event.
    Event,
    /// Converted from a GLib variant.
    Variant,
}

/// Why a `#[signal(...)]` attribute is refused; the index is that of the parameter at fault.
#[derive(Clone, Copy, Debug, PartialEq, Eq, Structural)]
pub enum SignalAttrError {
    /// The parameter's name is not a single identifier.
    InvalidName(usize, PathError),
    /// `inhibit` must have a value.
    InhibitWithoutValue(usize),
    /// `inhibit` already set.
    InhibitTwice(usize),
    /// `event` and `variant` cannot have a value.
    ConversionWithValue(usize),
    /// Already converting (to the conversion given).
    ConversionTwice(usize, Conversion),
    /// Unknown argument.
    UnknownArgument(usize),
}

/// The parameter that gives a variant's `inhibit` value, or the first refusal.
pub open spec fn variant_inhibit(params: Seq<SignalParam>) -> Result<Option<usize>, SignalAttrError>
    decreases params.len(),
{
    if params.len() == 0 {
        Ok(None)
    } else {
        match variant_inhibit(params.drop_last()) {
            Err(e) => Err(e),
            Ok(inhibit) => {
                let i = (params.len() - 1) as usize;
                let p = params.last();
                match spec_path_to_single_string(p.name) {
                    Err(e) => Err(SignalAttrError::InvalidName(i, e)),
                    Ok(s) => if s == "inhibit"@ {
                        if !p.has_value {
                            Err(SignalAttrError::InhibitWithoutValue(i))
                        } else if inhibit is Some {
                            Err(SignalAttrError::InhibitTwice(i))
                        } else {
                            Ok(Some(i))
                        }
                    } else {
                        Err(SignalAttrError::UnknownArgument(i))
                    },
                }
            },
        }
    }
}

/// The index of the parameter that gives the `inhibit` value of a signal variant, if any.
pub fn signal_variant_inhibit(params: &Vec<SignalParam>) -> (r: Result<Option<usize>, SignalAttrError>)
    ensures
        r == variant_inhibit(params@),
{
    let mut inhibit: Option<usize> = None;
    let mut i: usize = 0;
    while i < params.len()
        invariant
            i <= params.len(),
            variant_inhibit(params@.take(i as int)) == Ok::<Option<usize>, SignalAttrError>(inhibit),
        decreases params.len() - i,
    {
        proof {
            assert(params@.take(i + 1).drop_last() =~= params@.take(i as int));
            if variant_inhibit(params@.take(i + 1)) is Err {
                lemma_variant_inhibit_err(params@, i + 1);
            }
        }
        let p = &params[i];
        let is_inhibit = match path_is(&p.name, "inhibit") {
            Ok(b) => b,
            Err(e) => return Err(SignalAttrError::InvalidName(i, e)),
        };
        if !is_inhibit {
            return Err(SignalAttrError::UnknownArgument(i));
        }
        if !p.has_value {
            return Err(SignalAttrError::InhibitWithoutValue(i));
        }
        if inhibit.is_some() {
            return Err(SignalAttrError::InhibitTwice(i));
        }
        inhibit = Some(i);
        i = i + 1;
    }
    assert(params@.take(params@.len() as int) =~= params@);
    Ok(inhibit)
}

/// The conversion of a signal argument from the parameters of its `#[signal(...)]` attributes,
/// or the first refusal.
pub open spec fn field_conversion(params: Seq<SignalParam>) -> Result<Conversion, SignalAttrError>
    decreases params.len(),
{
    if params.len() == 0 {
        Ok(Conversion::NoConversion)
    } else {
        match field_conversion(params.drop_last()) {
            Err(e) => Err(e),
            Ok(conversion) => {
                let i = (params.len() - 1) as usize;
                let p = params.last();
                match spec_path_to_single_string(p.name) {
                    Err(e) => Err(SignalAttrError::InvalidName(i, e)),
                    Ok(s) => if s == "event"@ || s == "variant"@ {
                        if p.has_value {
                            Err(SignalAttrError::ConversionWithValue(i))
                        } else if conversion != Conversion::NoConversion {
                            Err(SignalAttrError::ConversionTwice(i, conversion))
                        } else if s == "event"@ {
                            Ok(Conversion::Event)
                        } else {
                            Ok(Conversion::Variant)
                        }
                    } else {
                        Err(SignalAttrError::UnknownArgument(i))
                    },
                }
            },
        }
    }
}

/// The conversion of a signal argument, from the parameters of its `#[signal(...)]`
/// attributes.
pub fn signal_field_conversion(params: &Vec<SignalParam>) -> (r: Result<Conversion, SignalAttrError>)
    ensures
        r == field_conversion(params@),
{
    let mut conversion = Conversion::NoConversion;
    let mut i: usize = 0;
    while i < params.len()
        invariant
            i <= params.len(),
            field_conversion(params@.take(i as int)) == Ok::<Conversion, SignalAttrError>(conversion),
        decreases params.len() - i,
    {
        proof {
            assert(params@.take(i + 1).drop_last() =~= params@.take(i as int));
            if field_conversion(params@.take(i + 1)) is Err {
                lemma_field_conversion_err(params@, i + 1);
            }
        }
        let p = &params[i];
        let is_event = match path_is(&p.name, "event") {
            Ok(b) => b,
            Err(e) => return Err(SignalAttrError::InvalidName(i, e)),
        };
        let is_variant = matches!(path_is(&p.name, "variant"), Ok(true));
        if !is_event && !is_variant {
            return Err(SignalAttrError::UnknownArgument(i));
        }
        if p.has_value {
            return Err(SignalAttrError::ConversionWithValue(i));
        }
        if conversion != Conversion::NoConversion {
            return Err(SignalAttrError::ConversionTwice(i, conversion));
        }
        conversion = if is_event {
            Conversion::Event
        } else {
            Conversion::Variant
        };
        i = i + 1;
    }
    assert(params@.take(params@.len() as int) =~= params@);
    Ok(conversion)
}

// ---------------------------------------------------------------------------------------------
// `#[factory(...)]` on the fields of `Factories`.

/// A nested item of a `#[factory(...)]` attribute: `extra(...)` with, for each item inside it,
/// its identifier when it is a single one; or any other item.
pub enum FactoryMeta {
    Extra(Vec<Option<String>>),
    Unsupported,
}

/// Why the `#[factory(...)]` attributes of a field are refused.
#[derive(Clone, Copy, Debug, PartialEq, Eq, Structural)]
pub enum FactoryAttrError {
    /// An item other than `extra(...)`; the index is that of the item.
    UnsupportedParameter(usize),
}

/// The identifiers among the items of an `extra(...)`, in order.
pub open spec fn extra_ids(items: Seq<Option<Seq<char>>>) -> Seq<Seq<char>>
    decreases items.len(),
{
    if items.len() == 0 {
        Seq::empty()
    } else {
        extra_ids(items.drop_last()) + match items.last() {
            Some(id) => seq![id],
            None => Seq::empty(),
        }
    }
}

/// The object ids that go to a factory field: the field's own name, then the identifiers of its
/// `extra(...)` items in order; or the first refusal.
pub open spec fn factory_ids(field_name: Seq<char>, metas: Seq<FactoryMeta>) -> Result<Seq<Seq<char>>, FactoryAttrError>
    decreases metas.len(),
{
    if metas.len() == 0 {
        Ok(seq![field_name])
    } else {
        match factory_ids(field_name, metas.drop_last()) {
            Err(e) => Err(e),
            Ok(ids) => match metas.last() {
                FactoryMeta::Extra(items) => Ok(ids + extra_ids(items.deep_view())),
                FactoryMeta::Unsupported => Err(FactoryAttrError::UnsupportedParameter((metas.len() - 1) as usize)),
            },
        }
    }
}

proof fn lemma_factory_ids_err(field_name: Seq<char>, metas: Seq<FactoryMeta>, k: int)
    requires
        0 <= k <= metas.len(),
        factory_ids(field_name, metas.take(k)) is Err,
    ensures
        factory_ids(field_name, metas) == factory_ids(field_name, metas.take(k)),
    decreases metas.len() - k,
{
    if k < metas.len() {
        assert(metas.take(k + 1).drop_last() =~= metas.take(k));
        lemma_factory_ids_err(field_name, metas, k + 1);
    } else {
        assert(metas.take(k) =~= metas);
    }
}

/// The object ids that a factory field receives when a builder XML is dissected.
pub fn factory_field_ids(field_name: &str, metas: &Vec<FactoryMeta>) -> (r: Result<Vec<String>, FactoryAttrError>)
    ensures
        match factory_ids(field_name@, metas@) {
            Ok(ids) => r matches Ok(v) && v.deep_view() == ids,
            Err(e) => r == Err::<Vec<String>, FactoryAttrError>(e),
        },
{
    let mut ids: Vec<String> = Vec::new();
    ids.push(field_name.to_owned());
    proof {
        assert(ids.deep_view() =~= seq![field_name@]);
    }
    let mut i: usize = 0;
    while i < metas.len()
        invariant
            i <= metas.len(),
            factory_ids(field_name@, metas@.take(i as int)) == Ok::<Seq<Seq<char>>, FactoryAttrError>(ids.deep_view()),
        decreases metas.len() - i,
    {
        proof {
            assert(metas@.take(i + 1).drop_last() =~= metas@.take(i as int));
        }
        match &metas[i] {
            FactoryMeta::Extra(items) => {
                let ghost before = ids.deep_view();
                let mut j: usize = 0;
                while j < items.len()
                    invariant
                        j <= items.len(),
                        ids.deep_view() == before + extra_ids(items.deep_view().take(j as int)),
                    decreases items.len() - j,
                {
                    proof {
                        assert(items.deep_view().take(j + 1).drop_last() =~= items.deep_view().take(j as int));
                    }
                    let ghost prev = ids.deep_view();
                    match &items[j] {
                        Some(id) => {
                            assert(items.deep_view()[j as int] == Some(id@));
                            ids.push(id.clone());
                            assert(ids.deep_view() =~= prev.push(id@));
                        },
                        None => {
                            assert(items.deep_view()[j as int] == None::<Seq<char>>);
                        },
                    }
                    proof {
                        assert(ids.deep_view() =~= before + extra_ids(items.deep_view().take(j + 1)));
                    }
                    j = j + 1;
                }
                proof {
                    assert(items.deep_view().take(items.len() as int) =~= items.deep_view());
                }
            },
            FactoryMeta::Unsupported => {
                proof {
                    lemma_factory_ids_err(field_name@, metas@, i + 1);
                }
                return Err(FactoryAttrError::UnsupportedParameter(i));
            },
        }
        i = i + 1;
    }
    assert(metas@.take(metas@.len() as int) =~= metas@);
    Ok(ids)
}

/// An item that is the path consisting of the single identifier `name`.
pub open spec fn item_names(item: PropSyncItem, name: Seq<char>) -> bool {
    item matches PropSyncItem::Path(path) && spec_path_to_single_string(path) == Ok::<Seq<char>, PathError>(name)
}

/// An item that is accepted: `get`, `set`, or a cast of a string literal.
pub open spec fn item_accepted(item: PropSyncItem) -> bool {
    item_names(item, "get"@) || item_names(item, "set"@) || item matches PropSyncItem::Cast { literal: Some(_), .. }
}

/// A field is read exactly when one of its items is `get`, and written exactly when one is
/// `set`; its property is that of its last cast, and it has none without a cast. The items are
/// accepted exactly when each of them is `get`, `set` or a cast of a string literal.
pub proof fn lemma_prop_sync_items_meaning(items: Seq<PropSyncItem>)
    ensures
        prop_sync_items(items) is Ok <==> forall|i: int| 0 <= i < items.len() ==> #[trigger] item_accepted(items[i]),
        prop_sync_items(items) matches Ok((getter, setter, property)) ==> {
            &&& getter <==> exists|i: int| 0 <= i < items.len() && #[trigger] item_names(items[i], "get"@)
            &&& setter <==> exists|i: int| 0 <= i < items.len() && #[trigger] item_names(items[i], "set"@)
            &&& property is None <==> forall|i: int| 0 <= i < items.len() ==> !(#[trigger] items[i] is Cast)
            &&& property matches Some((p, reference)) ==> exists|i: int|
                0 <= i < items.len() && (#[trigger] items[i] matches PropSyncItem::Cast {
                    literal: Some(l),
                    type_is_reference,
                } && l@ == p && type_is_reference == reference) && forall|j: int| i < j < items.len() ==> !(#[trigger] items[j] is Cast)
        },
    decreases items.len(),
{
    reveal_strlit("get");
    reveal_strlit("set");
    assert("set"@[0] == 's' && "get"@[0] == 'g');
    assert("set"@ != "get"@);
    if items.len() > 0 {
        let prev = items.drop_last();
        let last = items.len() - 1;
        lemma_prop_sync_items_meaning(prev);
        assert(items.last() == items[last]);
        assert forall|i: int| 0 <= i < prev.len() implies prev[i] == items[i] by {}
        if prop_sync_items(items) is Ok {
            assert(prop_sync_items(prev) is Ok);
            assert(item_accepted(items[last]));
            let (g0, s0, p0) = prop_sync_items(prev)->Ok_0;
            let (g, st, pr) = prop_sync_items(items)->Ok_0;
            if g {
                if !g0 {
                    assert(item_names(items[last], "get"@));
                } else {
                    let i = choose|i: int| 0 <= i < prev.len() && #[trigger] item_names(prev[i], "get"@);
                    assert(item_names(items[i], "get"@));
                }
            } else {
                assert forall|i: int| 0 <= i < items.len() implies !#[trigger] item_names(items[i], "get"@) by {
                    if i < last {
                        assert(items[i] == prev[i]);
                    }
                }
            }
            if st {
                if !s0 {
                    assert(item_names(items[last], "set"@));
                } else {
                    let i = choose|i: int| 0 <= i < prev.len() && #[trigger] item_names(prev[i], "set"@);
                    assert(item_names(items[i], "set"@));
                }
            } else {
                assert(!s0);
                assert forall|i: int| 0 <= i < items.len() implies !#[trigger] item_names(items[i], "set"@) by {
                    if i < last {
                        assert(items[i] == prev[i]);
                        assert(!item_names(prev[i], "set"@));
                    }
                }
            }
            if items[last] is Cast {
                assert(pr is Some);
            } else {
                assert(pr == p0);
                if pr is None {
                    assert forall|i: int| 0 <= i < items.len() implies !(#[trigger] items[i] is Cast) by {
                        if i < last {
                            assert(items[i] == prev[i]);
                        }
                    }
                } else {
                    let (pp, rr) = pr->0;
                    let i = choose|i: int|
                        0 <= i < prev.len() && (#[trigger] prev[i] matches PropSyncItem::Cast {
                            literal: Some(l),
                            type_is_reference,
                        } && l@ == pp && type_is_reference == rr) && forall|j: int| i < j < prev.len() ==> !(#[trigger] prev[j] is Cast);
                    assert(items[i] == prev[i]);
                    assert forall|j: int| i < j < items.len() implies !(#[trigger] items[j] is Cast) by {
                        if j < last {
                            assert(items[j] == prev[j]);
                        }
                    }
                }
            }
        } else {
            if prop_sync_items(prev) is Err {
                let i = choose|i: int| 0 <= i < prev.len() && !#[trigger] item_accepted(prev[i]);
                assert(!item_accepted(items[i]));
            } else {
                assert(!item_accepted(items[last]));
            }
        }
    }
}

/// Only a written field can make the setter borrow: a field that is not set never does; a set
/// field borrows when it is set through the widget's own setter, or through a property whose
/// type is a reference.
pub proof fn lemma_setter_borrows_only_written_fields(f: FieldSync)
    ensures
        !f.setter ==> !setter_borrows(f),
        f.setter && f.property is None ==> setter_borrows(f),
        f.setter && f.property is Some ==> setter_borrows(f) == (f.property->0).1,
{
}

/// The setter struct gets a lifetime parameter only if some field is written.
pub proof fn lemma_setter_lifetime_needs_a_written_field(fields: Seq<FieldSync>)
    ensures
        (exists|i: int| 0 <= i < fields.len() && #[trigger] setter_borrows(fields[i])) ==> exists|i: int|
            0 <= i < fields.len() && (#[trigger] fields[i]).setter,
{
    if exists|i: int| 0 <= i < fields.len() && #[trigger] setter_borrows(fields[i]) {
        let i = choose|i: int| 0 <= i < fields.len() && #[trigger] setter_borrows(fields[i]);
        assert(fields[i].setter);
    }
}

/// An `extra(...)` meta that lists the identifier `id`.
pub open spec fn meta_lists(meta: FactoryMeta, id: Seq<char>) -> bool {
    meta matches FactoryMeta::Extra(items) && items.deep_view().contains(Some(id))
}

/// Some `extra(...)` among the metas lists the identifier `id`.
pub open spec fn some_meta_lists(metas: Seq<FactoryMeta>, id: Seq<char>) -> bool {
    exists|k: int| 0 <= k < metas.len() && #[trigger] meta_lists(metas[k], id)
}

proof fn lemma_extra_ids_members(items: Seq<Option<Seq<char>>>)
    ensures
        forall|id: Seq<char>| items.contains(Some(id)) ==> #[trigger] extra_ids(items).contains(id),
        forall|j: int| 0 <= j < extra_ids(items).len() ==> items.contains(Some(#[trigger] extra_ids(items)[j])),
    decreases items.len(),
{
    if items.len() > 0 {
        let prev = items.drop_last();
        let last = items.len() - 1;
        lemma_extra_ids_members(prev);
        let e = extra_ids(items);
        let e0 = extra_ids(prev);
        let tail: Seq<Seq<char>> = match items.last() {
            Some(id) => seq![id],
            None => Seq::empty(),
        };
        assert(e == e0 + tail);
        assert forall|id: Seq<char>| items.contains(Some(id)) implies #[trigger] e.contains(id) by {
            let m = choose|m: int| 0 <= m < items.len() && items[m] == Some(id);
            if m < last {
                assert(prev[m] == items[m]);
                assert(prev.contains(Some(id)));
                assert(e0.contains(id));
                let j = choose|j: int| 0 <= j < e0.len() && e0[j] == id;
                assert(e[j] == id);
            } else {
                assert(e[e0.len() as int] == id);
            }
        }
        assert forall|j: int| 0 <= j < e.len() implies items.contains(Some(#[trigger] e[j])) by {
            if j < e0.len() {
                assert(e[j] == e0[j]);
                let m = choose|m: int| 0 <= m < prev.len() && prev[m] == Some(e0[j]);
                assert(items[m] == prev[m]);
            } else {
                assert(items[last] == Some(e[j]));
            }
        }
    }
}

/// A factory field receives its own name first, then every identifier of every `extra(...)`,
/// and nothing else; the attributes are accepted exactly when all their items are `extra(...)`,
/// and a refusal names the first other item. (Items are indexed by `usize`.)
pub proof fn lemma_factory_ids_name_and_every_extra(field_name: Seq<char>, metas: Seq<FactoryMeta>)
    requires
        metas.len() <= usize::MAX,
    ensures
        factory_ids(field_name, metas) is Ok <==> forall|k: int| 0 <= k < metas.len() ==> (#[trigger] metas[k]) is Extra,
        factory_ids(field_name, metas) matches Err(FactoryAttrError::UnsupportedParameter(k)) ==> k < metas.len()
            && metas[k as int] is Unsupported && forall|j: int| 0 <= j < k ==> (#[trigger] metas[j]) is Extra,
        factory_ids(field_name, metas) matches Ok(ids) ==> {
            &&& ids.len() > 0 && ids[0] == field_name
            &&& forall|k: int, id: Seq<char>| 0 <= k < metas.len() && #[trigger] meta_lists(metas[k], id) ==> ids.contains(id)
            &&& forall|j: int| 1 <= j < ids.len() ==> #[trigger] some_meta_lists(metas, ids[j])
        },
    decreases metas.len(),
{
    if metas.len() > 0 {
        let prev = metas.drop_last();
        let last = metas.len() - 1;
        lemma_factory_ids_name_and_every_extra(field_name, prev);
        assert(metas.last() == metas[last]);
        assert forall|k: int| 0 <= k < prev.len() implies prev[k] == metas[k] by {}
        match factory_ids(field_name, prev) {
            Err(e) => {
                let FactoryAttrError::UnsupportedParameter(k) = e;
                assert(metas[k as int] == prev[k as int]);
                assert forall|j: int| 0 <= j < k implies (#[trigger] metas[j]) is Extra by {
                    assert(metas[j] == prev[j]);
                }
            },
            Ok(ids0) => {
                assert forall|k: int| 0 <= k < last implies (#[trigger] metas[k]) is Extra by {
                    assert(metas[k] == prev[k]);
                }
                if let FactoryMeta::Extra(items) = metas[last] {
                    let xs = items.deep_view();
                    lemma_extra_ids_members(xs);
                    let ids = ids0 + extra_ids(xs);
                    assert(factory_ids(field_name, metas) == Ok::<Seq<Seq<char>>, FactoryAttrError>(ids));
                    assert(ids[0] == ids0[0]);
                    assert forall|k: int, id: Seq<char>| 0 <= k < metas.len() && #[trigger] meta_lists(metas[k], id) implies ids.contains(id) by {
                        if k < last {
                            assert(metas[k] == prev[k]);
                            assert(meta_lists(prev[k], id));
                            let j = choose|j: int| 0 <= j < ids0.len() && ids0[j] == id;
                            assert(ids[j] == id);
                        } else {
                            assert(extra_ids(xs).contains(id));
                            let j = choose|j: int| 0 <= j < extra_ids(xs).len() && extra_ids(xs)[j] == id;
                            assert(ids[ids0.len() + j] == id);
                        }
                    }
                    assert forall|j: int| 1 <= j < ids.len() implies #[trigger] some_meta_lists(metas, ids[j]) by {
                        if j < ids0.len() {
                            assert(ids[j] == ids0[j]);
                            assert(some_meta_lists(prev, ids0[j]));
                            let k = choose|k: int| 0 <= k < prev.len() && #[trigger] meta_lists(prev[k], ids0[j]);
                            assert(metas[k] == prev[k]);
                            assert(meta_lists(metas[k], ids[j]));
                        } else {
                            let jj = j - ids0.len();
                            assert(ids[j] == extra_ids(xs)[jj]);
                            assert(xs.contains(Some(extra_ids(xs)[jj])));
                            assert(meta_lists(metas[last], ids[j]));
                        }
                    }
                    assert(factory_ids(field_name, metas) matches Ok(ids2) && ids2 == ids);
                } else {
                    assert(factory_ids(field_name, metas) is Err);
                }
            },
        }
    }
}

} // verus!
