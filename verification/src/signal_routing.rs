//! Routing signals by namespace: a signal named `"namespace::signal"` goes to the target routed
//! for its namespace, with or without the namespace in the name it is delivered under.
use vstd::prelude::*;
use crate::text::{
    chars_of, first_occurrence, lemma_first_occurrence_at, lemma_split_first_idempotent,
    lemma_split_last_after_module_path, lemma_split_without_separator, occurs_at, split_first,
    split_first_window, split_last, split_last_window,
};

verus! {

/// A table from namespaces to indices, kept in a `hashbrown` map.
#[verifier::external_body]
pub struct NamespaceTable {
    map: hashbrown::HashMap<String, usize>,
}

/// What a namespace table holds.
pub uninterp spec fn namespace_table_contents(t: NamespaceTable) -> Map<Seq<char>, usize>;

/// `hashbrown::HashMap::new`: an empty table.
#[verifier::external_body]
fn namespace_table_new() -> (table: NamespaceTable)
    ensures
        namespace_table_contents(table) =~= Map::empty(),
{
    NamespaceTable { map: hashbrown::HashMap::new() }
}

/// `hashbrown::HashMap::get`: the index stored for a namespace (keys compare by their
/// characters).
#[verifier::external_body]
fn namespace_table_get(t: &NamespaceTable, ns: &str) -> (r: Option<usize>)
    ensures
        r == if namespace_table_contents(*t).dom().contains(ns@) {
            Some(namespace_table_contents(*t)[ns@])
        } else {
            None
        },
{
    t.map.get(ns).copied()
}

/// `hashbrown::HashMap::entry` followed, for a vacant entry, by `VacantEntry::insert`: stores the
/// index for a namespace that has none, and tells whether it did.
#[verifier::external_body]
fn namespace_table_insert_vacant(t: &mut NamespaceTable, ns: &str, idx: usize) -> (inserted: bool)
    ensures
        inserted == !namespace_table_contents(*old(t)).dom().contains(ns@),
        inserted ==> namespace_table_contents(*final(t)) == namespace_table_contents(*old(t)).insert(ns@, idx),
        !inserted ==> namespace_table_contents(*final(t)) == namespace_table_contents(*old(t)),
{
    match t.map.entry(ns.to_owned()) {
        hashbrown::hash_map::Entry::Occupied(_) => false,
        hashbrown::hash_map::Entry::Vacant(e) => {
            e.insert(idx);
            true
        },
    }
}

/// The namespace of a type: its name without generic arguments, module path, qualifications and
/// references.
pub open spec fn spec_namespace_of_type(rust_type_name: Seq<char>) -> Seq<char> {
    split_last(
        split_last(split_last(split_first(rust_type_name, seq!['<']), seq![':', ':']), seq![';', ' ']),
        seq!['&'],
    )
}

/// The namespace of a type, from its name: the part before the generic arguments (`<`), after
/// the last module separator (`::`), after the last qualification (`; `) and after the last
/// reference (`&`).
pub fn namespace_of_type(rust_type_name: &str) -> (r: String)
    ensures
        r@ == spec_namespace_of_type(rust_type_name@),
{
    let cs = chars_of(rust_type_name);
    let generics = vec!['<'];
    let module_sep = vec![':', ':'];
    let qualification = vec![';', ' '];
    let reference = vec!['&'];
    assert(generics@ =~= seq!['<']);
    assert(module_sep@ =~= seq![':', ':']);
    assert(qualification@ =~= seq![';', ' ']);
    assert(reference@ =~= seq!['&']);
    let hi = split_first_window(&cs, 0, cs.len(), &generics);
    let lo = split_last_window(&cs, 0, hi, &module_sep);
    let lo = split_last_window(&cs, lo, hi, &qualification);
    let lo = split_last_window(&cs, lo, hi, &reference);
    assert(cs@.subrange(0, cs@.len() as int) =~= rust_type_name@);
    rust_type_name.substring_char(lo, hi).to_owned()
}

/// Why a signal cannot be routed.
#[derive(Debug, PartialEq, Eq)]
pub enum SignalRouteError {
    /// The signal name has no namespace (`"namespace::signal"`).
    MissingNamespace,
    /// No target is routed for the namespace of the signal.
    UnknownNamespace(String),
}

/// Splits signals from the same builder to multiple targets, based on namespaces. The namespace
/// format is `"namespace::signal"`.
pub struct NamespacedSignalRouter<R> {
    namespaces: NamespaceTable,
    targets: Vec<(R, bool)>,
}

impl<R> NamespacedSignalRouter<R> {
    #[verifier::type_invariant]
    spec fn wf(self) -> bool {
        forall|ns: Seq<char>|
            #[trigger] namespace_table_contents(self.namespaces).dom().contains(ns)
                ==> namespace_table_contents(self.namespaces)[ns] < self.targets.len()
    }

    /// The routes: for each namespace, its target and whether the namespace is stripped from the
    /// names of its signals.
    pub closed spec fn routes(self) -> Map<Seq<char>, (R, bool)> {
        namespace_table_contents(self.namespaces).map_values(|i: usize| self.targets@[i as int])
    }

    /// A router with no routes.
    pub fn new() -> (r: Self)
        ensures
            r.routes() == Map::<Seq<char>, (R, bool)>::empty(),
    {
        let r = NamespacedSignalRouter { namespaces: namespace_table_new(), targets: Vec::new() };
        assert(r.routes() =~= Map::<Seq<char>, (R, bool)>::empty());
        r
    }

    /// Whether signals of a namespace are routed.
    pub fn has_namespace(&self, namespace: &str) -> (r: bool)
        ensures
            r == self.routes().dom().contains(namespace@),
    {
        namespace_table_get(&self.namespaces, namespace).is_some()
    }

    /// Adds a route; a namespace can be routed only once.
    fn add_target(self, namespace: &str, recipient: R, strip_namespace: bool) -> (r: Self)
        requires
            !self.routes().dom().contains(namespace@),
        ensures
            r.routes() == self.routes().insert(namespace@, (recipient, strip_namespace)),
    {
        proof {
            use_type_invariant(&self);
        }
        let ghost old_routes = self.routes();
        let NamespacedSignalRouter { mut namespaces, mut targets } = self;
        let ghost old_contents = namespace_table_contents(namespaces);
        let ghost old_targets = targets@;
        let idx = targets.len();
        targets.push((recipient, strip_namespace));
        let inserted = namespace_table_insert_vacant(&mut namespaces, namespace, idx);
        assert(inserted);
        let r = NamespacedSignalRouter { namespaces, targets };
        proof {
            assert forall|ns: Seq<char>| #[trigger] old_contents.dom().contains(ns) implies
                r.targets@[old_contents[ns] as int] == old_targets[old_contents[ns] as int] by {}
            assert(r.routes() =~= old_routes.insert(namespace@, (recipient, strip_namespace)));
        }
        r
    }

    /// Routes signals of the namespace, keeping the namespace in their names.
    pub fn route_ns(self, namespace: &str, recipient: R) -> (r: Self)
        requires
            !self.routes().dom().contains(namespace@),
        ensures
            r.routes() == self.routes().insert(namespace@, (recipient, false)),
    {
        self.add_target(namespace, recipient, false)
    }

    /// Routes signals of the namespace, stripping the namespace from their names.
    pub fn route_strip_ns(self, namespace: &str, recipient: R) -> (r: Self)
        requires
            !self.routes().dom().contains(namespace@),
        ensures
            r.routes() == self.routes().insert(namespace@, (recipient, true)),
    {
        self.add_target(namespace, recipient, true)
    }

    /// Routes signals of the namespace of a type (see [`namespace_of_type`]), stripping the
    /// namespace from their names.
    pub fn route(self, rust_type_name: &str, recipient: R) -> (r: Self)
        requires
            !self.routes().dom().contains(spec_namespace_of_type(rust_type_name@)),
        ensures
            r.routes() == self.routes().insert(spec_namespace_of_type(rust_type_name@), (recipient, true)),
    {
        let namespace = namespace_of_type(rust_type_name);
        self.add_target(namespace.as_str(), recipient, true)
    }

    /// The target of a signal and the name it is delivered under.
    pub fn resolve(&self, signal_name: &str) -> (r: Result<(&R, String), SignalRouteError>)
        ensures
            match first_occurrence(signal_name@, seq![':', ':'], 0) {
                None => r == Err::<(&R, String), SignalRouteError>(SignalRouteError::MissingNamespace),
                Some(p) => {
                    let ns = signal_name@.take(p);
                    if self.routes().dom().contains(ns) {
                        r matches Ok((target, name)) && *target == self.routes()[ns].0 && name@ == if self.routes()[ns].1 {
                            signal_name@.skip(p + 2)
                        } else {
                            signal_name@
                        }
                    } else {
                        r matches Err(SignalRouteError::UnknownNamespace(n)) && n@ == ns
                    }
                },
            },
    {
        proof {
            use_type_invariant(self);
        }
        let cs = chars_of(signal_name);
        let sep = vec![':', ':'];
        assert(sep@ =~= seq![':', ':']);
        let found = crate::text::find_in_window(&cs, 0, cs.len(), 0, &sep);
        assert(cs@.subrange(0, cs@.len() as int) =~= signal_name@);
        match found {
            None => Err(SignalRouteError::MissingNamespace),
            Some(p) => {
                proof {
                    crate::text::lemma_first_occurrence_bound(signal_name@, seq![':', ':'], 0);
                }
                let namespace = signal_name.substring_char(0, p);
                assert(namespace@ =~= signal_name@.take(p as int));
                match namespace_table_get(&self.namespaces, namespace) {
                    None => Err(SignalRouteError::UnknownNamespace(namespace.to_owned())),
                    Some(idx) => {
                        let target = &self.targets[idx];
                        let name = if target.1 {
                            signal_name.substring_char(p + 2, cs.len()).to_owned()
                        } else {
                            signal_name.to_owned()
                        };
                        proof {
                            assert(signal_name@.subrange(p + 2, signal_name@.len() as int) =~= signal_name@.skip(p + 2));
                        }
                        Ok((&target.0, name))
                    },
                }
            },
        }
    }

    /// The target of a signal for which a handler is generated, and the name the signal is
    /// delivered under. A handler can only be generated for a signal whose name has a namespace
    /// (`"namespace::signal"`) that is routed.
    pub fn handler_target(&self, signal_name: &str) -> (r: (&R, String))
        requires
            first_occurrence(signal_name@, seq![':', ':'], 0) matches Some(p) && self.routes().dom().contains(
                signal_name@.take(p),
            ),
        ensures
            ({
                let p = first_occurrence(signal_name@, seq![':', ':'], 0)->0;
                let ns = signal_name@.take(p);
                &&& *r.0 == self.routes()[ns].0
                &&& r.1@ == if self.routes()[ns].1 {
                    signal_name@.skip(p + 2)
                } else {
                    signal_name@
                }
            }),
    {
        match self.resolve(signal_name) {
            Ok(found) => found,
            Err(_) => vstd::pervasive::unreached(),
        }
    }
}

impl<R> Default for NamespacedSignalRouter<R> {
    fn default() -> (r: Self)
        ensures
            r.routes() == Map::<Seq<char>, (R, bool)>::empty(),
    {
        Self::new()
    }
}

/// The GIO signal through which an action is routed: stateful actions signal `change-state`,
/// stateless ones `activate`.
pub fn action_gtk_signal(has_state: bool) -> (r: &'static str)
    ensures
        r@ == if has_state {
            "change-state"@
        } else {
            "activate"@
        },
{
    if has_state {
        "change-state"
    } else {
        "activate"
    }
}

/// A signal named `namespace::name`, where the namespace holds no `::` and does not end in `:`,
/// is resolved by that namespace: its namespace is `namespace`, and without it the signal is
/// named `name`.
pub proof fn lemma_namespaced_signal_name(namespace: Seq<char>, name: Seq<char>)
    requires
        forall|i: int| 0 <= i < namespace.len() - 1 ==> !(namespace[i] == ':' && #[trigger] namespace[i + 1] == ':'),
        namespace.len() == 0 || namespace.last() != ':',
    ensures
        first_occurrence(namespace + seq![':', ':'] + name, seq![':', ':'], 0) == Some(namespace.len() as int),
        (namespace + seq![':', ':'] + name).take(namespace.len() as int) == namespace,
        (namespace + seq![':', ':'] + name).skip(namespace.len() as int + 2) == name,
{
    let s = namespace + seq![':', ':'] + name;
    let sep = seq![':', ':'];
    assert(s.subrange(namespace.len() as int, namespace.len() as int + 2) =~= sep);
    assert forall|i: int| 0 <= i < namespace.len() implies !occurs_at(s, sep, i) by {
        if occurs_at(s, sep, i) {
            assert(s.subrange(i, i + 2)[0] == s[i]);
            assert(s.subrange(i, i + 2)[1] == s[i + 1]);
            if i + 1 < namespace.len() {
                assert(namespace[i] == ':' && namespace[i + 1] == ':');
            } else {
                assert(namespace.last() == namespace[i]);
            }
        }
    }
    lemma_first_occurrence_at(s, sep, 0, namespace.len() as int);
    assert(s.take(namespace.len() as int) =~= namespace);
    assert(s.skip(namespace.len() as int + 2) =~= name);
}

/// The name of a type without generic arguments, module path, qualifications or references is
/// its own namespace.
pub proof fn lemma_plain_type_name_namespace(name: Seq<char>)
    requires
        !name.contains('<'),
        !name.contains(':'),
        !name.contains(';'),
        !name.contains('&'),
    ensures
        spec_namespace_of_type(name) == name,
{
    lemma_split_without_separator(name, seq!['<']);
    lemma_split_without_separator(name, seq![':', ':']);
    lemma_split_without_separator(name, seq![';', ' ']);
    lemma_split_without_separator(name, seq!['&']);
}

/// The namespace of a type depends only on the part of its name before its generic arguments.
pub proof fn lemma_namespace_ignores_generic_arguments(rust_type_name: Seq<char>)
    ensures
        spec_namespace_of_type(rust_type_name) == spec_namespace_of_type(split_first(rust_type_name, seq!['<'])),
{
    lemma_split_first_idempotent(rust_type_name, seq!['<']);
}

/// The namespace of `m::P<A>`, for a plain type name `P`, a module path `m` and any generic
/// arguments `A`, is `P`.
pub proof fn lemma_namespace_of_generic_type_in_module(m: Seq<char>, p: Seq<char>, a: Seq<char>)
    requires
        !p.contains('<'),
        !p.contains(':'),
        !p.contains(';'),
        !p.contains('&'),
        !m.contains('<'),
        m.len() == 0 || m.last() != ':',
    ensures
        spec_namespace_of_type(m + seq![':', ':'] + p + seq!['<'] + a + seq!['>']) == p,
{
    let head = m + seq![':', ':'] + p;
    let n = head + seq!['<'] + a + seq!['>'];
    let lt = seq!['<'];
    assert(n.subrange(head.len() as int, head.len() as int + 1) =~= lt);
    assert forall|i: int| 0 <= i < head.len() implies !#[trigger] occurs_at(n, lt, i) by {
        assert(n.subrange(i, i + 1)[0] == n[i]);
        assert(n[i] == head[i]);
        if i < m.len() {
            assert(head[i] == m[i]);
        } else if i >= m.len() + 2 {
            assert(head[i] == p[i - m.len() - 2]);
        }
    }
    lemma_first_occurrence_at(n, lt, 0, head.len() as int);
    assert(n.take(head.len() as int) =~= head);
    lemma_split_last_after_module_path(m, p);
    lemma_split_without_separator(p, seq![';', ' ']);
    lemma_split_without_separator(p, seq!['&']);
}

} // verus!
