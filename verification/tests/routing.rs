use woab::signal_routing::{action_gtk_signal, namespace_of_type, NamespacedSignalRouter, SignalRouteError};

#[test]
fn the_namespace_of_a_type_is_its_bare_name() {
    assert_eq!(namespace_of_type("my_crate::actors::Actor<T>"), "Actor");
    assert_eq!(namespace_of_type("Actor"), "Actor");
    assert_eq!(namespace_of_type("&my_crate::Actor"), "Actor");
    assert_eq!(namespace_of_type("a::B<c::D>"), "B");
}

#[test]
fn signals_are_routed_by_namespace() {
    let router = NamespacedSignalRouter::new().route_ns("a", 1).route_strip_ns("b", 2);
    assert!(router.has_namespace("a"));
    assert!(router.has_namespace("b"));
    assert!(!router.has_namespace("c"));

    let (target, name) = router.resolve("a::clicked").unwrap();
    assert_eq!((*target, name.as_str()), (1, "a::clicked"));
    let (target, name) = router.resolve("b::pressed").unwrap();
    assert_eq!((*target, name.as_str()), (2, "pressed"));
    let (target, name) = router.resolve("b::x::y").unwrap();
    assert_eq!((*target, name.as_str()), (2, "x::y"));

    assert_eq!(router.resolve("clicked").err(), Some(SignalRouteError::MissingNamespace));
    assert_eq!(router.resolve("").err(), Some(SignalRouteError::MissingNamespace));
    assert_eq!(router.resolve("c::clicked").err(), Some(SignalRouteError::UnknownNamespace("c".to_owned())));
}

#[test]
fn routing_by_type_strips_the_type_namespace() {
    let router = NamespacedSignalRouter::default().route("my_crate::WindowActor<u8>", 'w');
    let (target, name) = router.resolve("WindowActor::close").unwrap();
    assert_eq!((*target, name.as_str()), ('w', "close"));
}

#[test]
fn actions_signal_by_whether_they_have_state() {
    assert_eq!(action_gtk_signal(true), "change-state");
    assert_eq!(action_gtk_signal(false), "activate");
}

#[test]
fn handlers_are_generated_for_routed_namespaced_signals() {
    let router = NamespacedSignalRouter::new().route_ns("a", 1).route_strip_ns("b", 2);
    let (target, name) = router.handler_target("a::clicked");
    assert_eq!((*target, name.as_str()), (1, "a::clicked"));
    let (target, name) = router.handler_target("b::x::y");
    assert_eq!((*target, name.as_str()), (2, "x::y"));
}
