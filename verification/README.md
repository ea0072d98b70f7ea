# woab

WoAB (Widgets on Actors Bridge) combines the widgets toolkit GTK with the actors framework
Actix. This crate holds the parts of it that decide, each stated in `requires`/`ensures`
contracts and proved with Verus:

- `builder_dissect`: splitting one builder XML among several builder factories; every
  `<object>` listed for a factory goes, with everything nested in it, to that factory only, and
  the surrounding markup goes to every factory.
- `builder`: builder factories and the signal handlers their XML declares.
- `signal`, `signal_routing`: signals, their parameters, and routing them by namespace.
- `event_loops_bridge`, `gtk_app_helpers`, `waking_helpers`: the life cycle of the Actix runtime
  inside the GTK event loop, of an application's startup, and of woken futures.
- `derive`: the decisions of the derives on the attributes they read.
- `xml`, `text`: the boundary to `quick_xml`, and string helpers.

`app/` performs these decisions on real widgets, actors and futures with `glib`, `gtk4` and
`actix`, and builds the code of the derives with `syn` and `quote`.
