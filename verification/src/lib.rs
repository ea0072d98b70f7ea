//! WoAB (Widgets on Actors Bridge) combines the widgets toolkit GTK with the actors framework
//! Actix. This crate holds the parts of it that decide: how builder XML is dissected and scanned
//! for signal handlers, how signals are named, routed and their parameters extracted, and the
//! life cycles of the Actix runtime and of an application's startup.
use vstd::prelude::*;

pub mod builder;
pub mod builder_dissect;
pub mod builder_signal;
pub mod derive;
pub mod error;
pub mod event_loops_bridge;
pub mod factories;
pub mod gtk_app_helpers;
pub mod signal;
pub mod signal_routing;
pub mod text;
pub mod waking_helpers;
pub mod xml;
