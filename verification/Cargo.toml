[package]
name = "woab"
version = "0.1.0"
edition = "2021"
publish = false

[dependencies]
quick-xml = "*"
hashbrown = "*"
actix = "*"
tokio = { version = "*", features = ["sync"] }
thiserror = "*"
send_wrapper = "*"
syn = { version = "2", features = ["full", "extra-traits"] }
quote = "*"
proc-macro2 = "*"
glib = "*"
gio = "*"
gtk4 = "*"
gdk4 = "*"
