[package]
name = "piece_table"
version = "0.1.0"
edition = "2021"
publish = false

[dependencies]
font-loader = "0.7"
gfx = "0.18"
gfx_glyph = "0.14"
gfx_window_glutin = "0.31"
glutin = "0.21"

[dev-dependencies]
rand = "0.5"
