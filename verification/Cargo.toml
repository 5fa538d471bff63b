[package]
name = "fluid2d"
version = "0.1.0"
edition = "2021"
publish = false

[dependencies]
olc_pixel_game_engine = "*"
