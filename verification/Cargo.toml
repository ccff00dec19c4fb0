[package]
name = "server_upnp"
version = "0.1.0"
edition = "2021"
publish = false

[dependencies]
axum = "0.8"
tokio = { version = "1", features = ["full"] }
tower = { version = "0.5", features = ["util"] }
tower-http = { version = "0.6", features = ["fs"] }
socket2 = "0.5"
if-addrs = "0.13"
httpdate = "1"
mime_guess = "2"
percent-encoding = "2"
