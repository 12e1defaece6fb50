[package]
name = "boreas_core"
version = "0.1.0"
edition = "2021"
publish = false

[dependencies]
base64 = "*"
boring = "*"
brotli-decompressor = "*"
bytes = "*"
encoding_rs = "*"
etherparse = "*"
flate2 = "*"
http = "*"
http-body-util = "*"
httparse = "*"
hyper = { version = "*", features = ["client", "server", "http1", "http2"] }
hyper-util = { version = "*", features = ["tokio"] }
libc = "*"
lol_html = "*"
quiche = { version = "*", default-features = false, features = ["boringssl-boring-crate"] }
rcgen = { version = "*", default-features = false, features = ["crypto", "ring", "pem", "x509-parser"] }
ring = "*"
rustls = { version = "*", default-features = false, features = ["ring", "std", "tls12"] }
ruzstd = "*"
smoltcp = "*"
tokio = { version = "*", features = ["rt", "net", "io-util", "sync", "time", "macros"] }
tokio-boring = "*"
tokio-rustls = { version = "*", default-features = false, features = ["ring", "tls12"] }
tokio-util = { version = "*", features = ["rt"] }
webpki-root-certs = "*"
wintun-bindings = "*"
