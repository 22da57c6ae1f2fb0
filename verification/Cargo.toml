[package]
name = "quicksearch_core"
version = "0.1.0"
edition = "2021"
publish = false

[dependencies]
cfb = "=0.16.0"
encoding_rs = "=0.8.44"
kamadak-exif = "=0.6.1"
lofty = "=0.22.4"
notify = "=6.1.1"
pdf-extract = "=0.12.1"
quick-xml = "=0.41.0"
rtf-parser = "=0.4.3"
rusqlite = { version = "=0.41.1", features = ["bundled"] }
sha2 = "=0.10.9"
walkdir = "=2.5.0"
windows-sys = { version = "=0.52.0", features = ["Win32_Foundation", "Win32_Storage_FileSystem", "Win32_Security"] }
zip = { version = "=0.6.6", default-features = false, features = ["deflate"] }
