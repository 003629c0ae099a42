[package]
name = "whatsapp_esp32"
version = "0.1.0"
edition = "2021"
publish = false

[dependencies]
anyhow = "1"
base64 = "0.22"
bytes = "1"
embedded-svc = "*"
enumset = "1"
esp-idf-svc = "*"
futures = "0.3"
log = "0.4"
serde_json = "1"
sha1 = "0.10"
sha2 = "0.10"
whatsapp-rust = { version = "*", default-features = false }
