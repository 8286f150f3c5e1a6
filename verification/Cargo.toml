[package]
name = "stego"
version = "0.1.0"
edition = "2021"
publish = false

[dependencies]
image = "0.25"
aes-gcm = "0.10"
sha2 = "0.10"
rand = "0.8"
actix-web = "4"
actix-cors = "0.7"
actix-multipart = "0.6"
futures-util = "0.3"
bytes = "1"
