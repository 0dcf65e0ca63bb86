[package]
name = "plume_signer"
version = "0.1.0"
edition = "2021"
publish = false

[dependencies]
plist = "=1.7.4"
pem = "=3.0.6"
pem-rfc7468 = "=0.7.0"
rcgen = "=0.12.1"
rsa = "=0.9.10"
x509-certificate = "=0.23.1"
