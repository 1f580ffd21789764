[package]
name = "kotha"
version = "0.1.0"
edition = "2021"
publish = false

[dependencies]
anyhow = "=1.0.104"
arboard = "=3.7.0"
cpal = "=0.18.2"
ct2rs = { version = "=0.10.3", default-features = false, features = ["ruy", "tokenizers"] }
earshot = "=1.2.2"
enigo = { version = "=0.6.1", default-features = false, features = ["libei_tokio", "wayland", "x11rb"] }
global-hotkey = "=0.9.0"
hound = "=3.5.1"
libc = "=0.2.191"
mel_spec = "=0.5.0"
ndarray = "=0.16.1"
num_cpus = "=1.17.0"
rubato = "=5.0.1"
rustfft = "=6.4.1"
serde_json = "=1.0.154"
sha2 = "=0.11.1"
ureq = "=3.5.1"
