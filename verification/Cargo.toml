[package]
name = "image_dds"
version = "0.1.0"
edition = "2021"
publish = false

[dependencies]
bcdec_rs = "=0.2.1"
bcndecode-sys = "=0.1.2"
bytemuck = "=1.25.2"
half = "=2.7.1"
intel_tex_2 = "=0.5.0"
link-cplusplus = "=1.0.12"
