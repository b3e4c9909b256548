[package]
name = "zensr"
version = "0.1.0"
edition = "2021"
publish = false

[dependencies]
zenjpeg = "*"
zenpng = "*"
zenpixels = "*"
zenresize = "*"
enough = "*"
imgref = "*"
rgb = "*"
bytemuck = "*"
fast-ssim2 = "*"
butteraugli = "*"
zensim = "*"
rayon = "*"
