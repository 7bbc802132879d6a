[package]
name = "elfmalloc"
version = "0.1.0"
edition = "2021"
publish = false

[dependencies]
libc = "*"
sysconf = "*"
errno = "*"
lazy_static = "*"
bagpipe = "*"
bsalloc = "*"
object-alloc = "*"
