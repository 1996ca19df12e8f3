[package]
name = "course_projects"
version = "0.1.0"
edition = "2021"
publish = false

[dependencies]
tarpc = "0.35"
tokio = { version = "1", features = ["macros", "rt-multi-thread"] }
