//! Deploying signed release bundles to a small machine.

pub mod admin;
pub mod archive;
pub mod bundle;
pub mod ci;
pub mod course;
pub mod deploy;
pub mod external;
pub mod hexadecimal;
pub mod hmac;
pub mod manifest;
pub mod number;
pub mod order;
pub mod path;
pub mod project;
pub mod release;
pub mod request;
pub mod run;
pub mod settings;
pub mod systemd;
pub mod text;
