//! Generates Rust source from a resolved interface definition.
pub mod backend;
pub mod check_laws;
pub mod codegen;
pub mod context;
pub mod laws;
pub mod module_laws;
pub mod modules;
pub mod pkgs;
pub mod preflight;
pub mod render;
pub mod render_laws;
pub mod rir;
pub mod scalar;
mod scalar_lemmas;
pub mod text;
pub mod text_laws;
pub mod view_laws;
