//! Editing model for opencode configuration files: agents, providers and
//! their models, read from and written back to a JSON document.
pub mod json;
pub mod text;
pub mod decimal;
pub mod util;
pub mod model;
pub mod ui;
pub mod document;
pub mod editing;
pub mod roundtrip;
