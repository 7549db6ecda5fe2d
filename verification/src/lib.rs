//! Rewrites terse terminal-multiplexer session-layout documents: verbose
//! editor-launch commands become short canonical invocations, and commands in
//! specially marked tabs are wrapped in an environment-loading launcher.

pub mod cli;
pub mod document;
pub mod kdl;
pub mod laws;
pub mod nvim;
