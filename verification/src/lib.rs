//! Inspection library for an X11-style window manager: a small rule language
//! (tokenizer, parser, rule evaluation), a wildcard matcher, compiled-rule
//! artifact codecs, a window-stack diff cache, and output formatting helpers.

pub mod codec;
pub mod colorized;
pub mod error;
pub mod filter;
pub mod sheets;
pub mod stack_diff;
pub mod state;
pub mod text;
pub mod types;
pub mod util;
pub mod wildcard;
