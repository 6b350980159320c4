//! The logic of a terminal viewer for JSON documents far larger than memory: finding
//! values in raw bytes, the lazy tree over them, searching and filtering, inferred types,
//! and everything that a key does to what is on the screen.

pub mod appearing;
pub mod cards;
pub mod channel;
pub mod clip;
pub mod columns;
pub mod comparing;
pub mod control;
pub mod extract;
pub mod filter;
pub mod finding;
pub mod grammar;
pub mod input;
pub mod json;
pub mod keys;
pub mod landing;
pub mod layout;
pub mod listing;
pub mod literals;
pub mod moving;
pub mod names;
pub mod numbers;
pub mod outline;
pub mod overlay;
pub mod paint;
pub mod pane;
pub mod paths;
pub mod picking;
pub mod pressing;
pub mod program;
pub mod prompts;
pub mod quoting;
pub mod reaching;
pub mod reopening;
pub mod rows;
pub mod scanner;
pub mod schema;
pub mod search;
pub mod selection;
pub mod session;
pub mod showing;
pub mod stream;
pub mod table;
pub mod text;
pub mod tree;
pub mod typing;
pub mod unfolding;
pub mod wording;
pub mod worker;
