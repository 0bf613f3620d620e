//! Cost-ordered synthesis of regular expressions from positive and negative
//! example strings.
//!
//! A [`state::State`] is a partial pattern: text in which the four characters
//! `\x00` mark a position that is still open. The search starts from `^\x00$`,
//! repeatedly takes the cheapest pending state from a [`queue::Queue`], and
//! either tests it against the examples (when nothing is open any more) or
//! replaces an open position by each entry of the rule table.
pub mod text;
pub mod state;
pub mod spans;
pub mod rules;
pub mod edit;
pub mod nesting;
pub mod queue;
pub mod visited;
pub mod matcher;
pub mod extend;
pub mod prune;
pub mod search;
pub mod examples;
