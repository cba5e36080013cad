//! Turns the lowercased multi-line text read off a shop receipt into a
//! structured list of purchased items, each a name with a price, plus a
//! reconciled total.
//!
//! The pipeline has two stages: [`sort_lines`] isolates the relevant block
//! of lines out of the noisy line-oriented text, and [`sort_items`]
//! tokenizes those lines into name/price pairs and reconciles a final
//! total when the printed total line itself was not captured.

pub mod chars;
pub mod extract;
pub mod filter;
pub mod laws;
pub mod price;
pub mod text;

pub use extract::sort_items;
pub use extract::Item;
pub use filter::sort_lines;
pub use price::ExtractError;

