//! Side-by-side paragraph diff of two document versions, rendered as a single HTML report.
//!
//! Documents become lists of [`extract::Block`]s (PDF page text through `extract`, Office
//! files and CSV through `office`), two block lists become report rows through `diffing`,
//! and the rows become the HTML page through `report`.
pub mod text;
pub mod extract;
pub mod slides;
pub mod office;
pub mod align;
pub mod diffing;
pub mod diff_laws;
pub mod template;
pub mod report;
