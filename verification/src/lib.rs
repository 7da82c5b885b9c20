//! Parsing of CSS style sheets and HTML documents, selector matching and
//! computation of the styles that apply to each node of a document.

pub mod text;
pub mod css_logic;
pub mod html_logic;
pub mod style_logic;
pub mod laws;

pub use html_logic::{parse_html, walk};
