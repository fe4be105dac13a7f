//! Renders a small bracket markup for colored terminal text.
//!
//! A template is plain text interspersed with directives `{fg,bg:content}`,
//! where `fg` and `bg` are 256-color indices and `content` may itself hold
//! nested directives. [`generate`] turns such a template into a string of
//! SGR escape sequences, optionally wrapped in the zero-width markers that
//! line-editing shells need to compute the visible prompt width.

pub mod codes;
pub mod laws;
pub mod meta;
pub mod scan;

pub use codes::Escape;
pub use codes::Piece;
pub use codes::Shell;
pub use meta::MetaError;
pub use meta::NumError;
pub use meta::Section;
pub use scan::generate;
