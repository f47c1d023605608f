//! Simultaneous replacement of several literal patterns in one string.
//!
//! [`multi_replace`] takes a source and an ordered list of pairs, each a
//! pattern and its replacement, and gives the source with the patterns
//! replaced, all at once: every pattern is searched in the untouched source,
//! the occurrences that are kept never overlap, and replacement text is
//! never searched again. Where occurrences overlap, the pattern that stands
//! earlier in the list wins. [`exchange`] swaps two patterns for each other.
//!
//! The work is done in two steps, [`resolve::resolve`] and
//! [`render::render`], over byte offsets into the source. What they compute
//! is defined for sequences of any kind of element: [`matching::occurrences`]
//! are the occurrences of one pattern, [`resolve::resolved`] the occurrences
//! kept for a list, [`render::rendered`] the output. [`encoding`] shows that
//! replacing in the bytes of a text and replacing in its characters come to
//! the same, [`priority`] states what holds of the kept occurrences,
//! [`symmetry`] when the two patterns of a swap may change places, and
//! [`undo`] when a second replacement takes the first one back.

pub mod boundary;
pub mod encoding;
pub mod exchange;
pub mod matching;
pub mod priority;
pub mod render;
pub mod replace;
pub mod resolve;
pub mod symmetry;
pub mod undo;

pub use exchange::exchange;
pub use replace::multi_replace;
pub use resolve::Occurrence;
