//! Lazy splitting of a text on a fixed delimiter.
//!
//! [`StrSplit`] walks over a text and hands out, call by call, the items that
//! lie between the occurrences of a delimiter. The items are slices of the
//! text itself. What it hands out is stated over plain sequences of
//! characters:
//!
//! - [`occurrence`] says what it means for a needle to occur in a sequence,
//!   and which occurrence is the leftmost;
//! - [`pieces`] defines the items of a text and proves what holds of them:
//!   joined with the delimiter they give the text back, and they are one more
//!   than the delimiters;
//! - [`search`] finds the leftmost occurrence in the bytes of a text;
//! - [`encoding`] shows that an occurrence among the bytes of a text is an
//!   occurrence among its characters;
//! - [`splitter`] holds the splitter and what holds of its steps.

pub mod encoding;
pub mod occurrence;
pub mod pieces;
pub mod search;
pub mod splitter;

pub use splitter::StrSplit;
