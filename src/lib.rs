//! A growable byte buffer that reads as a sequence of user-perceived text
//! units: single ASCII bytes, multi-byte codepoints, or short runs of
//! codepoints that belong together (an emoji with its modifiers and joiners,
//! a base character with its variation selector).
pub mod heuristics;
pub mod internal;
pub mod laws;
pub mod stream;

pub use internal::{
    get_byte_at_index, get_byte_slice_of, get_str_slice_of, get_utf8_at_index,
    is_ascii_printable_byte, is_not_ascii_byte,
};
pub use stream::Utf8Stream;
