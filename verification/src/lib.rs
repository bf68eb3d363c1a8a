//! Three small, pure helpers over borrowed data, each with a proved contract:
//! the largest element of a slice, the longer of two strings, and the first
//! word of a string.

pub mod largest;
pub mod text;

pub use largest::largest;
pub use largest::Error;
pub use text::str_longest;
pub use text::first_word;
