//! Marshalling primitives for exchanging values with an embedded, stack-based
//! interpreter across a C-compatible boundary.
//!
//! The crate has two halves:
//!
//! - [`string::NvimString`]: an owned, heap-allocated, null-terminated byte
//!   string. Its bytes may contain embedded zero bytes and need not be valid
//!   UTF-8. The type maintains the layout discipline the host expects: a data
//!   allocation of exactly `len + 1` bytes whose last byte is the terminator,
//!   or the null sentinel for the empty string.
//! - [`lua`]: the push/pop protocol that moves native values onto and off the
//!   interpreter's evaluation stack, with exact error reporting and a
//!   depth-restoring unwind on failure.
//!
//! Strict text conversions reject both malformed UTF-8 and embedded zero
//! bytes (a zero byte cannot survive a C string boundary); the lossy
//! conversion replaces each maximal ill-formed subpart, and each embedded
//! zero byte, with one U+FFFD.

pub mod error;
pub mod lua;
pub mod string;
pub mod text;
