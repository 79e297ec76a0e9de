//! A content-addressed object store: typed, hashed, compressed objects and
//! the canonical tree and commit payloads built on top of them.
pub mod bytes;
pub mod decimal;
pub mod codec;
pub mod hexcode;
pub mod object;
pub mod tree;
pub mod commit;
pub mod canonical;
