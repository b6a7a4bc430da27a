//! A formatter for structured comments: comments that open a block with
//! `>`, continue it with `<>` and close it with `<` right after the line
//! comment starter. `strfmt` holds the three text transformations; the
//! other modules hold the line model they are stated over, the steps of
//! each transformation and the properties proved of them.

pub mod text;
pub mod lines;
pub mod comments;
pub mod languages;
pub mod format;
pub mod brackets;
pub mod add;
pub mod strfmt;
pub mod laws;
pub mod blocks;
pub mod balance;
pub mod unmarked;
pub mod removal;
pub mod roundtrip;
pub mod marks;
pub mod closers;
