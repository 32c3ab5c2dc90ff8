//! String interning with stable `u32` indices.
//!
//! A [`UniqueStrStore`] holds each distinct string once and hands out an index for it that never
//! changes. What a store holds is modelled as a sequence of texts ([`contents`]); what holds of
//! every store is proved in [`laws`] and [`storing_laws`], and of every tokenized string in
//! [`token_laws`].
pub mod contents;
pub mod digits;
pub mod error;
pub mod handles;
pub mod hex;
pub mod index;
pub mod integer;
pub mod laws;
pub mod order;
pub mod pattern;
pub mod regex_token;
pub mod show;
pub mod split;
pub mod store;
pub mod storing_laws;
pub mod text;
pub mod token;
pub mod token_laws;
pub mod validate;

pub use contents::LATIN1_NUM;
pub use error::{StringStoreError, StringStoreResult};
pub use handles::{Character, CompactStr, StoredStr, StoredStrPtr};
pub use hex::{Hex, HexFormat};
pub use integer::Integer;
pub use regex_token::tokenize_regex;
pub use store::{return_iso8859_1_cp, UniqueStrStore, PATH_SEP};
pub use token::{tokenize, Token};
