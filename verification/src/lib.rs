//! Serving a Ragnarok Online client's assets: the GRF archive format, its
//! block cipher, and the lookup rules that decide which copy of a file wins.
use vstd::prelude::*;

pub mod ascii;
pub mod bits;
pub mod cache;
pub mod client;
pub mod des;
pub mod filter;
pub mod fnv;
pub mod grf;
pub mod http;
pub mod ini;
pub mod keyed;
pub mod lex;
pub mod paths;
pub mod text;
pub mod zlib;

verus! {

} // verus!
