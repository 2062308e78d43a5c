//! Gust: the git object model, pack files and pack protocol of a monorepo
//! platform, with their byte formats specified and proved.

pub mod errors;
pub mod utils;
pub mod text;
pub mod hash;
pub mod zlib;
pub mod object;
pub mod git;
pub mod pack;
pub mod idx;
pub mod protocol;
pub mod lfs;
pub mod gateway;

use vstd::prelude::*;

verus! {

} // verus!
