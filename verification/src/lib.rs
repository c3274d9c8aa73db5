//! Reading SUSY Les Houches Accord (SLHA) files.
//!
//! An SLHA file is read either into an `Slha` object, whose blocks are looked up by name and
//! read into the desired type on demand, or into a type that implements `SlhaDeserialize`.
pub mod text;
pub mod errors;
pub mod number;
pub mod parseable;
pub mod block;
pub mod internal;
pub mod slha;
pub mod modifier;
pub mod parse_result;
pub mod deserialize;

pub use crate::block::{Block, BlockSingle, BlockStr, Line, RawBlock, SlhaBlock};
pub use crate::internal::{Decay, DecayTable};
pub use crate::parseable::{Parseable, ParseableWord, Real};
pub use crate::slha::{Slha, SlhaDeserialize};
