//! Paths on the wire.
//!
//! A path travels as the string that displays it. Both sides refuse a path with more than
//! [`Path::MAX_PARTS`] parts.
use crate::model;
use crate::path::{Path, PathOwned};
use vstd::prelude::*;

verus! {

/// Why a path cannot be encoded.
#[derive(Clone, Copy, PartialEq, Eq, Structural, Debug)]
pub enum EncodeError {
    /// The path has too many parts.
    BoundsExceeded,
}

/// Why a string cannot be decoded as a path.
#[derive(Clone, Copy, PartialEq, Eq, Structural, Debug)]
pub enum DecodeError {
    /// The path has too many parts.
    BoundsExceeded,
}

/// What a path is encoded as.
pub open spec fn encoded(ps: Seq<Seq<char>>) -> Result<Seq<char>, EncodeError> {
    if ps.len() > Path::MAX_PARTS {
        Err(EncodeError::BoundsExceeded)
    } else {
        Ok(model::joined(ps))
    }
}

/// What a string is decoded as.
pub open spec fn decoded(s: Seq<char>) -> Result<Seq<Seq<char>>, DecodeError> {
    if model::parts_of(s).len() > Path::MAX_PARTS {
        Err(DecodeError::BoundsExceeded)
    } else {
        Ok(model::parts_of(s))
    }
}

impl<'a> Path<'a> {
    /// The string to send for this path, or an error if the path has too many parts.
    pub fn encode(&self) -> (r: Result<String, EncodeError>)
        ensures
            match (r, encoded(self@)) {
                (Ok(s), Ok(t)) => s@ == t,
                (Err(e), Err(f)) => e == f,
                _ => false,
            },
            r is Ok <==> self@.len() <= 32,
            r matches Ok(s) ==> s@ == model::joined(self@),
            r matches Err(e) ==> e == EncodeError::BoundsExceeded,
    {
        if self.part_count() > Path::MAX_PARTS {
            return Err(EncodeError::BoundsExceeded);
        }
        Ok(self.to_string())
    }

    /// The path that a received string stands for, or an error if it has too many parts.
    pub fn decode(s: String) -> (r: Result<PathOwned, DecodeError>)
        ensures
            match (r, decoded(s@)) {
                (Ok(p), Ok(ps)) => {
                    &&& p@ == ps
                    &&& p.is_shared() == (ps.len() > 0)
                    &&& model::display_len(p@) <= usize::MAX
                },
                (Err(e), Err(f)) => e == f,
                _ => false,
            },
            r is Ok <==> model::parts_of(s@).len() <= 32,
            r matches Ok(p) ==> p@ == model::parts_of(s@),
            r matches Err(e) ==> e == DecodeError::BoundsExceeded,
    {
        let path: PathOwned = Path::from(s);
        if path.part_count() > Path::MAX_PARTS {
            return Err(DecodeError::BoundsExceeded);
        }
        Ok(path)
    }
}

} // verus!
