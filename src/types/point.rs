//! A single position read on its own.
use vstd::prelude::*;
use crate::parser::{coord_at, number_at, parse_coord};
use crate::tokenizer::{Token, tokens_view};
use crate::types::{Coord, Dim};
use crate::ParseError;

verus! {

/// A point that has a position.
#[derive(Debug, Clone, PartialEq)]
pub struct Point {
    pub coord: Coord,
}

impl Point {
    /// Reads one coordinate of `dim`'s ordinates at `pos`, and gives the
    /// position after it. Fails where fewer numbers are there, or where a
    /// further number follows them.
    pub fn from_tokens(tokens: &Vec<Token>, pos: usize, dim: Dim) -> (r: Result<(Point, usize), ParseError>)
        ensures
            r is Ok <==> coord_at(tokens_view(tokens@), pos as int, dim) is Some,
            r matches Ok((pt, q)) ==> coord_at(tokens_view(tokens@), pos as int, dim) == Some((pt.coord@, q as int)),
            r matches Ok((_, q)) ==> !number_at(tokens_view(tokens@), q as int),
            r matches Err(e) ==> e == ParseError::Syntax,
    {
        match parse_coord(tokens, pos, dim) {
            Some((coord, q)) => Ok((Point { coord }, q)),
            None => Err(ParseError::Syntax),
        }
    }
}

} // verus!
