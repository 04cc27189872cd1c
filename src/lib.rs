//! Reading and writing geometry in Well-Known Text (WKT).
//!
//! Text is split into tokens, tokens are read into a [`Geometry`] by
//! recursive descent, and a geometry is written back as canonical text.
//! Ordinates are kept as the decimal text they were read from.
//!
//! Dimension: a geometry's coordinates have two ordinates unless a tag
//! after the kind word says otherwise: `Z` (three, the third an altitude),
//! `M` (three, the third a measure) or `ZM` (four). Every coordinate of the
//! geometry must have exactly that many, so `POINT (10 -20 40)` and
//! `LINESTRING (1 2 3, 4 5 6)` are rejected while `POINT Z (10 -20 40)` is
//! read. A collection takes no tag; each member carries its own.
//!
//! Trailing input: the whole text is split into tokens first, so a
//! character that starts no token fails the text wherever it stands. Tokens
//! after the first complete geometry are then not read:
//! `POINT (1 2) )` is read as the point, `POINT (1 2) #` fails.
use vstd::prelude::*;

pub mod tokenizer;
pub mod types;
pub mod parser;
pub mod writer;
pub mod round_trip;
pub mod case;

pub use types::{Coord, Dim, Geometry};
pub use types::point::Point;

use tokenizer::{lex, tokenize};
use parser::{geometry_at, parse_geometry};
use types::SpecGeometry;

verus! {

/// Why a text is not a geometry.
#[derive(Debug, Clone, Copy, PartialEq, Eq, Structural)]
pub enum ParseError {
    /// A character at this position starts no token, or starts a malformed
    /// number.
    Lexical(usize),
    /// The tokens do not begin with a geometry: a keyword, a parenthesis, a
    /// comma or an ordinate is missing or out of place, or a coordinate has
    /// a number of ordinates other than its geometry's dimension.
    Syntax,
}

/// The geometry that a text begins with, if any. Tokens after the first
/// complete geometry are not read.
pub open spec fn parse_text(s: Seq<char>) -> Option<SpecGeometry> {
    match lex(s) {
        Some(t) => match geometry_at(t, 0) {
            Some((g, _)) => Some(g),
            None => None,
        },
        None => None,
    }
}

/// A whole WKT document: one geometry.
#[derive(Debug, PartialEq)]
pub struct Wkt(pub Geometry);

impl Wkt {
    /// Reads the geometry that `s` holds. Text after the first complete
    /// geometry is lexed but not read. A lexical error gives the first
    /// position at which lexing fails. Nested collections are read by
    /// recursion: the call stack grows by a few frames for each level of
    /// nesting.
    pub fn from_str(s: &str) -> (r: Result<Wkt, ParseError>)
        ensures
            r is Ok <==> parse_text(s@) is Some,
            r matches Ok(w) ==> parse_text(s@) == Some(w.0@),
            r matches Err(ParseError::Lexical(p)) ==> lex(s@) is None && p < s@.len()
                && p == tokenizer::error_position(s@, 0),
            r matches Err(ParseError::Syntax) ==> lex(s@) is Some,
    {
        match tokenize(s) {
            Ok(t) => match parse_geometry(&t, 0) {
                Some((g, _)) => Ok(Wkt(g)),
                None => Err(ParseError::Syntax),
            },
            Err(p) => Err(ParseError::Lexical(p)),
        }
    }

    /// The canonical WKT text of the geometry.
    pub fn to_wkt(&self) -> (r: String)
        ensures
            r@ == writer::geometry_text(self.0@),
    {
        self.0.to_wkt()
    }
}

} // verus!
