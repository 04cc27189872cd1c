//! Recursive-descent reading of geometry from WKT tokens.
//!
//! Each `*_at` / `*_body` spec function describes what the grammar reads at a
//! token position: the value and the position just after it, or `None`. The
//! executable readers are proved to compute exactly these.
use vstd::prelude::*;
use crate::tokenizer::{SpecToken, Token, tokens_view};
use crate::types::{
    Coord, Dim, Geometry, SpecCoord, SpecGeometry, coords_view, lemma_geometries_upto, point_view,
    points_view, polygons_view, rings_view,
};

verus! {

broadcast use vstd::std_specs::vec::group_vec_axioms;

pub open spec fn prepend_all<X>(a: Seq<X>, r: Option<(Seq<X>, int)>) -> Option<(Seq<X>, int)> {
    match r {
        Some((s, q)) => Some((a + s, q)),
        None => None,
    }
}

pub open spec fn prepend<X>(x: X, r: Option<(Seq<X>, int)>) -> Option<(Seq<X>, int)> {
    prepend_all(seq![x], r)
}

proof fn lemma_prepend_push<X>(a: Seq<X>, x: X, r: Option<(Seq<X>, int)>)
    ensures
        prepend_all(a, prepend(x, r)) == prepend_all(a.push(x), r),
{
    match r {
        Some((s, q)) => {
            assert(a + (seq![x] + s) =~= a.push(x) + s);
        },
        None => {},
    }
}

proof fn lemma_prepend_empty<X>(a: Seq<X>, q: int)
    ensures
        prepend_all(a, Some((Seq::<X>::empty(), q))) == Some((a, q)),
{
    assert(a + Seq::<X>::empty() =~= a);
}

pub open spec fn tok_is(t: Seq<SpecToken>, p: int, k: SpecToken) -> bool {
    0 <= p < t.len() && t[p] == k
}

/// `a` is the letter `b`, or its lower-case form.
pub open spec fn same_letter(a: char, b: char) -> bool {
    a == b || ('a' <= a && a <= 'z' && (a as u32) == (b as u32) + 32)
}

/// The word `w` spells the upper-case keyword `k`, in any case.
pub open spec fn same_word(w: Seq<char>, k: Seq<char>) -> bool {
    &&& w.len() == k.len()
    &&& forall|i: int| 0 <= i < w.len() ==> #[trigger] same_letter(w[i], k[i])
}

pub open spec fn keyword_at(t: Seq<SpecToken>, p: int, k: Seq<char>) -> bool {
    0 <= p < t.len() && t[p] is Word && same_word(t[p]->Word_0, k)
}

pub open spec fn number_at(t: Seq<SpecToken>, p: int) -> bool {
    0 <= p < t.len() && t[p] is Number
}

pub open spec fn number_text(t: Seq<SpecToken>, p: int) -> Seq<char> {
    t[p]->Number_0
}

/// The number of ordinates of one coordinate.
pub open spec fn ordinates(d: Dim) -> int {
    match d {
        Dim::XY => 2,
        Dim::XYZ => 3,
        Dim::XYM => 3,
        Dim::XYZM => 4,
    }
}

/// The numbers of one coordinate of dimension `d`, from `p`.
pub open spec fn ordinates_at(t: Seq<SpecToken>, p: int, d: Dim) -> Option<(SpecCoord, int)> {
    if number_at(t, p) && number_at(t, p + 1) && (ordinates(d) >= 3 ==> number_at(t, p + 2)) && (
    ordinates(d) == 4 ==> number_at(t, p + 3)) {
        let c = SpecCoord {
            x: number_text(t, p),
            y: number_text(t, p + 1),
            z: match d {
                Dim::XYZ => Some(number_text(t, p + 2)),
                Dim::XYZM => Some(number_text(t, p + 2)),
                _ => None,
            },
            m: match d {
                Dim::XYM => Some(number_text(t, p + 2)),
                Dim::XYZM => Some(number_text(t, p + 3)),
                _ => None,
            },
        };
        Some((c, p + ordinates(d)))
    } else {
        None
    }
}

/// One coordinate: exactly as many numbers as `d` asks for, and no further
/// number after them (a coordinate has at most four ordinates, and never
/// more than its dimension gives).
pub open spec fn coord_at(t: Seq<SpecToken>, p: int, d: Dim) -> Option<(SpecCoord, int)> {
    match ordinates_at(t, p, d) {
        Some((c, q)) => if number_at(t, q) {
            None
        } else {
            Some((c, q))
        },
        None => None,
    }
}

/// The body of a point: `EMPTY`, or one parenthesized coordinate.
pub open spec fn point_body(t: Seq<SpecToken>, p: int, d: Dim) -> Option<(Option<SpecCoord>, int)> {
    if keyword_at(t, p, "EMPTY"@) {
        Some((None, p + 1))
    } else if tok_is(t, p, SpecToken::LParen) {
        match coord_at(t, p + 1, d) {
            Some((c, q)) => if tok_is(t, q, SpecToken::RParen) {
                Some((Some(c), q + 1))
            } else {
                None
            },
            None => None,
        }
    } else {
        None
    }
}

/// A member of a multipoint: `EMPTY`, a parenthesized coordinate, or a bare one.
pub open spec fn member_at(t: Seq<SpecToken>, p: int, d: Dim) -> Option<(Option<SpecCoord>, int)> {
    if keyword_at(t, p, "EMPTY"@) || tok_is(t, p, SpecToken::LParen) {
        point_body(t, p, d)
    } else {
        match coord_at(t, p, d) {
            Some((c, q)) => Some((Some(c), q)),
            None => None,
        }
    }
}

/// The optional dimension tag after a kind word, and the position after it.
pub open spec fn dim_at(t: Seq<SpecToken>, p: int) -> (Dim, int) {
    if keyword_at(t, p, "Z"@) {
        (Dim::XYZ, p + 1)
    } else if keyword_at(t, p, "M"@) {
        (Dim::XYM, p + 1)
    } else if keyword_at(t, p, "ZM"@) {
        (Dim::XYZM, p + 1)
    } else {
        (Dim::XY, p)
    }
}

pub open spec fn coord_result(r: Option<(Coord, usize)>) -> Option<(SpecCoord, int)> {
    match r {
        Some((c, q)) => Some((c@, q as int)),
        None => None,
    }
}

pub open spec fn point_result(r: Option<(Option<Coord>, usize)>) -> Option<(Option<SpecCoord>, int)> {
    match r {
        Some((c, q)) => Some((point_view(c), q as int)),
        None => None,
    }
}

pub open spec fn geometry_result(r: Option<(Geometry, usize)>) -> Option<(SpecGeometry, int)> {
    match r {
        Some((g, q)) => Some((g@, q as int)),
        None => None,
    }
}

pub open spec fn geometries_view(v: Seq<Geometry>) -> Seq<SpecGeometry> {
    v.map_values(|g: Geometry| g@)
}

pub open spec fn coords_tail(t: Seq<SpecToken>, p: int, d: Dim) -> Option<(Seq<SpecCoord>, int)>
    decreases t.len() - p,
{
    if tok_is(t, p, SpecToken::Comma) {
        match coord_at(t, p + 1, d) {
            Some((e, q)) => if p < q <= t.len() {
                prepend(e, coords_tail(t, q, d))
            } else {
                None
            },
            None => None,
        }
    } else if tok_is(t, p, SpecToken::RParen) {
        Some((seq![], p + 1))
    } else {
        None
    }
}

/// `EMPTY`, or a parenthesized, comma-separated, non-empty list.
pub open spec fn coords_body(t: Seq<SpecToken>, p: int, d: Dim) -> Option<(Seq<SpecCoord>, int)>
    decreases t.len() - p,
{
    if keyword_at(t, p, "EMPTY"@) {
        Some((seq![], p + 1))
    } else if tok_is(t, p, SpecToken::LParen) {
        match coord_at(t, p + 1, d) {
            Some((e, q)) => if p < q <= t.len() {
                prepend(e, coords_tail(t, q, d))
            } else {
                None
            },
            None => None,
        }
    } else {
        None
    }
}

pub open spec fn coords_result(r: Option<(Vec<Coord>, usize)>) -> Option<(Seq<SpecCoord>, int)> {
    match r {
        Some((v, q)) => Some((coords_view(v@), q as int)),
        None => None,
    }
}

pub open spec fn rings_tail(t: Seq<SpecToken>, p: int, d: Dim) -> Option<(Seq<Seq<SpecCoord>>, int)>
    decreases t.len() - p,
{
    if tok_is(t, p, SpecToken::Comma) {
        match coords_body(t, p + 1, d) {
            Some((e, q)) => if p < q <= t.len() {
                prepend(e, rings_tail(t, q, d))
            } else {
                None
            },
            None => None,
        }
    } else if tok_is(t, p, SpecToken::RParen) {
        Some((seq![], p + 1))
    } else {
        None
    }
}

/// `EMPTY`, or a parenthesized, comma-separated, non-empty list.
pub open spec fn rings_body(t: Seq<SpecToken>, p: int, d: Dim) -> Option<(Seq<Seq<SpecCoord>>, int)>
    decreases t.len() - p,
{
    if keyword_at(t, p, "EMPTY"@) {
        Some((seq![], p + 1))
    } else if tok_is(t, p, SpecToken::LParen) {
        match coords_body(t, p + 1, d) {
            Some((e, q)) => if p < q <= t.len() {
                prepend(e, rings_tail(t, q, d))
            } else {
                None
            },
            None => None,
        }
    } else {
        None
    }
}

pub open spec fn rings_result(r: Option<(Vec<Vec<Coord>>, usize)>) -> Option<(Seq<Seq<SpecCoord>>, int)> {
    match r {
        Some((v, q)) => Some((rings_view(v@), q as int)),
        None => None,
    }
}

pub open spec fn polygons_tail(t: Seq<SpecToken>, p: int, d: Dim) -> Option<(Seq<Seq<Seq<SpecCoord>>>, int)>
    decreases t.len() - p,
{
    if tok_is(t, p, SpecToken::Comma) {
        match rings_body(t, p + 1, d) {
            Some((e, q)) => if p < q <= t.len() {
                prepend(e, polygons_tail(t, q, d))
            } else {
                None
            },
            None => None,
        }
    } else if tok_is(t, p, SpecToken::RParen) {
        Some((seq![], p + 1))
    } else {
        None
    }
}

/// `EMPTY`, or a parenthesized, comma-separated, non-empty list.
pub open spec fn polygons_body(t: Seq<SpecToken>, p: int, d: Dim) -> Option<(Seq<Seq<Seq<SpecCoord>>>, int)>
    decreases t.len() - p,
{
    if keyword_at(t, p, "EMPTY"@) {
        Some((seq![], p + 1))
    } else if tok_is(t, p, SpecToken::LParen) {
        match rings_body(t, p + 1, d) {
            Some((e, q)) => if p < q <= t.len() {
                prepend(e, polygons_tail(t, q, d))
            } else {
                None
            },
            None => None,
        }
    } else {
        None
    }
}

pub open spec fn polygons_result(r: Option<(Vec<Vec<Vec<Coord>>>, usize)>) -> Option<(Seq<Seq<Seq<SpecCoord>>>, int)> {
    match r {
        Some((v, q)) => Some((polygons_view(v@), q as int)),
        None => None,
    }
}

pub open spec fn members_tail(t: Seq<SpecToken>, p: int, d: Dim) -> Option<(Seq<Option<SpecCoord>>, int)>
    decreases t.len() - p,
{
    if tok_is(t, p, SpecToken::Comma) {
        match member_at(t, p + 1, d) {
            Some((e, q)) => if p < q <= t.len() {
                prepend(e, members_tail(t, q, d))
            } else {
                None
            },
            None => None,
        }
    } else if tok_is(t, p, SpecToken::RParen) {
        Some((seq![], p + 1))
    } else {
        None
    }
}

/// `EMPTY`, or a parenthesized, comma-separated, non-empty list.
pub open spec fn members_body(t: Seq<SpecToken>, p: int, d: Dim) -> Option<(Seq<Option<SpecCoord>>, int)>
    decreases t.len() - p,
{
    if keyword_at(t, p, "EMPTY"@) {
        Some((seq![], p + 1))
    } else if tok_is(t, p, SpecToken::LParen) {
        match member_at(t, p + 1, d) {
            Some((e, q)) => if p < q <= t.len() {
                prepend(e, members_tail(t, q, d))
            } else {
                None
            },
            None => None,
        }
    } else {
        None
    }
}

pub open spec fn members_result(r: Option<(Vec<Option<Coord>>, usize)>) -> Option<(Seq<Option<SpecCoord>>, int)> {
    match r {
        Some((v, q)) => Some((points_view(v@), q as int)),
        None => None,
    }
}

pub open spec fn geometries_tail(t: Seq<SpecToken>, p: int) -> Option<(Seq<SpecGeometry>, int)>
    decreases t.len() - p,
{
    if tok_is(t, p, SpecToken::Comma) {
        match geometry_at(t, p + 1) {
            Some((e, q)) => if p < q <= t.len() {
                prepend(e, geometries_tail(t, q))
            } else {
                None
            },
            None => None,
        }
    } else if tok_is(t, p, SpecToken::RParen) {
        Some((seq![], p + 1))
    } else {
        None
    }
}

/// `EMPTY`, or a parenthesized, comma-separated, non-empty list.
pub open spec fn geometries_body(t: Seq<SpecToken>, p: int) -> Option<(Seq<SpecGeometry>, int)>
    decreases t.len() - p,
{
    if keyword_at(t, p, "EMPTY"@) {
        Some((seq![], p + 1))
    } else if tok_is(t, p, SpecToken::LParen) {
        match geometry_at(t, p + 1) {
            Some((e, q)) => if p < q <= t.len() {
                prepend(e, geometries_tail(t, q))
            } else {
                None
            },
            None => None,
        }
    } else {
        None
    }
}

pub open spec fn geometries_result(r: Option<(Vec<Geometry>, usize)>) -> Option<(Seq<SpecGeometry>, int)> {
    match r {
        Some((v, q)) => Some((geometries_view(v@), q as int)),
        None => None,
    }
}

/// One tagged geometry: a kind word, an optional dimension tag, and the
/// body that the kind asks for.
pub open spec fn geometry_at(t: Seq<SpecToken>, p: int) -> Option<(SpecGeometry, int)>
    decreases t.len() - p,
{
    if !(0 <= p < t.len() && t[p] is Word) {
        None
    } else {
        let w = t[p]->Word_0;
        let (d, q) = dim_at(t, p + 1);
        if same_word(w, "POINT"@) {
            match point_body(t, q, d) {
                Some((c, r)) => Some((SpecGeometry::Point(c), r)),
                None => None,
            }
        } else if same_word(w, "LINESTRING"@) {
            match coords_body(t, q, d) {
                Some((v, r)) => Some((SpecGeometry::LineString(v), r)),
                None => None,
            }
        } else if same_word(w, "POLYGON"@) {
            match rings_body(t, q, d) {
                Some((v, r)) => Some((SpecGeometry::Polygon(v), r)),
                None => None,
            }
        } else if same_word(w, "POLYHEDRALSURFACE"@) {
            match polygons_body(t, q, d) {
                Some((v, r)) => Some((SpecGeometry::PolyhedralSurface(v), r)),
                None => None,
            }
        } else if same_word(w, "TRIANGLE"@) {
            match rings_body(t, q, d) {
                Some((v, r)) => Some((SpecGeometry::Triangle(v), r)),
                None => None,
            }
        } else if same_word(w, "TIN"@) {
            match polygons_body(t, q, d) {
                Some((v, r)) => Some((SpecGeometry::Tin(v), r)),
                None => None,
            }
        } else if same_word(w, "MULTIPOINT"@) {
            match members_body(t, q, d) {
                Some((v, r)) => Some((SpecGeometry::MultiPoint(v), r)),
                None => None,
            }
        } else if same_word(w, "MULTILINESTRING"@) {
            match rings_body(t, q, d) {
                Some((v, r)) => Some((SpecGeometry::MultiLineString(v), r)),
                None => None,
            }
        } else if same_word(w, "MULTIPOLYGON"@) {
            match polygons_body(t, q, d) {
                Some((v, r)) => Some((SpecGeometry::MultiPolygon(v), r)),
                None => None,
            }
        } else if same_word(w, "GEOMETRYCOLLECTION"@) {
            // A collection takes no dimension tag: its members carry their own.
            if q == p + 1 {
                match geometries_body(t, q) {
                    Some((v, r)) => Some((SpecGeometry::GeometryCollection(v), r)),
                    None => None,
                }
            } else {
                None
            }
        } else {
            None
        }
    }
}

fn same_letter_exec(a: char, b: char) -> (r: bool)
    ensures
        r == same_letter(a, b),
{
    a == b || ('a' <= a && a <= 'z' && (a as u32) - 32 == (b as u32))
}

/// Whether the word `w` spells the upper-case keyword `k`, in any case.
fn same_word_exec(w: &String, k: &str) -> (r: bool)
    ensures
        r == same_word(w@, k@),
{
    let ws = w.as_str();
    let n = ws.unicode_len();
    if n != k.unicode_len() {
        return false;
    }
    let mut i: usize = 0;
    while i < n
        invariant
            n == ws@.len(),
            n == k@.len(),
            ws@ == w@,
            i <= n,
            forall|j: int| 0 <= j < i ==> #[trigger] same_letter(w@[j], k@[j]),
        decreases n - i,
    {
        if !same_letter_exec(ws.get_char(i), k.get_char(i)) {
            return false;
        }
        i = i + 1;
    }
    true
}

fn keyword_at_exec(t: &Vec<Token>, p: usize, k: &str) -> (r: bool)
    ensures
        r ==> p < t.len(),
        r == keyword_at(tokens_view(t@), p as int, k@),
{
    if p >= t.len() {
        return false;
    }
    match &t[p] {
        Token::Word(w) => same_word_exec(w, k),
        _ => false,
    }
}

fn comma_at(t: &Vec<Token>, p: usize) -> (r: bool)
    ensures
        r ==> p < t.len(),
        r == tok_is(tokens_view(t@), p as int, SpecToken::Comma),
{
    p < t.len() && match &t[p] {
        Token::Comma => true,
        _ => false,
    }
}

fn lparen_at(t: &Vec<Token>, p: usize) -> (r: bool)
    ensures
        r ==> p < t.len(),
        r == tok_is(tokens_view(t@), p as int, SpecToken::LParen),
{
    p < t.len() && match &t[p] {
        Token::LParen => true,
        _ => false,
    }
}

fn rparen_at(t: &Vec<Token>, p: usize) -> (r: bool)
    ensures
        r ==> p < t.len(),
        r == tok_is(tokens_view(t@), p as int, SpecToken::RParen),
{
    p < t.len() && match &t[p] {
        Token::RParen => true,
        _ => false,
    }
}

fn number_at_exec(t: &Vec<Token>, p: usize) -> (r: Option<String>)
    ensures
        r is Some <==> number_at(tokens_view(t@), p as int),
        r is Some ==> p < t.len(),
        r matches Some(s) ==> s@ == number_text(tokens_view(t@), p as int),
{
    if p >= t.len() {
        return None;
    }
    match &t[p] {
        Token::Number(s) => Some(s.clone()),
        _ => None,
    }
}

/// Reads one coordinate of `d`'s ordinates at `p`, and fails where a
/// further number follows them.
pub fn parse_coord(t: &Vec<Token>, p: usize, d: Dim) -> (r: Option<(Coord, usize)>)
    ensures
        coord_result(r) == coord_at(tokens_view(t@), p as int, d),
        r matches Some((_, q)) ==> p < q <= t.len() && !number_at(tokens_view(t@), q as int),
{
    match read_ordinates(t, p, d) {
        Some((c, q)) => if number_at_exec(t, q).is_some() {
            None
        } else {
            Some((c, q))
        },
        None => None,
    }
}

/// Reads the numbers of one coordinate of dimension `d` at `p`.
fn read_ordinates(t: &Vec<Token>, p: usize, d: Dim) -> (r: Option<(Coord, usize)>)
    ensures
        coord_result(r) == ordinates_at(tokens_view(t@), p as int, d),
        r matches Some((_, q)) ==> p < q <= t.len(),
{
    let x = match number_at_exec(t, p) {
        Some(s) => s,
        None => return None,
    };
    let y = match number_at_exec(t, p + 1) {
        Some(s) => s,
        None => return None,
    };
    match d {
        Dim::XY => Some((Coord { x, y, z: None, m: None }, p + 2)),
        Dim::XYZ => match number_at_exec(t, p + 2) {
            Some(z) => Some((Coord { x, y, z: Some(z), m: None }, p + 3)),
            None => None,
        },
        Dim::XYM => match number_at_exec(t, p + 2) {
            Some(m) => Some((Coord { x, y, z: None, m: Some(m) }, p + 3)),
            None => None,
        },
        Dim::XYZM => {
            let z = match number_at_exec(t, p + 2) {
                Some(s) => s,
                None => return None,
            };
            match number_at_exec(t, p + 3) {
                Some(m) => Some((Coord { x, y, z: Some(z), m: Some(m) }, p + 4)),
                None => None,
            }
        },
    }
}

/// Reads the body of a point at `p`.
fn parse_point(t: &Vec<Token>, p: usize, d: Dim) -> (r: Option<(Option<Coord>, usize)>)
    ensures
        point_result(r) == point_body(tokens_view(t@), p as int, d),
        r matches Some((_, q)) ==> p < q <= t.len(),
{
    if keyword_at_exec(t, p, "EMPTY") {
        return Some((None, p + 1));
    }
    if !lparen_at(t, p) {
        return None;
    }
    match parse_coord(t, p + 1, d) {
        Some((c, q)) => if rparen_at(t, q) {
            Some((Some(c), q + 1))
        } else {
            None
        },
        None => None,
    }
}

/// Reads one member of a multipoint at `p`.
fn parse_member(t: &Vec<Token>, p: usize, d: Dim) -> (r: Option<(Option<Coord>, usize)>)
    ensures
        point_result(r) == member_at(tokens_view(t@), p as int, d),
        r matches Some((_, q)) ==> p < q <= t.len(),
{
    if keyword_at_exec(t, p, "EMPTY") || lparen_at(t, p) {
        parse_point(t, p, d)
    } else {
        match parse_coord(t, p, d) {
            Some((c, q)) => Some((Some(c), q)),
            None => None,
        }
    }
}

/// Reads the optional dimension tag at `p`.
fn parse_dim(t: &Vec<Token>, p: usize) -> (r: (Dim, usize))
    requires
        p <= t.len(),
    ensures
        (r.0, r.1 as int) == dim_at(tokens_view(t@), p as int),
{
    if keyword_at_exec(t, p, "Z") {
        (Dim::XYZ, p + 1)
    } else if keyword_at_exec(t, p, "M") {
        (Dim::XYM, p + 1)
    } else if keyword_at_exec(t, p, "ZM") {
        (Dim::XYZM, p + 1)
    } else {
        (Dim::XY, p)
    }
}

/// Reads one tagged geometry at `p`.
pub fn parse_geometry(t: &Vec<Token>, p: usize) -> (r: Option<(Geometry, usize)>)
    ensures
        geometry_result(r) == geometry_at(tokens_view(t@), p as int),
        r matches Some((_, q)) ==> p < q <= t.len(),
    decreases t.len() - p,
{
    if p >= t.len() {
        return None;
    }
    let w = match &t[p] {
        Token::Word(w) => w,
        _ => return None,
    };
    let (d, q) = parse_dim(t, p + 1);
    if same_word_exec(w, "POINT") {
        match parse_point(t, q, d) {
            Some((c, r)) => Some((Geometry::Point(c), r)),
            None => None,
        }
    } else if same_word_exec(w, "LINESTRING") {
        match parse_coords(t, q, d) {
            Some((v, r)) => Some((Geometry::LineString(v), r)),
            None => None,
        }
    } else if same_word_exec(w, "POLYGON") {
        match parse_rings(t, q, d) {
            Some((v, r)) => Some((Geometry::Polygon(v), r)),
            None => None,
        }
    } else if same_word_exec(w, "POLYHEDRALSURFACE") {
        match parse_polygons(t, q, d) {
            Some((v, r)) => Some((Geometry::PolyhedralSurface(v), r)),
            None => None,
        }
    } else if same_word_exec(w, "TRIANGLE") {
        match parse_rings(t, q, d) {
            Some((v, r)) => Some((Geometry::Triangle(v), r)),
            None => None,
        }
    } else if same_word_exec(w, "TIN") {
        match parse_polygons(t, q, d) {
            Some((v, r)) => Some((Geometry::Tin(v), r)),
            None => None,
        }
    } else if same_word_exec(w, "MULTIPOINT") {
        match parse_members(t, q, d) {
            Some((v, r)) => Some((Geometry::MultiPoint(v), r)),
            None => None,
        }
    } else if same_word_exec(w, "MULTILINESTRING") {
        match parse_rings(t, q, d) {
            Some((v, r)) => Some((Geometry::MultiLineString(v), r)),
            None => None,
        }
    } else if same_word_exec(w, "MULTIPOLYGON") {
        match parse_polygons(t, q, d) {
            Some((v, r)) => Some((Geometry::MultiPolygon(v), r)),
            None => None,
        }
    } else if same_word_exec(w, "GEOMETRYCOLLECTION") {
        if q != p + 1 {
            return None;
        }
        match parse_geometries(t, q) {
            Some((v, r)) => {
                let g = Geometry::GeometryCollection(v);
                proof {
                    let ghost gv = g@;
                    lemma_geometries_upto(&v, v@.len());
                    assert(gv->GeometryCollection_0 =~= geometries_view(v@));
                }
                Some((g, r))
            },
            None => None,
        }
    } else {
        None
    }
}

fn parse_coords(t: &Vec<Token>, p: usize, d: Dim) -> (r: Option<(Vec<Coord>, usize)>)
    ensures
        coords_result(r) == coords_body(tokens_view(t@), p as int, d),
        r matches Some((_, q)) ==> p < q <= t.len(),
{
    let ghost tv = tokens_view(t@);
    if keyword_at_exec(t, p, "EMPTY") {
        return Some((Vec::new(), p + 1));
    }
    if !lparen_at(t, p) {
        return None;
    }
    let (e, mut q) = match parse_coord(t, p + 1, d) {
        Some(x) => x,
        None => return None,
    };
    let mut acc: Vec<Coord> = Vec::new();
    acc.push(e);
    proof {
        assert(coords_view(acc@) =~= seq![e@]);
    }
    loop
        invariant
            tv == tokens_view(t@),
            coords_body(tv, p as int, d) == prepend_all(coords_view(acc@), coords_tail(tv, q as int, d)),
            p < q <= t.len(),
        decreases t.len() - q,
    {
        if comma_at(t, q) {
            match parse_coord(t, q + 1, d) {
                Some((e, q2)) => {
                    proof {
                        lemma_prepend_push(coords_view(acc@), e@, coords_tail(tv, q2 as int, d));
                    }
                    let ghost before = acc@;
                    acc.push(e);
                    proof {
                        assert(coords_view(acc@) =~= coords_view(before).push(e@));
                    }
                    q = q2;
                },
                None => return None,
            }
        } else if rparen_at(t, q) {
            proof {
                lemma_prepend_empty(coords_view(acc@), q + 1);
            }
            return Some((acc, q + 1));
        } else {
            return None;
        }
    }
}

fn parse_rings(t: &Vec<Token>, p: usize, d: Dim) -> (r: Option<(Vec<Vec<Coord>>, usize)>)
    ensures
        rings_result(r) == rings_body(tokens_view(t@), p as int, d),
        r matches Some((_, q)) ==> p < q <= t.len(),
{
    let ghost tv = tokens_view(t@);
    if keyword_at_exec(t, p, "EMPTY") {
        return Some((Vec::new(), p + 1));
    }
    if !lparen_at(t, p) {
        return None;
    }
    let (e, mut q) = match parse_coords(t, p + 1, d) {
        Some(x) => x,
        None => return None,
    };
    let mut acc: Vec<Vec<Coord>> = Vec::new();
    acc.push(e);
    proof {
        assert(rings_view(acc@) =~= seq![coords_view(e@)]);
    }
    loop
        invariant
            tv == tokens_view(t@),
            rings_body(tv, p as int, d) == prepend_all(rings_view(acc@), rings_tail(tv, q as int, d)),
            p < q <= t.len(),
        decreases t.len() - q,
    {
        if comma_at(t, q) {
            match parse_coords(t, q + 1, d) {
                Some((e, q2)) => {
                    proof {
                        lemma_prepend_push(rings_view(acc@), coords_view(e@), rings_tail(tv, q2 as int, d));
                    }
                    let ghost before = acc@;
                    acc.push(e);
                    proof {
                        assert(rings_view(acc@) =~= rings_view(before).push(coords_view(e@)));
                    }
                    q = q2;
                },
                None => return None,
            }
        } else if rparen_at(t, q) {
            proof {
                lemma_prepend_empty(rings_view(acc@), q + 1);
            }
            return Some((acc, q + 1));
        } else {
            return None;
        }
    }
}

fn parse_polygons(t: &Vec<Token>, p: usize, d: Dim) -> (r: Option<(Vec<Vec<Vec<Coord>>>, usize)>)
    ensures
        polygons_result(r) == polygons_body(tokens_view(t@), p as int, d),
        r matches Some((_, q)) ==> p < q <= t.len(),
{
    let ghost tv = tokens_view(t@);
    if keyword_at_exec(t, p, "EMPTY") {
        return Some((Vec::new(), p + 1));
    }
    if !lparen_at(t, p) {
        return None;
    }
    let (e, mut q) = match parse_rings(t, p + 1, d) {
        Some(x) => x,
        None => return None,
    };
    let mut acc: Vec<Vec<Vec<Coord>>> = Vec::new();
    acc.push(e);
    proof {
        assert(polygons_view(acc@) =~= seq![rings_view(e@)]);
    }
    loop
        invariant
            tv == tokens_view(t@),
            polygons_body(tv, p as int, d) == prepend_all(polygons_view(acc@), polygons_tail(tv, q as int, d)),
            p < q <= t.len(),
        decreases t.len() - q,
    {
        if comma_at(t, q) {
            match parse_rings(t, q + 1, d) {
                Some((e, q2)) => {
                    proof {
                        lemma_prepend_push(polygons_view(acc@), rings_view(e@), polygons_tail(tv, q2 as int, d));
                    }
                    let ghost before = acc@;
                    acc.push(e);
                    proof {
                        assert(polygons_view(acc@) =~= polygons_view(before).push(rings_view(e@)));
                    }
                    q = q2;
                },
                None => return None,
            }
        } else if rparen_at(t, q) {
            proof {
                lemma_prepend_empty(polygons_view(acc@), q + 1);
            }
            return Some((acc, q + 1));
        } else {
            return None;
        }
    }
}

fn parse_members(t: &Vec<Token>, p: usize, d: Dim) -> (r: Option<(Vec<Option<Coord>>, usize)>)
    ensures
        members_result(r) == members_body(tokens_view(t@), p as int, d),
        r matches Some((_, q)) ==> p < q <= t.len(),
{
    let ghost tv = tokens_view(t@);
    if keyword_at_exec(t, p, "EMPTY") {
        return Some((Vec::new(), p + 1));
    }
    if !lparen_at(t, p) {
        return None;
    }
    let (e, mut q) = match parse_member(t, p + 1, d) {
        Some(x) => x,
        None => return None,
    };
    let mut acc: Vec<Option<Coord>> = Vec::new();
    acc.push(e);
    proof {
        assert(points_view(acc@) =~= seq![point_view(e)]);
    }
    loop
        invariant
            tv == tokens_view(t@),
            members_body(tv, p as int, d) == prepend_all(points_view(acc@), members_tail(tv, q as int, d)),
            p < q <= t.len(),
        decreases t.len() - q,
    {
        if comma_at(t, q) {
            match parse_member(t, q + 1, d) {
                Some((e, q2)) => {
                    proof {
                        lemma_prepend_push(points_view(acc@), point_view(e), members_tail(tv, q2 as int, d));
                    }
                    let ghost before = acc@;
                    acc.push(e);
                    proof {
                        assert(points_view(acc@) =~= points_view(before).push(point_view(e)));
                    }
                    q = q2;
                },
                None => return None,
            }
        } else if rparen_at(t, q) {
            proof {
                lemma_prepend_empty(points_view(acc@), q + 1);
            }
            return Some((acc, q + 1));
        } else {
            return None;
        }
    }
}

fn parse_geometries(t: &Vec<Token>, p: usize) -> (r: Option<(Vec<Geometry>, usize)>)
    ensures
        geometries_result(r) == geometries_body(tokens_view(t@), p as int),
        r matches Some((_, q)) ==> p < q <= t.len(),
        decreases t.len() - p,
{
    let ghost tv = tokens_view(t@);
    if keyword_at_exec(t, p, "EMPTY") {
        return Some((Vec::new(), p + 1));
    }
    if !lparen_at(t, p) {
        return None;
    }
    let (e, mut q) = match parse_geometry(t, p + 1) {
        Some(x) => x,
        None => return None,
    };
    let mut acc: Vec<Geometry> = Vec::new();
    acc.push(e);
    proof {
        assert(geometries_view(acc@) =~= seq![e@]);
    }
    loop
        invariant
            tv == tokens_view(t@),
            geometries_body(tv, p as int) == prepend_all(geometries_view(acc@), geometries_tail(tv, q as int)),
            p < q <= t.len(),
        decreases t.len() - q,
    {
        if comma_at(t, q) {
            match parse_geometry(t, q + 1) {
                Some((e, q2)) => {
                    proof {
                        lemma_prepend_push(geometries_view(acc@), e@, geometries_tail(tv, q2 as int));
                    }
                    let ghost before = acc@;
                    acc.push(e);
                    proof {
                        assert(geometries_view(acc@) =~= geometries_view(before).push(e@));
                    }
                    q = q2;
                },
                None => return None,
            }
        } else if rparen_at(t, q) {
            proof {
                lemma_prepend_empty(geometries_view(acc@), q + 1);
            }
            return Some((acc, q + 1));
        } else {
            return None;
        }
    }
}

} // verus!
