//! Writing geometry as canonical WKT text.
//!
//! The text is the kind name in upper case, a dimension tag taken from the
//! first coordinate (` Z`, ` M`, ` ZM`, or nothing), a space, and either
//! `EMPTY` or a parenthesized list with `, ` between members.
use vstd::prelude::*;
use crate::types::{
    Coord, Dim, Geometry, SpecCoord, SpecGeometry, coords_view, geometries_upto,
    lemma_geometries_upto, point_view, points_view, polygons_view, rings_view,
};

verus! {

broadcast use vstd::std_specs::vec::group_vec_axioms;

pub open spec fn ordinate_text(o: Option<Seq<char>>) -> Seq<char> {
    match o {
        Some(t) => " "@ + t,
        None => Seq::empty(),
    }
}

/// The ordinates separated by single spaces.
pub open spec fn coord_text(c: SpecCoord) -> Seq<char> {
    c.x + " "@ + c.y + ordinate_text(c.z) + ordinate_text(c.m)
}

/// The first `n` parts joined by `, `.
pub open spec fn join(parts: Seq<Seq<char>>, n: nat) -> Seq<char>
    decreases n,
{
    if n == 0 {
        Seq::empty()
    } else if n == 1 {
        parts[0]
    } else {
        join(parts, (n - 1) as nat) + ", "@ + parts[n - 1]
    }
}

/// `EMPTY`, or the parts joined inside parentheses.
pub open spec fn list_text(parts: Seq<Seq<char>>) -> Seq<char> {
    if parts.len() == 0 {
        "EMPTY"@
    } else {
        "("@ + join(parts, parts.len()) + ")"@
    }
}

pub open spec fn point_text(o: Option<SpecCoord>) -> Seq<char> {
    match o {
        Some(c) => "("@ + coord_text(c) + ")"@,
        None => "EMPTY"@,
    }
}

pub open spec fn coords_text(v: Seq<SpecCoord>) -> Seq<char> {
    list_text(v.map_values(|c: SpecCoord| coord_text(c)))
}

pub open spec fn rings_text(v: Seq<Seq<SpecCoord>>) -> Seq<char> {
    list_text(v.map_values(|r: Seq<SpecCoord>| coords_text(r)))
}

pub open spec fn polygons_text(v: Seq<Seq<Seq<SpecCoord>>>) -> Seq<char> {
    list_text(v.map_values(|p: Seq<Seq<SpecCoord>>| rings_text(p)))
}

pub open spec fn members_text(v: Seq<Option<SpecCoord>>) -> Seq<char> {
    list_text(v.map_values(|o: Option<SpecCoord>| point_text(o)))
}

/// The dimension that a coordinate's ordinates show.
pub open spec fn coord_dim(c: SpecCoord) -> Dim {
    match (c.z, c.m) {
        (Some(_), Some(_)) => Dim::XYZM,
        (Some(_), None) => Dim::XYZ,
        (None, Some(_)) => Dim::XYM,
        (None, None) => Dim::XY,
    }
}

pub open spec fn dim_of(o: Option<SpecCoord>) -> Dim {
    match o {
        Some(c) => coord_dim(c),
        None => Dim::XY,
    }
}

pub open spec fn dim_tag(d: Dim) -> Seq<char> {
    match d {
        Dim::XY => Seq::empty(),
        Dim::XYZ => " Z"@,
        Dim::XYM => " M"@,
        Dim::XYZM => " ZM"@,
    }
}

pub open spec fn first_in_coords(v: Seq<SpecCoord>) -> Option<SpecCoord> {
    if v.len() > 0 {
        Some(v[0])
    } else {
        None
    }
}

/// The first coordinate of the rings from index `i` on.
pub open spec fn first_in_rings(v: Seq<Seq<SpecCoord>>, i: int) -> Option<SpecCoord>
    decreases v.len() - i,
{
    if i < 0 || i >= v.len() {
        None
    } else if v[i].len() > 0 {
        Some(v[i][0])
    } else {
        first_in_rings(v, i + 1)
    }
}

/// The first coordinate of the polygons from index `i` on.
pub open spec fn first_in_polygons(v: Seq<Seq<Seq<SpecCoord>>>, i: int) -> Option<SpecCoord>
    decreases v.len() - i,
{
    if i < 0 || i >= v.len() {
        None
    } else if first_in_rings(v[i], 0) is Some {
        first_in_rings(v[i], 0)
    } else {
        first_in_polygons(v, i + 1)
    }
}

/// The first present coordinate of the members from index `i` on.
pub open spec fn first_in_members(v: Seq<Option<SpecCoord>>, i: int) -> Option<SpecCoord>
    decreases v.len() - i,
{
    if i < 0 || i >= v.len() {
        None
    } else if v[i] is Some {
        v[i]
    } else {
        first_in_members(v, i + 1)
    }
}

/// The members' texts joined by `, `, first `n` members.
pub open spec fn geometries_join(v: Seq<SpecGeometry>, n: nat) -> Seq<char>
    decreases v, n,
{
    if n == 0 || n > v.len() {
        Seq::empty()
    } else if n == 1 {
        geometry_text(v[0])
    } else {
        geometries_join(v, (n - 1) as nat) + ", "@ + geometry_text(v[n - 1])
    }
}

/// The canonical WKT text of a geometry.
pub open spec fn geometry_text(g: SpecGeometry) -> Seq<char>
    decreases g,
{
    match g {
        SpecGeometry::Point(o) => "POINT"@ + dim_tag(dim_of(o)) + " "@ + point_text(o),
        SpecGeometry::LineString(v) => "LINESTRING"@ + dim_tag(dim_of(first_in_coords(v))) + " "@
            + coords_text(v),
        SpecGeometry::Polygon(v) => "POLYGON"@ + dim_tag(dim_of(first_in_rings(v, 0))) + " "@
            + rings_text(v),
        SpecGeometry::PolyhedralSurface(v) => "POLYHEDRALSURFACE"@ + dim_tag(
            dim_of(first_in_polygons(v, 0)),
        ) + " "@ + polygons_text(v),
        SpecGeometry::Triangle(v) => "TRIANGLE"@ + dim_tag(dim_of(first_in_rings(v, 0))) + " "@
            + rings_text(v),
        SpecGeometry::Tin(v) => "TIN"@ + dim_tag(dim_of(first_in_polygons(v, 0))) + " "@
            + polygons_text(v),
        SpecGeometry::MultiPoint(v) => "MULTIPOINT"@ + dim_tag(dim_of(first_in_members(v, 0)))
            + " "@ + members_text(v),
        SpecGeometry::MultiLineString(v) => "MULTILINESTRING"@ + dim_tag(
            dim_of(first_in_rings(v, 0)),
        ) + " "@ + rings_text(v),
        SpecGeometry::MultiPolygon(v) => "MULTIPOLYGON"@ + dim_tag(
            dim_of(first_in_polygons(v, 0)),
        ) + " "@ + polygons_text(v),
        SpecGeometry::GeometryCollection(v) => "GEOMETRYCOLLECTION "@ + if v.len() == 0 {
            "EMPTY"@
        } else {
            "("@ + geometries_join(v, v.len()) + ")"@
        },
    }
}

fn write_ordinate(o: &Option<String>, out: &mut String)
    ensures
        final(out)@ == old(out)@ + ordinate_text(crate::types::text_view(*o)),
{
    match o {
        Some(t) => {
            out.append(" ");
            out.append(t.as_str());
        },
        None => {
            assert(out@ + Seq::<char>::empty() =~= out@);
        },
    }
}

fn write_coord(c: &Coord, out: &mut String)
    ensures
        final(out)@ == old(out)@ + coord_text(c@),
{
    out.append(c.x.as_str());
    out.append(" ");
    out.append(c.y.as_str());
    write_ordinate(&c.z, out);
    write_ordinate(&c.m, out);
    assert(out@ =~= old(out)@ + coord_text(c@));
}

fn write_point(o: &Option<Coord>, out: &mut String)
    ensures
        final(out)@ == old(out)@ + point_text(point_view(*o)),
{
    match o {
        Some(c) => {
            out.append("(");
            write_coord(c, out);
            out.append(")");
            assert(out@ =~= old(out)@ + point_text(point_view(*o)));
        },
        None => {
            out.append("EMPTY");
        },
    }
}

fn dim_of_coord(c: &Coord) -> (d: Dim)
    ensures
        d == coord_dim(c@),
{
    match (&c.z, &c.m) {
        (Some(_), Some(_)) => Dim::XYZM,
        (Some(_), None) => Dim::XYZ,
        (None, Some(_)) => Dim::XYM,
        (None, None) => Dim::XY,
    }
}

fn dim_of_point(o: &Option<Coord>) -> (d: Dim)
    ensures
        d == dim_of(point_view(*o)),
{
    match o {
        Some(c) => dim_of_coord(c),
        None => Dim::XY,
    }
}

fn dim_of_coords(v: &Vec<Coord>) -> (d: Dim)
    ensures
        d == dim_of(first_in_coords(coords_view(v@))),
{
    if v.len() > 0 {
        dim_of_coord(&v[0])
    } else {
        Dim::XY
    }
}

/// The dimension of the first coordinate of the rings, if there is one.
fn first_dim_in_rings(v: &Vec<Vec<Coord>>) -> (r: Option<Dim>)
    ensures
        r == match first_in_rings(rings_view(v@), 0) {
            Some(c) => Some(coord_dim(c)),
            None => None,
        },
{
    let ghost sv = rings_view(v@);
    let mut i: usize = 0;
    while i < v.len()
        invariant
            i <= v.len(),
            sv == rings_view(v@),
            first_in_rings(sv, 0) == first_in_rings(sv, i as int),
        decreases v.len() - i,
    {
        if v[i].len() > 0 {
            return Some(dim_of_coord(&v[i][0]));
        }
        i = i + 1;
    }
    None
}

fn dim_of_rings(v: &Vec<Vec<Coord>>) -> (d: Dim)
    ensures
        d == dim_of(first_in_rings(rings_view(v@), 0)),
{
    match first_dim_in_rings(v) {
        Some(d) => d,
        None => Dim::XY,
    }
}

fn dim_of_polygons(v: &Vec<Vec<Vec<Coord>>>) -> (d: Dim)
    ensures
        d == dim_of(first_in_polygons(polygons_view(v@), 0)),
{
    let ghost sv = polygons_view(v@);
    let mut i: usize = 0;
    while i < v.len()
        invariant
            i <= v.len(),
            sv == polygons_view(v@),
            first_in_polygons(sv, 0) == first_in_polygons(sv, i as int),
        decreases v.len() - i,
    {
        match first_dim_in_rings(&v[i]) {
            Some(d) => {
                return d;
            },
            None => {},
        }
        i = i + 1;
    }
    Dim::XY
}

fn dim_of_members(v: &Vec<Option<Coord>>) -> (d: Dim)
    ensures
        d == dim_of(first_in_members(points_view(v@), 0)),
{
    let ghost sv = points_view(v@);
    let mut i: usize = 0;
    while i < v.len()
        invariant
            i <= v.len(),
            sv == points_view(v@),
            first_in_members(sv, 0) == first_in_members(sv, i as int),
        decreases v.len() - i,
    {
        if v[i].is_some() {
            return dim_of_point(&v[i]);
        }
        i = i + 1;
    }
    Dim::XY
}

fn write_tag(d: Dim, out: &mut String)
    ensures
        final(out)@ == old(out)@ + dim_tag(d),
{
    match d {
        Dim::XY => {
            assert(out@ + Seq::<char>::empty() =~= out@);
        },
        Dim::XYZ => out.append(" Z"),
        Dim::XYM => out.append(" M"),
        Dim::XYZM => out.append(" ZM"),
    }
}

fn write_coords(v: &Vec<Coord>, out: &mut String)
    ensures
        final(out)@ == old(out)@ + coords_text(coords_view(v@)),
{
    let ghost parts = coords_view(v@).map_values(|c: SpecCoord| coord_text(c));
    if v.len() == 0 {
        out.append("EMPTY");
        return;
    }
    let ghost start = out@;
    out.append("(");
    let mut i: usize = 0;
    while i < v.len()
        invariant
            i <= v.len(),
            parts == coords_view(v@).map_values(|c: SpecCoord| coord_text(c)),
            parts.len() == v.len(),
            out@ == start + "("@ + join(parts, i as nat),
        decreases v.len() - i,
    {
        let ghost before = out@;
        if i > 0 {
            out.append(", ");
        }
        write_coord(&v[i], out);
        proof {
            assert(parts[i as int] == coord_text(v@[i as int]@));
            if i == 0 {
                assert(out@ =~= start + "("@ + join(parts, 1));
            } else {
                assert(out@ =~= start + "("@ + join(parts, (i + 1) as nat));
            }
        }
        i = i + 1;
    }
    out.append(")");
    assert(out@ =~= start + coords_text(coords_view(v@)));
}

fn write_rings(v: &Vec<Vec<Coord>>, out: &mut String)
    ensures
        final(out)@ == old(out)@ + rings_text(rings_view(v@)),
{
    let ghost parts = rings_view(v@).map_values(|r: Seq<SpecCoord>| coords_text(r));
    if v.len() == 0 {
        out.append("EMPTY");
        return;
    }
    let ghost start = out@;
    out.append("(");
    let mut i: usize = 0;
    while i < v.len()
        invariant
            i <= v.len(),
            parts == rings_view(v@).map_values(|r: Seq<SpecCoord>| coords_text(r)),
            parts.len() == v.len(),
            out@ == start + "("@ + join(parts, i as nat),
        decreases v.len() - i,
    {
        let ghost before = out@;
        if i > 0 {
            out.append(", ");
        }
        write_coords(&v[i], out);
        proof {
            assert(parts[i as int] == coords_text(coords_view(v@[i as int]@)));
            if i == 0 {
                assert(out@ =~= start + "("@ + join(parts, 1));
            } else {
                assert(out@ =~= start + "("@ + join(parts, (i + 1) as nat));
            }
        }
        i = i + 1;
    }
    out.append(")");
    assert(out@ =~= start + rings_text(rings_view(v@)));
}

fn write_polygons(v: &Vec<Vec<Vec<Coord>>>, out: &mut String)
    ensures
        final(out)@ == old(out)@ + polygons_text(polygons_view(v@)),
{
    let ghost parts = polygons_view(v@).map_values(|p: Seq<Seq<SpecCoord>>| rings_text(p));
    if v.len() == 0 {
        out.append("EMPTY");
        return;
    }
    let ghost start = out@;
    out.append("(");
    let mut i: usize = 0;
    while i < v.len()
        invariant
            i <= v.len(),
            parts == polygons_view(v@).map_values(|p: Seq<Seq<SpecCoord>>| rings_text(p)),
            parts.len() == v.len(),
            out@ == start + "("@ + join(parts, i as nat),
        decreases v.len() - i,
    {
        let ghost before = out@;
        if i > 0 {
            out.append(", ");
        }
        write_rings(&v[i], out);
        proof {
            assert(parts[i as int] == rings_text(rings_view(v@[i as int]@)));
            if i == 0 {
                assert(out@ =~= start + "("@ + join(parts, 1));
            } else {
                assert(out@ =~= start + "("@ + join(parts, (i + 1) as nat));
            }
        }
        i = i + 1;
    }
    out.append(")");
    assert(out@ =~= start + polygons_text(polygons_view(v@)));
}

fn write_members(v: &Vec<Option<Coord>>, out: &mut String)
    ensures
        final(out)@ == old(out)@ + members_text(points_view(v@)),
{
    let ghost parts = points_view(v@).map_values(|o: Option<SpecCoord>| point_text(o));
    if v.len() == 0 {
        out.append("EMPTY");
        return;
    }
    let ghost start = out@;
    out.append("(");
    let mut i: usize = 0;
    while i < v.len()
        invariant
            i <= v.len(),
            parts == points_view(v@).map_values(|o: Option<SpecCoord>| point_text(o)),
            parts.len() == v.len(),
            out@ == start + "("@ + join(parts, i as nat),
        decreases v.len() - i,
    {
        let ghost before = out@;
        if i > 0 {
            out.append(", ");
        }
        write_point(&v[i], out);
        proof {
            assert(parts[i as int] == point_text(point_view(v@[i as int])));
            if i == 0 {
                assert(out@ =~= start + "("@ + join(parts, 1));
            } else {
                assert(out@ =~= start + "("@ + join(parts, (i + 1) as nat));
            }
        }
        i = i + 1;
    }
    out.append(")");
    assert(out@ =~= start + members_text(points_view(v@)));
}

/// Appends the members of a collection, `EMPTY` or a parenthesized list.
fn write_geometries(v: &Vec<Geometry>, out: &mut String)
    ensures
        final(out)@ == old(out)@ + if v@.len() == 0 {
            "EMPTY"@
        } else {
            "("@ + geometries_join(geometries_upto(v, v@.len()), v@.len()) + ")"@
        },
    decreases v,
{
    let ghost gs = geometries_upto(v, v@.len());
    proof {
        lemma_geometries_upto(v, v@.len());
    }
    if v.len() == 0 {
        out.append("EMPTY");
        return;
    }
    let ghost open_at = out@;
    out.append("(");
    let mut i: usize = 0;
    while i < v.len()
        invariant
            i <= v.len(),
            gs == geometries_upto(v, v@.len()),
            gs.len() == v.len(),
            forall|k: int| 0 <= k < v.len() ==> #[trigger] gs[k] == v@[k]@,
            out@ == open_at + "("@ + geometries_join(gs, i as nat),
        decreases v.len() - i,
    {
        if i > 0 {
            out.append(", ");
        }
        proof {
            assert(decreases_to!(v => v[i as int]));
        }
        write_geometry(&v[i], out);
        proof {
            assert(gs[i as int] == v@[i as int]@);
            if i == 0 {
                assert(out@ =~= open_at + "("@ + geometries_join(gs, 1));
            } else {
                assert(out@ =~= open_at + "("@ + geometries_join(gs, (i + 1) as nat));
            }
        }
        i = i + 1;
    }
    out.append(")");
}

/// Appends a kind name, the dimension tag and the body.
fn write_tagged_point(name: &str, v: &Option<Coord>, out: &mut String)
    ensures
        final(out)@ == old(out)@ + name@ + dim_tag(dim_of(point_view(*v))) + " "@ + point_text(point_view(*v)),
{
    let ghost start = out@;
    out.append(name);
    write_tag(dim_of_point(v), out);
    out.append(" ");
    write_point(v, out);
    assert(out@ =~= start + name@ + dim_tag(dim_of(point_view(*v))) + " "@ + point_text(point_view(*v)));
}

/// Appends a kind name, the dimension tag and the body.
fn write_tagged_coords(name: &str, v: &Vec<Coord>, out: &mut String)
    ensures
        final(out)@ == old(out)@ + name@ + dim_tag(dim_of(first_in_coords(coords_view(v@)))) + " "@ + coords_text(coords_view(v@)),
{
    let ghost start = out@;
    out.append(name);
    write_tag(dim_of_coords(v), out);
    out.append(" ");
    write_coords(v, out);
    assert(out@ =~= start + name@ + dim_tag(dim_of(first_in_coords(coords_view(v@)))) + " "@ + coords_text(coords_view(v@)));
}

/// Appends a kind name, the dimension tag and the body.
fn write_tagged_rings(name: &str, v: &Vec<Vec<Coord>>, out: &mut String)
    ensures
        final(out)@ == old(out)@ + name@ + dim_tag(dim_of(first_in_rings(rings_view(v@), 0))) + " "@ + rings_text(rings_view(v@)),
{
    let ghost start = out@;
    out.append(name);
    write_tag(dim_of_rings(v), out);
    out.append(" ");
    write_rings(v, out);
    assert(out@ =~= start + name@ + dim_tag(dim_of(first_in_rings(rings_view(v@), 0))) + " "@ + rings_text(rings_view(v@)));
}

/// Appends a kind name, the dimension tag and the body.
fn write_tagged_polygons(name: &str, v: &Vec<Vec<Vec<Coord>>>, out: &mut String)
    ensures
        final(out)@ == old(out)@ + name@ + dim_tag(dim_of(first_in_polygons(polygons_view(v@), 0))) + " "@ + polygons_text(polygons_view(v@)),
{
    let ghost start = out@;
    out.append(name);
    write_tag(dim_of_polygons(v), out);
    out.append(" ");
    write_polygons(v, out);
    assert(out@ =~= start + name@ + dim_tag(dim_of(first_in_polygons(polygons_view(v@), 0))) + " "@ + polygons_text(polygons_view(v@)));
}

/// Appends a kind name, the dimension tag and the body.
fn write_tagged_members(name: &str, v: &Vec<Option<Coord>>, out: &mut String)
    ensures
        final(out)@ == old(out)@ + name@ + dim_tag(dim_of(first_in_members(points_view(v@), 0))) + " "@ + members_text(points_view(v@)),
{
    let ghost start = out@;
    out.append(name);
    write_tag(dim_of_members(v), out);
    out.append(" ");
    write_members(v, out);
    assert(out@ =~= start + name@ + dim_tag(dim_of(first_in_members(points_view(v@), 0))) + " "@ + members_text(points_view(v@)));
}

/// Appends the canonical text of `g`.
fn write_geometry(g: &Geometry, out: &mut String)
    ensures
        final(out)@ == old(out)@ + geometry_text(g@),
    decreases g,
{
    match g {
        Geometry::Point(o) => write_tagged_point("POINT", o, out),
        Geometry::LineString(v) => write_tagged_coords("LINESTRING", v, out),
        Geometry::Polygon(v) => write_tagged_rings("POLYGON", v, out),
        Geometry::PolyhedralSurface(v) => write_tagged_polygons("POLYHEDRALSURFACE", v, out),
        Geometry::Triangle(v) => write_tagged_rings("TRIANGLE", v, out),
        Geometry::Tin(v) => write_tagged_polygons("TIN", v, out),
        Geometry::MultiPoint(v) => write_tagged_members("MULTIPOINT", v, out),
        Geometry::MultiLineString(v) => write_tagged_rings("MULTILINESTRING", v, out),
        Geometry::MultiPolygon(v) => write_tagged_polygons("MULTIPOLYGON", v, out),
        Geometry::GeometryCollection(v) => {
            let ghost start = out@;
            out.append("GEOMETRYCOLLECTION ");
            write_geometries(v, out);
            proof {
                lemma_geometries_upto(v, v@.len());
            }
            assert(out@ =~= start + geometry_text(g@));
        },
    }
}

impl Geometry {
    /// The canonical WKT text of this geometry.
    pub fn to_wkt(&self) -> (r: String)
        ensures
            r@ == geometry_text(self@),
    {
        let mut out = String::new();
        write_geometry(self, &mut out);
        assert(out@ =~= geometry_text(self@));
        out
    }
}

/// Writing depends on the geometry's value alone: writing one geometry
/// twice, or two geometries of equal value, gives the same text.
pub proof fn lemma_writing_is_deterministic(a: &Geometry, b: &Geometry)
    requires
        a@ == b@,
    ensures
        geometry_text(a@) == geometry_text(b@),
{
}

} // verus!
