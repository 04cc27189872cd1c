//! The geometry model: coordinates and the geometry kinds of WKT.
use vstd::prelude::*;

pub mod point;

verus! {

broadcast use vstd::std_specs::vec::group_vec_axioms;

/// How many ordinates each coordinate of a geometry carries.
#[derive(Debug, Clone, Copy, PartialEq, Eq, Structural)]
pub enum Dim {
    XY,
    XYZ,
    XYM,
    XYZM,
}

/// A position. Each ordinate is kept as the decimal text it was written in,
/// so reading and writing it loses nothing.
#[derive(Debug, Clone, PartialEq)]
pub struct Coord {
    pub x: String,
    pub y: String,
    pub z: Option<String>,
    pub m: Option<String>,
}

/// The mathematical value of a coordinate.
pub struct SpecCoord {
    pub x: Seq<char>,
    pub y: Seq<char>,
    pub z: Option<Seq<char>>,
    pub m: Option<Seq<char>>,
}

pub open spec fn text_view(o: Option<String>) -> Option<Seq<char>> {
    match o {
        Some(s) => Some(s@),
        None => None,
    }
}

impl View for Coord {
    type V = SpecCoord;

    open spec fn view(&self) -> SpecCoord {
        SpecCoord { x: self.x@, y: self.y@, z: text_view(self.z), m: text_view(self.m) }
    }
}

pub type PointType = Option<Coord>;

pub type LineStringType = Vec<Coord>;

pub type PolygonType = Vec<LineStringType>;

pub type PolyhedralSurfaceType = Vec<PolygonType>;

pub type MultiPointType = Vec<PointType>;

pub type MultiLineStringType = Vec<LineStringType>;

pub type MultiPolygonType = Vec<PolygonType>;

pub type GeometryCollectionType = Vec<Geometry>;

/// A geometry of one of the WKT kinds.
#[derive(Debug, PartialEq)]
pub enum Geometry {
    Point(PointType),
    LineString(LineStringType),
    Polygon(PolygonType),
    PolyhedralSurface(PolyhedralSurfaceType),
    Triangle(PolygonType),
    Tin(PolyhedralSurfaceType),
    MultiPoint(MultiPointType),
    MultiLineString(MultiLineStringType),
    MultiPolygon(MultiPolygonType),
    GeometryCollection(GeometryCollectionType),
}

/// The mathematical value of a geometry.
pub enum SpecGeometry {
    Point(Option<SpecCoord>),
    LineString(Seq<SpecCoord>),
    Polygon(Seq<Seq<SpecCoord>>),
    PolyhedralSurface(Seq<Seq<Seq<SpecCoord>>>),
    Triangle(Seq<Seq<SpecCoord>>),
    Tin(Seq<Seq<Seq<SpecCoord>>>),
    MultiPoint(Seq<Option<SpecCoord>>),
    MultiLineString(Seq<Seq<SpecCoord>>),
    MultiPolygon(Seq<Seq<Seq<SpecCoord>>>),
    GeometryCollection(Seq<SpecGeometry>),
}

pub open spec fn point_view(o: Option<Coord>) -> Option<SpecCoord> {
    match o {
        Some(c) => Some(c@),
        None => None,
    }
}

pub open spec fn coords_view(v: Seq<Coord>) -> Seq<SpecCoord> {
    v.map_values(|c: Coord| c@)
}

pub open spec fn rings_view(v: Seq<Vec<Coord>>) -> Seq<Seq<SpecCoord>> {
    v.map_values(|r: Vec<Coord>| coords_view(r@))
}

pub open spec fn polygons_view(v: Seq<Vec<Vec<Coord>>>) -> Seq<Seq<Seq<SpecCoord>>> {
    v.map_values(|p: Vec<Vec<Coord>>| rings_view(p@))
}

pub open spec fn points_view(v: Seq<Option<Coord>>) -> Seq<Option<SpecCoord>> {
    v.map_values(|o: Option<Coord>| point_view(o))
}

/// The views of the first `n` members of a collection.
pub open spec fn geometries_upto(v: &Vec<Geometry>, n: nat) -> Seq<SpecGeometry>
    decreases v, n,
{
    if n == 0 || n > v@.len() {
        Seq::empty()
    } else {
        geometries_upto(v, (n - 1) as nat).push(v[n - 1].view())
    }
}

impl View for Geometry {
    type V = SpecGeometry;

    open spec fn view(&self) -> SpecGeometry
        decreases self,
    {
        match self {
            Geometry::Point(c) => SpecGeometry::Point(point_view(*c)),
            Geometry::LineString(v) => SpecGeometry::LineString(coords_view(v@)),
            Geometry::Polygon(v) => SpecGeometry::Polygon(rings_view(v@)),
            Geometry::PolyhedralSurface(v) => SpecGeometry::PolyhedralSurface(polygons_view(v@)),
            Geometry::Triangle(v) => SpecGeometry::Triangle(rings_view(v@)),
            Geometry::Tin(v) => SpecGeometry::Tin(polygons_view(v@)),
            Geometry::MultiPoint(v) => SpecGeometry::MultiPoint(points_view(v@)),
            Geometry::MultiLineString(v) => SpecGeometry::MultiLineString(rings_view(v@)),
            Geometry::MultiPolygon(v) => SpecGeometry::MultiPolygon(polygons_view(v@)),
            Geometry::GeometryCollection(v) => SpecGeometry::GeometryCollection(
                geometries_upto(v, v@.len()),
            ),
        }
    }
}

/// The members' views, one for each member and in order.
pub proof fn lemma_geometries_upto(v: &Vec<Geometry>, n: nat)
    requires
        n <= v@.len(),
    ensures
        geometries_upto(v, n).len() == n,
        forall|i: int| 0 <= i < n ==> #[trigger] geometries_upto(v, n)[i] == v@[i]@,
    decreases n,
{
    if n > 0 {
        lemma_geometries_upto(v, (n - 1) as nat);
        assert(geometries_upto(v, n) == geometries_upto(v, (n - 1) as nat).push(v[n - 1].view()));
    } else {
        assert(geometries_upto(v, n) == Seq::<SpecGeometry>::empty());
    }
}

} // verus!
