use wkt::{Geometry, ParseError, Wkt};

fn num(s: &String) -> f64 {
    s.parse::<f64>().unwrap()
}

#[test]
fn empty_string() {
    assert!(Wkt::from_str("").is_err());
}

#[test]
fn empty_items() {
    let wkt = Wkt::from_str("POINT EMPTY").ok().unwrap();
    match wkt.0 {
        Geometry::Point(None) => (),
        _ => unreachable!(),
    };

    let wkt = Wkt::from_str("MULTIPOLYGON EMPTY").ok().unwrap();
    match wkt.0 {
        Geometry::MultiPolygon(polygons) => assert_eq!(polygons.len(), 0),
        _ => unreachable!(),
    };
}

#[test]
fn basic_polygon() {
    let wkt = Wkt::from_str("POLYGON ((8 4, 4 0, 0 4, 8 4), (7 3, 4 1, 1 4, 7 3))").ok().unwrap();
    let lines = match wkt.0 {
        Geometry::Polygon(lines) => lines,
        _ => unreachable!(),
    };
    assert_eq!(2, lines.len());
}

#[test]
fn basic_point() {
    let wkt = Wkt::from_str("POINT (10 -20)").ok().unwrap();
    let coord = match wkt.0 {
        Geometry::Point(Some(coord)) => coord,
        _ => unreachable!(),
    };
    assert_eq!(10.0, num(&coord.x));
    assert_eq!(-20.0, num(&coord.y));
    assert_eq!(None, coord.z);
    assert_eq!(None, coord.m);
}

#[test]
fn basic_point_whitespace() {
    let wkt = Wkt::from_str(" \n\t\rPOINT \n\t\r( \n\r\t10 \n\t\r-20 \n\t\r) \n\t\r").ok().unwrap();
    let coord = match wkt.0 {
        Geometry::Point(Some(coord)) => coord,
        _ => unreachable!(),
    };
    assert_eq!(10.0, num(&coord.x));
    assert_eq!(-20.0, num(&coord.y));
    assert_eq!(None, coord.z);
    assert_eq!(None, coord.m);
}

#[test]
fn invalid_points() {
    Wkt::from_str("POINT ()").err().unwrap();
    Wkt::from_str("POINT (10)").err().unwrap();
    Wkt::from_str("POINT 10").err().unwrap();
    Wkt::from_str("POINT (10 -20 40)").err().unwrap();
}

#[test]
fn basic_multipolygon() {
    let wkt = Wkt::from_str("MULTIPOLYGON (((8 4)), ((4 0)))").ok().unwrap();
    let polygons = match wkt.0 {
        Geometry::MultiPolygon(polygons) => polygons,
        _ => unreachable!(),
    };
    assert_eq!(2, polygons.len());
}

#[test]
fn basic_multipoint() {
    let wkt = Wkt::from_str("MULTIPOINT ((8 4), (4 0))").ok().unwrap();
    let points = match wkt.0 {
        Geometry::MultiPoint(points) => points,
        _ => unreachable!(),
    };
    assert_eq!(2, points.len());
}

#[test]
fn basic_multilinestring() {
    let wkt = Wkt::from_str("MULTILINESTRING ((8 4, -3 0), (4 0, 6 -10))").ok().unwrap();
    let lines = match wkt.0 {
        Geometry::MultiLineString(lines) => lines,
        _ => unreachable!(),
    };
    assert_eq!(2, lines.len());
}

#[test]
fn basic_linestring() {
    let wkt = Wkt::from_str("LINESTRING (10 -20, -0 -0.5)").ok().unwrap();
    let coords = match wkt.0 {
        Geometry::LineString(coords) => coords,
        _ => unreachable!(),
    };
    assert_eq!(2, coords.len());

    assert_eq!(10.0, num(&coords[0].x));
    assert_eq!(-20.0, num(&coords[0].y));
    assert_eq!(None, coords[0].z);
    assert_eq!(None, coords[0].m);

    assert_eq!(0.0, num(&coords[1].x));
    assert_eq!(-0.5, num(&coords[1].y));
    assert_eq!(None, coords[1].z);
    assert_eq!(None, coords[1].m);
}

#[test]
fn basic_geometrycollection() {
    let wkt = Wkt::from_str("GEOMETRYCOLLECTION (POINT (8 4)))").ok().unwrap();
    let items = match wkt.0 {
        Geometry::GeometryCollection(items) => items,
        _ => unreachable!(),
    };
    assert_eq!(1, items.len());
}

#[test]
fn whitespace_form_equals_compact_form() {
    assert_eq!(Wkt::from_str("POINT ( \n 10 \n -20 \n )"), Wkt::from_str("POINT (10 -20)"));
}

#[test]
fn collection_member_is_the_point() {
    let wkt = Wkt::from_str("GEOMETRYCOLLECTION (POINT (8 4))").ok().unwrap();
    let items = match wkt.0 {
        Geometry::GeometryCollection(items) => items,
        _ => unreachable!(),
    };
    assert_eq!(1, items.len());
    match &items[0] {
        Geometry::Point(Some(c)) => {
            assert_eq!(8.0, num(&c.x));
            assert_eq!(4.0, num(&c.y));
        },
        _ => unreachable!(),
    }
}

#[test]
fn keywords_ignore_case() {
    assert_eq!(Wkt::from_str("point (1 2)"), Wkt::from_str("POINT (1 2)"));
    assert!(Wkt::from_str("point (1 2)").is_ok());
    assert_eq!(Wkt::from_str("MultiPoint (empty, (1 2))"), Wkt::from_str("MULTIPOINT (EMPTY, (1 2))"));
}

#[test]
fn dimension_tags() {
    let wkt = Wkt::from_str("POINT Z (1 2 3)").ok().unwrap();
    match wkt.0 {
        Geometry::Point(Some(c)) => {
            assert_eq!(Some("3".to_string()), c.z);
            assert_eq!(None, c.m);
        },
        _ => unreachable!(),
    }
    let wkt = Wkt::from_str("POINT M (1 2 3)").ok().unwrap();
    match wkt.0 {
        Geometry::Point(Some(c)) => {
            assert_eq!(None, c.z);
            assert_eq!(Some("3".to_string()), c.m);
        },
        _ => unreachable!(),
    }
    let wkt = Wkt::from_str("POINT ZM (1 2 3 4)").ok().unwrap();
    match wkt.0 {
        Geometry::Point(Some(c)) => {
            assert_eq!(Some("3".to_string()), c.z);
            assert_eq!(Some("4".to_string()), c.m);
        },
        _ => unreachable!(),
    }
}

#[test]
fn mixed_dimensions_fail() {
    assert_eq!(Wkt::from_str("LINESTRING Z (1 2 3, 4 5)"), Err(ParseError::Syntax));
    assert_eq!(Wkt::from_str("LINESTRING (1 2, 4 5 6)"), Err(ParseError::Syntax));
    assert_eq!(Wkt::from_str("POINT Z (1 2)"), Err(ParseError::Syntax));
    assert_eq!(Wkt::from_str("POINT ZM (1 2 3)"), Err(ParseError::Syntax));
}

#[test]
fn syntax_errors() {
    assert_eq!(Wkt::from_str(""), Err(ParseError::Syntax));
    assert_eq!(Wkt::from_str("CIRCLE (1 2)"), Err(ParseError::Syntax));
    assert_eq!(Wkt::from_str("(1 2)"), Err(ParseError::Syntax));
    assert_eq!(Wkt::from_str("POINT (1 2"), Err(ParseError::Syntax));
    assert_eq!(Wkt::from_str("LINESTRING (1 2 3 4)"), Err(ParseError::Syntax));
    assert_eq!(Wkt::from_str("LINESTRING (1 2; 3 4)"), Err(ParseError::Lexical(15)));
    assert_eq!(Wkt::from_str("POLYGON ((1 2) (3 4))"), Err(ParseError::Syntax));
    assert_eq!(Wkt::from_str("GEOMETRYCOLLECTION (POINT (1 2),)"), Err(ParseError::Syntax));
}

#[test]
fn lexical_errors() {
    assert_eq!(Wkt::from_str("POINT (1 2#)"), Err(ParseError::Lexical(10)));
    assert_eq!(Wkt::from_str("POINT (1.2.3 4)"), Err(ParseError::Lexical(7)));
    assert_eq!(Wkt::from_str("POINT (- 4)"), Err(ParseError::Lexical(7)));
    assert_eq!(Wkt::from_str("POINT (. 4)"), Err(ParseError::Lexical(7)));
    assert_eq!(Wkt::from_str("POINT (1-2 4)"), Err(ParseError::Lexical(7)));
}

#[test]
fn multipoint_bare_members() {
    let a = Wkt::from_str("MULTIPOINT (8 4, 4 0)").ok().unwrap();
    let b = Wkt::from_str("MULTIPOINT ((8 4), (4 0))").ok().unwrap();
    assert_eq!(a, b);
    let c = Wkt::from_str("MULTIPOINT (EMPTY, 4 0)").ok().unwrap();
    match c.0 {
        Geometry::MultiPoint(points) => {
            assert_eq!(2, points.len());
            assert!(points[0].is_none());
        },
        _ => unreachable!(),
    }
}

#[test]
fn surfaces_and_triangles() {
    let t = Wkt::from_str("TRIANGLE ((0 0, 1 0, 0 1, 0 0))").ok().unwrap();
    assert!(matches!(t.0, Geometry::Triangle(ref r) if r.len() == 1 && r[0].len() == 4));
    let s = Wkt::from_str("POLYHEDRALSURFACE (((0 0, 1 0, 0 1, 0 0)), ((1 1, 2 1, 1 2, 1 1)))").ok().unwrap();
    assert!(matches!(s.0, Geometry::PolyhedralSurface(ref p) if p.len() == 2));
    let n = Wkt::from_str("TIN EMPTY").ok().unwrap();
    assert!(matches!(n.0, Geometry::Tin(ref p) if p.is_empty()));
}

#[test]
fn nested_collections() {
    let w = Wkt::from_str("GEOMETRYCOLLECTION (GEOMETRYCOLLECTION (POINT EMPTY), LINESTRING EMPTY)").ok().unwrap();
    match w.0 {
        Geometry::GeometryCollection(items) => {
            assert_eq!(2, items.len());
            assert!(matches!(items[0], Geometry::GeometryCollection(ref inner) if inner.len() == 1));
        },
        _ => unreachable!(),
    }
}

#[test]
fn trailing_input() {
    assert!(matches!(Wkt::from_str("POINT (1 2) )"), Ok(Wkt(Geometry::Point(Some(_))))));
    assert!(Wkt::from_str("POINT (1 2) POINT (3 4)").is_ok());
    assert_eq!(Wkt::from_str("POINT (1 2) #"), Err(ParseError::Lexical(12)));
    assert_eq!(Wkt::from_str("POINT (1 2) \u{e9}"), Err(ParseError::Lexical(12)));
}

#[test]
fn first_lexical_error_is_reported() {
    assert_eq!(Wkt::from_str("POINT (1 2#) $"), Err(ParseError::Lexical(10)));
    assert_eq!(Wkt::from_str("POINT (1.2.3 #)"), Err(ParseError::Lexical(7)));
}

#[test]
fn collection_takes_no_tag() {
    assert_eq!(Wkt::from_str("GEOMETRYCOLLECTION Z (POINT Z (1 2 3))"), Err(ParseError::Syntax));
    assert_eq!(Wkt::from_str("GEOMETRYCOLLECTION M EMPTY"), Err(ParseError::Syntax));
    assert!(Wkt::from_str("GEOMETRYCOLLECTION (POINT Z (1 2 3))").is_ok());
}

#[test]
fn too_many_ordinates() {
    assert_eq!(Wkt::from_str("POINT ZM (1 2 3 4 5)"), Err(ParseError::Syntax));
    assert_eq!(Wkt::from_str("MULTIPOINT (1 2 3 4 5)"), Err(ParseError::Syntax));
}
