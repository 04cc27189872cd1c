use wkt::tokenizer::{tokenize, Token};
use wkt::types::Dim;
use wkt::{Coord, Geometry, Point, Wkt};

fn round_trip(text: &str) -> String {
    Wkt::from_str(text).ok().unwrap().to_wkt()
}

#[test]
fn canonical_text() {
    assert_eq!(round_trip("POINT (10 -20)"), "POINT (10 -20)");
    assert_eq!(round_trip("  point(10   -20 )"), "POINT (10 -20)");
    assert_eq!(round_trip("POINT EMPTY"), "POINT EMPTY");
    assert_eq!(round_trip("MULTIPOLYGON EMPTY"), "MULTIPOLYGON EMPTY");
    assert_eq!(
        round_trip("POLYGON ((8 4, 4 0, 0 4, 8 4), (7 3, 4 1, 1 4, 7 3))"),
        "POLYGON ((8 4, 4 0, 0 4, 8 4), (7 3, 4 1, 1 4, 7 3))"
    );
    assert_eq!(round_trip("MULTIPOINT (8 4, EMPTY)"), "MULTIPOINT ((8 4), EMPTY)");
    assert_eq!(
        round_trip("GEOMETRYCOLLECTION (POINT (8 4), LINESTRING EMPTY)"),
        "GEOMETRYCOLLECTION (POINT (8 4), LINESTRING EMPTY)"
    );
    assert_eq!(round_trip("GEOMETRYCOLLECTION EMPTY"), "GEOMETRYCOLLECTION EMPTY");
    assert_eq!(round_trip("POLYGON (EMPTY, (1 2))"), "POLYGON (EMPTY, (1 2))");
}

#[test]
fn dimension_tags_written() {
    assert_eq!(round_trip("POINT Z (1 2 3)"), "POINT Z (1 2 3)");
    assert_eq!(round_trip("linestring m (1 2 3, 4 5 6)"), "LINESTRING M (1 2 3, 4 5 6)");
    assert_eq!(
        round_trip("MULTIPOLYGON ZM (((1 2 3 4, 5 6 7 8)))"),
        "MULTIPOLYGON ZM (((1 2 3 4, 5 6 7 8)))"
    );
    assert_eq!(round_trip("MULTIPOINT Z (EMPTY, (1 2 3))"), "MULTIPOINT Z (EMPTY, (1 2 3))");
    assert_eq!(round_trip("POINT Z EMPTY"), "POINT EMPTY");
}

#[test]
fn parse_write_parse_is_identity() {
    for text in [
        "POINT (1.5 -2)",
        "POINT Z (1 2 3)",
        "POINT ZM (1 2 3 4)",
        "LINESTRING M (1 2 3, 4 5 6)",
        "TRIANGLE Z ((0 0 1, 1 0 1, 0 1 1, 0 0 1))",
        "TIN ZM (((0 0 1 2, 1 0 1 2, 0 1 1 2, 0 0 1 2)))",
        "MULTILINESTRING ((8 4, -3 0), (4 0, 6 -10))",
        "GEOMETRYCOLLECTION (POINT Z (1 2 3), GEOMETRYCOLLECTION (MULTIPOINT (1 2, EMPTY)))",
    ] {
        let first = Wkt::from_str(text).ok().unwrap();
        let again = Wkt::from_str(&first.to_wkt()).ok().unwrap();
        assert_eq!(first, again);
    }
}

#[test]
fn writing_twice_gives_the_same_text() {
    let w = Wkt::from_str("MULTIPOLYGON (((8 4)), ((4 0)))").ok().unwrap();
    assert_eq!(w.to_wkt(), w.to_wkt());
    assert_eq!(w.0.to_wkt(), "MULTIPOLYGON (((8 4)), ((4 0)))");
}

#[test]
fn geometry_built_by_hand() {
    let c = Coord { x: "1".to_string(), y: "-2.25".to_string(), z: None, m: Some("7".to_string()) };
    let g = Geometry::LineString(vec![c.clone(), c]);
    assert_eq!(g.to_wkt(), "LINESTRING M (1 -2.25 7, 1 -2.25 7)");
}

#[test]
fn tokens_of_text() {
    let t = tokenize(" Point(1 -2.5),").unwrap();
    assert_eq!(
        t,
        vec![
            Token::Word("Point".to_string()),
            Token::LParen,
            Token::Number("1".to_string()),
            Token::Number("-2.5".to_string()),
            Token::RParen,
            Token::Comma,
        ]
    );
    assert_eq!(tokenize("POINT (1 2$)"), Err(10));
    assert_eq!(tokenize(""), Ok(vec![]));
}

#[test]
fn point_from_tokens() {
    let t = tokenize("1 2 3, 4").unwrap();
    let (p, next) = Point::from_tokens(&t, 0, Dim::XYZ).ok().unwrap();
    assert_eq!(next, 3);
    assert_eq!(p.coord.z, Some("3".to_string()));
    assert!(Point::from_tokens(&t, 0, Dim::XYZM).is_err());
    // A third number after two ordinates is one too many.
    assert!(Point::from_tokens(&t, 0, Dim::XY).is_err());
    let (q, next) = Point::from_tokens(&t, 1, Dim::XY).ok().unwrap();
    assert_eq!(next, 3);
    assert_eq!(q.coord.y, "3");
}

#[test]
fn five_numbers_are_too_many() {
    let t = tokenize("1 2 3 4 5)").unwrap();
    for d in [Dim::XY, Dim::XYZ, Dim::XYM, Dim::XYZM] {
        assert!(Point::from_tokens(&t, 0, d).is_err());
    }
    let t = tokenize("1 2 3 4)").unwrap();
    let (p, next) = Point::from_tokens(&t, 0, Dim::XYZM).ok().unwrap();
    assert_eq!(next, 4);
    assert_eq!(p.coord.m, Some("4".to_string()));
}
