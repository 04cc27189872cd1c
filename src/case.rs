//! Letter case in keywords does not change what a text reads as.
use vstd::prelude::*;
use crate::tokenizer::{
    SpecToken, cons, is_letter, is_number_char, is_space, lex, lex_from, number_end,
    unsigned_part, valid_number, word_end,
};
use crate::parser::{
    coord_at, coords_body, coords_tail, geometries_body, geometries_tail, geometry_at, keyword_at,
    member_at, members_body, members_tail, number_at, number_text, point_body, polygons_body,
    polygons_tail, rings_body, rings_tail, same_letter, same_word, tok_is,
};
use crate::types::Dim;
use crate::parse_text;

verus! {

/// The two characters are equal, or are one letter in its two cases.
pub open spec fn same_ignoring_case(x: char, y: char) -> bool {
    x == y || same_letter(x, y) || same_letter(y, x)
}

/// The two texts differ at most in the case of letters.
pub open spec fn case_variants(a: Seq<char>, b: Seq<char>) -> bool {
    &&& a.len() == b.len()
    &&& forall|i: int| 0 <= i < a.len() ==> same_ignoring_case(#[trigger] a[i], b[i])
}

pub open spec fn token_variant(s: SpecToken, u: SpecToken) -> bool {
    s == u || (s is Word && u is Word && case_variants(s->Word_0, u->Word_0))
}

pub open spec fn tokens_variant(t1: Seq<SpecToken>, t2: Seq<SpecToken>) -> bool {
    &&& t1.len() == t2.len()
    &&& forall|k: int| 0 <= k < t1.len() ==> token_variant(#[trigger] t1[k], t2[k])
}

pub open spec fn lex_variant(r1: Option<Seq<SpecToken>>, r2: Option<Seq<SpecToken>>) -> bool {
    match (r1, r2) {
        (Some(a), Some(b)) => tokens_variant(a, b),
        (None, None) => true,
        _ => false,
    }
}

proof fn lemma_char_classes(x: char, y: char)
    requires
        same_ignoring_case(x, y),
    ensures
        is_space(x) == is_space(y),
        is_letter(x) == is_letter(y),
        is_number_char(x) == is_number_char(y),
        x != y ==> is_letter(x) && is_letter(y),
        x == ',' <==> y == ',',
        x == '(' <==> y == '(',
        x == ')' <==> y == ')',
{
}

proof fn lemma_word_end_variant(a: Seq<char>, b: Seq<char>, j: int)
    requires
        case_variants(a, b),
    ensures
        word_end(a, j) == word_end(b, j),
    decreases a.len() - j,
{
    if 0 <= j < a.len() {
        lemma_char_classes(a[j], b[j]);
        lemma_word_end_variant(a, b, j + 1);
    }
}

proof fn lemma_number_end_variant(a: Seq<char>, b: Seq<char>, j: int)
    requires
        case_variants(a, b),
    ensures
        number_end(a, j) == number_end(b, j),
    decreases a.len() - j,
{
    if 0 <= j < a.len() {
        lemma_char_classes(a[j], b[j]);
        lemma_number_end_variant(a, b, j + 1);
    }
}

proof fn lemma_number_chars(x: Seq<char>)
    requires
        valid_number(x),
    ensures
        forall|k: int| 0 <= k < x.len() ==> is_number_char(#[trigger] x[k]),
{
    let b = unsigned_part(x);
    assert forall|k: int| 0 <= k < x.len() implies is_number_char(#[trigger] x[k]) by {
        if x.len() > 0 && x[0] == '-' {
            if k > 0 {
                assert(x[k] == b[k - 1]);
            }
        } else {
            assert(x[k] == b[k]);
        }
    }
}

/// Case variants of which one is a number are the same text.
proof fn lemma_number_variant(x: Seq<char>, y: Seq<char>)
    requires
        case_variants(x, y),
    ensures
        valid_number(x) ==> x == y,
        valid_number(y) ==> x == y,
{
    if valid_number(x) {
        lemma_number_chars(x);
        assert forall|k: int| 0 <= k < x.len() implies x[k] == y[k] by {
            lemma_char_classes(x[k], y[k]);
        }
        assert(x =~= y);
    }
    if valid_number(y) {
        lemma_number_chars(y);
        assert forall|k: int| 0 <= k < x.len() implies x[k] == y[k] by {
            lemma_char_classes(x[k], y[k]);
        }
        assert(x =~= y);
    }
}

proof fn lemma_cons_variant(x: SpecToken, y: SpecToken, r1: Option<Seq<SpecToken>>, r2: Option<Seq<SpecToken>>)
    requires
        token_variant(x, y),
        lex_variant(r1, r2),
    ensures
        lex_variant(cons(x, r1), cons(y, r2)),
{
    match (r1, r2) {
        (Some(a), Some(b)) => {
            let u1 = seq![x] + a;
            let u2 = seq![y] + b;
            assert forall|k: int| 0 <= k < u1.len() implies token_variant(#[trigger] u1[k], u2[k]) by {
                if k > 0 {
                    assert(u1[k] == a[k - 1] && u2[k] == b[k - 1]);
                }
            }
        },
        _ => {},
    }
}

proof fn lemma_lex_variant(a: Seq<char>, b: Seq<char>, i: int)
    requires
        case_variants(a, b),
    ensures
        lex_variant(lex_from(a, i), lex_from(b, i)),
    decreases a.len() - i,
{
    if i < 0 || i >= a.len() {
        assert(tokens_variant(Seq::<SpecToken>::empty(), Seq::<SpecToken>::empty()));
    } else {
        let c = a[i];
        lemma_char_classes(a[i], b[i]);
        if is_space(c) {
            lemma_lex_variant(a, b, i + 1);
        } else if c == ',' || c == '(' || c == ')' {
            lemma_lex_variant(a, b, i + 1);
            assert(a[i] == b[i]);
            let t = if c == ',' {
                SpecToken::Comma
            } else if c == '(' {
                SpecToken::LParen
            } else {
                SpecToken::RParen
            };
            lemma_cons_variant(t, t, lex_from(a, i + 1), lex_from(b, i + 1));
        } else if is_letter(c) {
            lemma_word_end_variant(a, b, i + 1);
            let e = word_end(a, i + 1);
            if i < e <= a.len() {
                lemma_lex_variant(a, b, e);
                let x = a.subrange(i, e);
                let y = b.subrange(i, e);
                assert forall|k: int| 0 <= k < x.len() implies same_ignoring_case(#[trigger] x[k], y[k]) by {
                    assert(x[k] == a[i + k] && y[k] == b[i + k]);
                }
                lemma_cons_variant(SpecToken::Word(x), SpecToken::Word(y), lex_from(a, e), lex_from(b, e));
            }
        } else if is_number_char(c) {
            lemma_number_end_variant(a, b, i + 1);
            let e = number_end(a, i + 1);
            if i < e <= a.len() {
                lemma_lex_variant(a, b, e);
                let x = a.subrange(i, e);
                let y = b.subrange(i, e);
                assert forall|k: int| 0 <= k < x.len() implies same_ignoring_case(#[trigger] x[k], y[k]) by {
                    assert(x[k] == a[i + k] && y[k] == b[i + k]);
                }
                lemma_number_variant(x, y);
                if valid_number(x) {
                    lemma_cons_variant(SpecToken::Number(x), SpecToken::Number(y), lex_from(a, e), lex_from(b, e));
                }
            }
        }
    }
}

proof fn lemma_letter_case(x: char, y: char, c: char)
    requires
        same_ignoring_case(x, y),
        'A' <= c && c <= 'Z',
    ensures
        same_letter(x, c) == same_letter(y, c),
{
    assert('A' as u32 == 65 && 'Z' as u32 == 90 && 'a' as u32 == 97 && 'z' as u32 == 122);
    assert(('A' <= c) == ('A' as u32 <= c as u32));
    assert((c <= 'Z') == (c as u32 <= 'Z' as u32));
    assert(('a' <= x) == ('a' as u32 <= x as u32));
    assert((x <= 'z') == (x as u32 <= 'z' as u32));
    assert(('a' <= y) == ('a' as u32 <= y as u32));
    assert((y <= 'z') == (y as u32 <= 'z' as u32));
    assert((x == c) == (x as u32 == c as u32));
    assert((y == c) == (y as u32 == c as u32));
    assert((x == y) == (x as u32 == y as u32));
}

proof fn lemma_keyword_variant(t1: Seq<SpecToken>, t2: Seq<SpecToken>, p: int, k: Seq<char>)
    requires
        tokens_variant(t1, t2),
        forall|i: int| 0 <= i < k.len() ==> 'A' <= #[trigger] k[i] && k[i] <= 'Z',
    ensures
        keyword_at(t1, p, k) == keyword_at(t2, p, k),
{
    if 0 <= p < t1.len() {
        assert(token_variant(t1[p], t2[p]));
        if t1[p] is Word && t2[p] is Word {
            let w1 = t1[p]->Word_0;
            let w2 = t2[p]->Word_0;
            if w1.len() == k.len() && w2.len() == k.len() {
                assert forall|i: int| 0 <= i < k.len() implies same_letter(#[trigger] w1[i], k[i]) == same_letter(w2[i], k[i]) by {
                    if t1[p] != t2[p] {
                        lemma_letter_case(w1[i], w2[i], k[i]);
                    }
                }
                if same_word(w1, k) {
                    assert forall|i: int| 0 <= i < w2.len() implies #[trigger] same_letter(w2[i], k[i]) by {
                        assert(same_letter(w1[i], k[i]));
                    }
                }
                if same_word(w2, k) {
                    assert forall|i: int| 0 <= i < w1.len() implies #[trigger] same_letter(w1[i], k[i]) by {
                        assert(same_letter(w2[i], k[i]));
                    }
                }
            }
        }
    }
}

/// What the parser can observe of two token sequences is the same.
pub open spec fn agree(t1: Seq<SpecToken>, t2: Seq<SpecToken>) -> bool {
    &&& t1.len() == t2.len()
    &&& forall|p: int| #[trigger] tok_is(t1, p, SpecToken::Comma) == tok_is(t2, p, SpecToken::Comma)
    &&& forall|p: int| #[trigger] tok_is(t1, p, SpecToken::LParen) == tok_is(t2, p, SpecToken::LParen)
    &&& forall|p: int| #[trigger] tok_is(t1, p, SpecToken::RParen) == tok_is(t2, p, SpecToken::RParen)
    &&& forall|p: int| #[trigger] number_at(t1, p) == number_at(t2, p)
    &&& forall|p: int| number_at(t1, p) ==> #[trigger] number_text(t1, p) == number_text(t2, p)
    &&& forall|p: int| 0 <= p < t1.len() ==> (#[trigger] t1[p] is Word) == t2[p] is Word
    &&& forall|p: int| #[trigger] keyword_at(t1, p, "EMPTY"@) == keyword_at(t2, p, "EMPTY"@)
    &&& forall|p: int| #[trigger] keyword_at(t1, p, "Z"@) == keyword_at(t2, p, "Z"@)
    &&& forall|p: int| #[trigger] keyword_at(t1, p, "M"@) == keyword_at(t2, p, "M"@)
    &&& forall|p: int| #[trigger] keyword_at(t1, p, "ZM"@) == keyword_at(t2, p, "ZM"@)
    &&& forall|p: int| #[trigger] keyword_at(t1, p, "POINT"@) == keyword_at(t2, p, "POINT"@)
    &&& forall|p: int| #[trigger] keyword_at(t1, p, "LINESTRING"@) == keyword_at(t2, p, "LINESTRING"@)
    &&& forall|p: int| #[trigger] keyword_at(t1, p, "POLYGON"@) == keyword_at(t2, p, "POLYGON"@)
    &&& forall|p: int| #[trigger] keyword_at(t1, p, "POLYHEDRALSURFACE"@) == keyword_at(t2, p, "POLYHEDRALSURFACE"@)
    &&& forall|p: int| #[trigger] keyword_at(t1, p, "TRIANGLE"@) == keyword_at(t2, p, "TRIANGLE"@)
    &&& forall|p: int| #[trigger] keyword_at(t1, p, "TIN"@) == keyword_at(t2, p, "TIN"@)
    &&& forall|p: int| #[trigger] keyword_at(t1, p, "MULTIPOINT"@) == keyword_at(t2, p, "MULTIPOINT"@)
    &&& forall|p: int| #[trigger] keyword_at(t1, p, "MULTILINESTRING"@) == keyword_at(t2, p, "MULTILINESTRING"@)
    &&& forall|p: int| #[trigger] keyword_at(t1, p, "MULTIPOLYGON"@) == keyword_at(t2, p, "MULTIPOLYGON"@)
    &&& forall|p: int| #[trigger] keyword_at(t1, p, "GEOMETRYCOLLECTION"@) == keyword_at(t2, p, "GEOMETRYCOLLECTION"@)
}

proof fn lemma_agree(t1: Seq<SpecToken>, t2: Seq<SpecToken>)
    requires
        tokens_variant(t1, t2),
    ensures
        agree(t1, t2),
{
    assert forall|p: int| 0 <= p < t1.len() implies (#[trigger] t1[p] is Word) == t2[p] is Word by {
        assert(token_variant(t1[p], t2[p]));
    }
    assert forall|p: int| #[trigger] tok_is(t1, p, SpecToken::Comma) == tok_is(t2, p, SpecToken::Comma) by {
        if 0 <= p < t1.len() {
            assert(token_variant(t1[p], t2[p]));
        }
    }
    assert forall|p: int| #[trigger] tok_is(t1, p, SpecToken::LParen) == tok_is(t2, p, SpecToken::LParen) by {
        if 0 <= p < t1.len() {
            assert(token_variant(t1[p], t2[p]));
        }
    }
    assert forall|p: int| #[trigger] tok_is(t1, p, SpecToken::RParen) == tok_is(t2, p, SpecToken::RParen) by {
        if 0 <= p < t1.len() {
            assert(token_variant(t1[p], t2[p]));
        }
    }
    assert forall|p: int| #[trigger] number_at(t1, p) == number_at(t2, p) by {
        if 0 <= p < t1.len() {
            assert(token_variant(t1[p], t2[p]));
        }
    }
    assert forall|p: int| number_at(t1, p) implies #[trigger] number_text(t1, p) == number_text(t2, p) by {
        assert(token_variant(t1[p], t2[p]));
    }
    reveal_strlit("EMPTY");
    assert forall|p: int| #[trigger] keyword_at(t1, p, "EMPTY"@) == keyword_at(t2, p, "EMPTY"@) by {
        lemma_keyword_variant(t1, t2, p, "EMPTY"@);
    }
    reveal_strlit("Z");
    assert forall|p: int| #[trigger] keyword_at(t1, p, "Z"@) == keyword_at(t2, p, "Z"@) by {
        lemma_keyword_variant(t1, t2, p, "Z"@);
    }
    reveal_strlit("M");
    assert forall|p: int| #[trigger] keyword_at(t1, p, "M"@) == keyword_at(t2, p, "M"@) by {
        lemma_keyword_variant(t1, t2, p, "M"@);
    }
    reveal_strlit("ZM");
    assert forall|p: int| #[trigger] keyword_at(t1, p, "ZM"@) == keyword_at(t2, p, "ZM"@) by {
        lemma_keyword_variant(t1, t2, p, "ZM"@);
    }
    reveal_strlit("POINT");
    assert forall|p: int| #[trigger] keyword_at(t1, p, "POINT"@) == keyword_at(t2, p, "POINT"@) by {
        lemma_keyword_variant(t1, t2, p, "POINT"@);
    }
    reveal_strlit("LINESTRING");
    assert forall|p: int| #[trigger] keyword_at(t1, p, "LINESTRING"@) == keyword_at(t2, p, "LINESTRING"@) by {
        lemma_keyword_variant(t1, t2, p, "LINESTRING"@);
    }
    reveal_strlit("POLYGON");
    assert forall|p: int| #[trigger] keyword_at(t1, p, "POLYGON"@) == keyword_at(t2, p, "POLYGON"@) by {
        lemma_keyword_variant(t1, t2, p, "POLYGON"@);
    }
    reveal_strlit("POLYHEDRALSURFACE");
    assert forall|p: int| #[trigger] keyword_at(t1, p, "POLYHEDRALSURFACE"@) == keyword_at(t2, p, "POLYHEDRALSURFACE"@) by {
        lemma_keyword_variant(t1, t2, p, "POLYHEDRALSURFACE"@);
    }
    reveal_strlit("TRIANGLE");
    assert forall|p: int| #[trigger] keyword_at(t1, p, "TRIANGLE"@) == keyword_at(t2, p, "TRIANGLE"@) by {
        lemma_keyword_variant(t1, t2, p, "TRIANGLE"@);
    }
    reveal_strlit("TIN");
    assert forall|p: int| #[trigger] keyword_at(t1, p, "TIN"@) == keyword_at(t2, p, "TIN"@) by {
        lemma_keyword_variant(t1, t2, p, "TIN"@);
    }
    reveal_strlit("MULTIPOINT");
    assert forall|p: int| #[trigger] keyword_at(t1, p, "MULTIPOINT"@) == keyword_at(t2, p, "MULTIPOINT"@) by {
        lemma_keyword_variant(t1, t2, p, "MULTIPOINT"@);
    }
    reveal_strlit("MULTILINESTRING");
    assert forall|p: int| #[trigger] keyword_at(t1, p, "MULTILINESTRING"@) == keyword_at(t2, p, "MULTILINESTRING"@) by {
        lemma_keyword_variant(t1, t2, p, "MULTILINESTRING"@);
    }
    reveal_strlit("MULTIPOLYGON");
    assert forall|p: int| #[trigger] keyword_at(t1, p, "MULTIPOLYGON"@) == keyword_at(t2, p, "MULTIPOLYGON"@) by {
        lemma_keyword_variant(t1, t2, p, "MULTIPOLYGON"@);
    }
    reveal_strlit("GEOMETRYCOLLECTION");
    assert forall|p: int| #[trigger] keyword_at(t1, p, "GEOMETRYCOLLECTION"@) == keyword_at(t2, p, "GEOMETRYCOLLECTION"@) by {
        lemma_keyword_variant(t1, t2, p, "GEOMETRYCOLLECTION"@);
    }
}

proof fn lemma_coord_agree(t1: Seq<SpecToken>, t2: Seq<SpecToken>, p: int, d: Dim)
    requires
        agree(t1, t2),
    ensures
        coord_at(t1, p, d) == coord_at(t2, p, d),
{
}

proof fn lemma_point_agree(t1: Seq<SpecToken>, t2: Seq<SpecToken>, p: int, d: Dim)
    requires
        agree(t1, t2),
    ensures
        point_body(t1, p, d) == point_body(t2, p, d),
        member_at(t1, p, d) == member_at(t2, p, d),
{
    lemma_coord_agree(t1, t2, p, d);
    lemma_coord_agree(t1, t2, p + 1, d);
}

proof fn lemma_coords_tail_agree(t1: Seq<SpecToken>, t2: Seq<SpecToken>, p: int, d: Dim)
    requires
        agree(t1, t2),
    ensures
        coords_tail(t1, p, d) == coords_tail(t2, p, d),
    decreases t1.len() - p,
{
    if tok_is(t1, p, SpecToken::Comma) {
        lemma_coord_agree(t1, t2, p + 1, d);
        match coord_at(t1, p + 1, d) {
            Some((e, q)) => {
                if p < q <= t1.len() {
                    lemma_coords_tail_agree(t1, t2, q, d);
                }
            },
            None => {},
        }
    }
}

proof fn lemma_coords_agree(t1: Seq<SpecToken>, t2: Seq<SpecToken>, p: int, d: Dim)
    requires
        agree(t1, t2),
    ensures
        coords_body(t1, p, d) == coords_body(t2, p, d),
{
    lemma_coord_agree(t1, t2, p + 1, d);
    match coord_at(t1, p + 1, d) {
        Some((e, q)) => {
            if p < q <= t1.len() {
                lemma_coords_tail_agree(t1, t2, q, d);
            }
        },
        None => {},
    }
}

proof fn lemma_rings_tail_agree(t1: Seq<SpecToken>, t2: Seq<SpecToken>, p: int, d: Dim)
    requires
        agree(t1, t2),
    ensures
        rings_tail(t1, p, d) == rings_tail(t2, p, d),
    decreases t1.len() - p,
{
    if tok_is(t1, p, SpecToken::Comma) {
        lemma_coords_agree(t1, t2, p + 1, d);
        match coords_body(t1, p + 1, d) {
            Some((e, q)) => {
                if p < q <= t1.len() {
                    lemma_rings_tail_agree(t1, t2, q, d);
                }
            },
            None => {},
        }
    }
}

proof fn lemma_rings_agree(t1: Seq<SpecToken>, t2: Seq<SpecToken>, p: int, d: Dim)
    requires
        agree(t1, t2),
    ensures
        rings_body(t1, p, d) == rings_body(t2, p, d),
{
    lemma_coords_agree(t1, t2, p + 1, d);
    match coords_body(t1, p + 1, d) {
        Some((e, q)) => {
            if p < q <= t1.len() {
                lemma_rings_tail_agree(t1, t2, q, d);
            }
        },
        None => {},
    }
}

proof fn lemma_polygons_tail_agree(t1: Seq<SpecToken>, t2: Seq<SpecToken>, p: int, d: Dim)
    requires
        agree(t1, t2),
    ensures
        polygons_tail(t1, p, d) == polygons_tail(t2, p, d),
    decreases t1.len() - p,
{
    if tok_is(t1, p, SpecToken::Comma) {
        lemma_rings_agree(t1, t2, p + 1, d);
        match rings_body(t1, p + 1, d) {
            Some((e, q)) => {
                if p < q <= t1.len() {
                    lemma_polygons_tail_agree(t1, t2, q, d);
                }
            },
            None => {},
        }
    }
}

proof fn lemma_polygons_agree(t1: Seq<SpecToken>, t2: Seq<SpecToken>, p: int, d: Dim)
    requires
        agree(t1, t2),
    ensures
        polygons_body(t1, p, d) == polygons_body(t2, p, d),
{
    lemma_rings_agree(t1, t2, p + 1, d);
    match rings_body(t1, p + 1, d) {
        Some((e, q)) => {
            if p < q <= t1.len() {
                lemma_polygons_tail_agree(t1, t2, q, d);
            }
        },
        None => {},
    }
}

proof fn lemma_members_tail_agree(t1: Seq<SpecToken>, t2: Seq<SpecToken>, p: int, d: Dim)
    requires
        agree(t1, t2),
    ensures
        members_tail(t1, p, d) == members_tail(t2, p, d),
    decreases t1.len() - p,
{
    if tok_is(t1, p, SpecToken::Comma) {
        lemma_point_agree(t1, t2, p + 1, d);
        match member_at(t1, p + 1, d) {
            Some((e, q)) => {
                if p < q <= t1.len() {
                    lemma_members_tail_agree(t1, t2, q, d);
                }
            },
            None => {},
        }
    }
}

proof fn lemma_members_agree(t1: Seq<SpecToken>, t2: Seq<SpecToken>, p: int, d: Dim)
    requires
        agree(t1, t2),
    ensures
        members_body(t1, p, d) == members_body(t2, p, d),
{
    lemma_point_agree(t1, t2, p + 1, d);
    match member_at(t1, p + 1, d) {
        Some((e, q)) => {
            if p < q <= t1.len() {
                lemma_members_tail_agree(t1, t2, q, d);
            }
        },
        None => {},
    }
}

proof fn lemma_geometries_tail_agree(t1: Seq<SpecToken>, t2: Seq<SpecToken>, p: int)
    requires
        agree(t1, t2),
    ensures
        geometries_tail(t1, p) == geometries_tail(t2, p),
    decreases t1.len() - p, 0int,
{
    if tok_is(t1, p, SpecToken::Comma) {
        lemma_geometry_agree(t1, t2, p + 1);
        match geometry_at(t1, p + 1) {
            Some((e, q)) => {
                if p < q <= t1.len() {
                    lemma_geometries_tail_agree(t1, t2, q);
                }
            },
            None => {},
        }
    }
}

proof fn lemma_geometries_agree(t1: Seq<SpecToken>, t2: Seq<SpecToken>, p: int)
    requires
        agree(t1, t2),
    ensures
        geometries_body(t1, p) == geometries_body(t2, p),
    decreases t1.len() - p, 1int,
{
    if tok_is(t1, p, SpecToken::LParen) {
        lemma_geometry_agree(t1, t2, p + 1);
        match geometry_at(t1, p + 1) {
            Some((e, q)) => {
                if p < q <= t1.len() {
                    lemma_geometries_tail_agree(t1, t2, q);
                }
            },
            None => {},
        }
    }
}

#[verifier::spinoff_prover]
#[verifier::rlimit(60)]
proof fn lemma_geometry_agree(t1: Seq<SpecToken>, t2: Seq<SpecToken>, p: int)
    requires
        agree(t1, t2),
    ensures
        geometry_at(t1, p) == geometry_at(t2, p),
    decreases t1.len() - p, 2int,
{
    if 0 <= p < t1.len() && t1[p] is Word {
        assert(t2[p] is Word);
        let w1 = t1[p]->Word_0;
        let w2 = t2[p]->Word_0;
        let (d, q) = crate::parser::dim_at(t1, p + 1);
        assert(crate::parser::dim_at(t2, p + 1) == (d, q));
        lemma_point_agree(t1, t2, q, d);
        lemma_coords_agree(t1, t2, q, d);
        lemma_rings_agree(t1, t2, q, d);
        lemma_polygons_agree(t1, t2, q, d);
        lemma_members_agree(t1, t2, q, d);
        if p < q {
            lemma_geometries_agree(t1, t2, q);
        }
        assert(same_word(w1, "POINT"@) == same_word(w2, "POINT"@)) by {
            assert(keyword_at(t1, p, "POINT"@) == keyword_at(t2, p, "POINT"@));
        }
        assert(same_word(w1, "LINESTRING"@) == same_word(w2, "LINESTRING"@)) by {
            assert(keyword_at(t1, p, "LINESTRING"@) == keyword_at(t2, p, "LINESTRING"@));
        }
        assert(same_word(w1, "POLYGON"@) == same_word(w2, "POLYGON"@)) by {
            assert(keyword_at(t1, p, "POLYGON"@) == keyword_at(t2, p, "POLYGON"@));
        }
        assert(same_word(w1, "POLYHEDRALSURFACE"@) == same_word(w2, "POLYHEDRALSURFACE"@)) by {
            assert(keyword_at(t1, p, "POLYHEDRALSURFACE"@) == keyword_at(t2, p, "POLYHEDRALSURFACE"@));
        }
        assert(same_word(w1, "TRIANGLE"@) == same_word(w2, "TRIANGLE"@)) by {
            assert(keyword_at(t1, p, "TRIANGLE"@) == keyword_at(t2, p, "TRIANGLE"@));
        }
        assert(same_word(w1, "TIN"@) == same_word(w2, "TIN"@)) by {
            assert(keyword_at(t1, p, "TIN"@) == keyword_at(t2, p, "TIN"@));
        }
        assert(same_word(w1, "MULTIPOINT"@) == same_word(w2, "MULTIPOINT"@)) by {
            assert(keyword_at(t1, p, "MULTIPOINT"@) == keyword_at(t2, p, "MULTIPOINT"@));
        }
        assert(same_word(w1, "MULTILINESTRING"@) == same_word(w2, "MULTILINESTRING"@)) by {
            assert(keyword_at(t1, p, "MULTILINESTRING"@) == keyword_at(t2, p, "MULTILINESTRING"@));
        }
        assert(same_word(w1, "MULTIPOLYGON"@) == same_word(w2, "MULTIPOLYGON"@)) by {
            assert(keyword_at(t1, p, "MULTIPOLYGON"@) == keyword_at(t2, p, "MULTIPOLYGON"@));
        }
        assert(same_word(w1, "GEOMETRYCOLLECTION"@) == same_word(w2, "GEOMETRYCOLLECTION"@)) by {
            assert(keyword_at(t1, p, "GEOMETRYCOLLECTION"@) == keyword_at(t2, p, "GEOMETRYCOLLECTION"@));
        }
    }
}

/// Texts that differ only in the case of letters read as the same
/// geometry, or both fail: keywords are matched without regard to case,
/// and numbers hold no letters.
pub proof fn lemma_case_insensitive(a: Seq<char>, b: Seq<char>)
    requires
        case_variants(a, b),
    ensures
        parse_text(a) == parse_text(b),
{
    lemma_lex_variant(a, b, 0);
    match (lex(a), lex(b)) {
        (Some(t1), Some(t2)) => {
            lemma_agree(t1, t2);
            lemma_geometry_agree(t1, t2, 0);
        },
        _ => {},
    }
}

} // verus!
