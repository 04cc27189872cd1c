//! Reading back what was written: the canonical text of a well-formed
//! geometry lexes to the geometry's tokens, and those tokens parse back to
//! the same geometry.
use vstd::prelude::*;
use crate::tokenizer::{
    SpecToken, is_letter, is_number_char, is_space, lex, lex_from, number_end, valid_number,
    word_end, cons, unsigned_part,
};
use crate::types::{Dim, SpecCoord, SpecGeometry};
use crate::parser::{
    coord_at, coords_body, coords_tail, geometries_body, geometries_tail, geometry_at, member_at,
    members_body, members_tail, polygons_body, polygons_tail, rings_body, rings_tail, same_letter,
    same_word,
};
use crate::writer::{
    coord_dim, coord_text, coords_text, dim_of, dim_tag, first_in_coords, first_in_polygons,
    first_in_members, first_in_rings, geometry_text, join, list_text, members_text, ordinate_text,
    point_text, polygons_text, rings_text,
};
use crate::parse_text;

verus! {

/// Characters that can continue a word or a number.
pub open spec fn is_run_char(c: char) -> bool {
    is_letter(c) || is_number_char(c)
}

/// No word or number runs across the seam between `a` and `b`.
pub open spec fn separated(a: Seq<char>, b: Seq<char>) -> bool {
    a.len() == 0 || b.len() == 0 || !is_run_char(a.last()) || !is_run_char(b[0])
}

pub open spec fn combine(x: Option<Seq<SpecToken>>, y: Option<Seq<SpecToken>>) -> Option<Seq<SpecToken>> {
    match (x, y) {
        (Some(p), Some(q)) => Some(p + q),
        _ => None,
    }
}

proof fn lemma_word_end_shift(a: Seq<char>, b: Seq<char>, j: int)
    requires
        0 <= j <= b.len(),
    ensures
        word_end(a + b, a.len() + j) == a.len() + word_end(b, j),
    decreases b.len() - j,
{
    if j < b.len() {
        assert((a + b)[a.len() + j] == b[j]);
        lemma_word_end_shift(a, b, j + 1);
    }
}

proof fn lemma_number_end_shift(a: Seq<char>, b: Seq<char>, j: int)
    requires
        0 <= j <= b.len(),
    ensures
        number_end(a + b, a.len() + j) == a.len() + number_end(b, j),
    decreases b.len() - j,
{
    if j < b.len() {
        assert((a + b)[a.len() + j] == b[j]);
        lemma_number_end_shift(a, b, j + 1);
    }
}

proof fn lemma_word_end_bounds(s: Seq<char>, j: int)
    requires
        0 <= j <= s.len(),
    ensures
        j <= word_end(s, j) <= s.len(),
    decreases s.len() - j,
{
    if j < s.len() && is_letter(s[j]) {
        lemma_word_end_bounds(s, j + 1);
    }
}

proof fn lemma_number_end_bounds(s: Seq<char>, j: int)
    requires
        0 <= j <= s.len(),
    ensures
        j <= number_end(s, j) <= s.len(),
    decreases s.len() - j,
{
    if j < s.len() && is_number_char(s[j]) {
        lemma_number_end_bounds(s, j + 1);
    }
}

/// Lexing the tail `b` of `a + b` does not depend on `a`.
proof fn lemma_lex_shift(a: Seq<char>, b: Seq<char>, k: int)
    requires
        0 <= k <= b.len(),
    ensures
        lex_from(a + b, a.len() + k) == lex_from(b, k),
    decreases b.len() - k,
{
    let s = a + b;
    if k < b.len() {
        let i = a.len() + k;
        assert(s[i] == b[k]);
        let c = b[k];
        if is_space(c) || c == ',' || c == '(' || c == ')' {
            lemma_lex_shift(a, b, k + 1);
        } else if is_letter(c) {
            lemma_word_end_shift(a, b, k + 1);
            lemma_word_end_bounds(b, k + 1);
            let e = word_end(b, k + 1);
            assert(s.subrange(i, a.len() + e) =~= b.subrange(k, e));
            lemma_lex_shift(a, b, e);
        } else if is_number_char(c) {
            lemma_number_end_shift(a, b, k + 1);
            lemma_number_end_bounds(b, k + 1);
            let e = number_end(b, k + 1);
            assert(s.subrange(i, a.len() + e) =~= b.subrange(k, e));
            lemma_lex_shift(a, b, e);
        }
    }
}

proof fn lemma_word_end_prefix(a: Seq<char>, b: Seq<char>, j: int)
    requires
        separated(a, b),
        0 < j <= a.len(),
        is_letter(a[j - 1]),
    ensures
        word_end(a + b, j) == word_end(a, j),
    decreases a.len() - j,
{
    assert((a + b)[j - 1] == a[j - 1]);
    if j < a.len() {
        assert((a + b)[j] == a[j]);
        if is_letter(a[j]) {
            lemma_word_end_prefix(a, b, j + 1);
        }
    } else if b.len() > 0 {
        assert((a + b)[j] == b[0]);
        assert(a.last() == a[j - 1]);
    }
}

proof fn lemma_number_end_prefix(a: Seq<char>, b: Seq<char>, j: int)
    requires
        separated(a, b),
        0 < j <= a.len(),
        is_number_char(a[j - 1]),
    ensures
        number_end(a + b, j) == number_end(a, j),
    decreases a.len() - j,
{
    assert((a + b)[j - 1] == a[j - 1]);
    if j < a.len() {
        assert((a + b)[j] == a[j]);
        if is_number_char(a[j]) {
            lemma_number_end_prefix(a, b, j + 1);
        }
    } else if b.len() > 0 {
        assert((a + b)[j] == b[0]);
        assert(a.last() == a[j - 1]);
    }
}

proof fn lemma_combine_cons(t: SpecToken, x: Option<Seq<SpecToken>>, y: Option<Seq<SpecToken>>)
    ensures
        cons(t, combine(x, y)) == combine(cons(t, x), y),
{
    match (x, y) {
        (Some(p), Some(q)) => {
            assert(seq![t] + (p + q) =~= (seq![t] + p) + q);
        },
        _ => {},
    }
}

/// Lexing `a + b` from a position in `a` is lexing the rest of `a`, then `b`.
proof fn lemma_lex_prefix(a: Seq<char>, b: Seq<char>, i: int)
    requires
        separated(a, b),
        0 <= i <= a.len(),
    ensures
        lex_from(a + b, i) == combine(lex_from(a, i), lex(b)),
    decreases a.len() - i,
{
    let s = a + b;
    if i == a.len() {
        lemma_lex_shift(a, b, 0);
        match lex(b) {
            Some(q) => {
                assert(seq![] + q =~= q);
            },
            None => {},
        }
    } else {
        assert(s[i] == a[i]);
        let c = a[i];
        if is_space(c) {
            lemma_lex_prefix(a, b, i + 1);
        } else if c == ',' || c == '(' || c == ')' {
            lemma_lex_prefix(a, b, i + 1);
            let t = if c == ',' {
                SpecToken::Comma
            } else if c == '(' {
                SpecToken::LParen
            } else {
                SpecToken::RParen
            };
            lemma_combine_cons(t, lex_from(a, i + 1), lex(b));
        } else if is_letter(c) {
            lemma_word_end_prefix(a, b, i + 1);
            lemma_word_end_bounds(a, i + 1);
            let e = word_end(a, i + 1);
            assert(s.subrange(i, e) =~= a.subrange(i, e));
            lemma_lex_prefix(a, b, e);
            lemma_combine_cons(SpecToken::Word(a.subrange(i, e)), lex_from(a, e), lex(b));
        } else if is_number_char(c) {
            lemma_number_end_prefix(a, b, i + 1);
            lemma_number_end_bounds(a, i + 1);
            let e = number_end(a, i + 1);
            assert(s.subrange(i, e) =~= a.subrange(i, e));
            lemma_lex_prefix(a, b, e);
            lemma_combine_cons(SpecToken::Number(a.subrange(i, e)), lex_from(a, e), lex(b));
        }
    }
}

/// The tokens of two separated texts are the tokens of each, in order.
pub proof fn lemma_lex_concat(a: Seq<char>, b: Seq<char>)
    requires
        separated(a, b),
    ensures
        lex(a + b) == combine(lex(a), lex(b)),
{
    lemma_lex_prefix(a, b, 0);
}

proof fn lemma_number_end_all(x: Seq<char>, j: int)
    requires
        0 <= j <= x.len(),
        forall|k: int| 0 <= k < x.len() ==> is_number_char(#[trigger] x[k]),
    ensures
        number_end(x, j) == x.len(),
    decreases x.len() - j,
{
    if j < x.len() {
        lemma_number_end_all(x, j + 1);
    }
}

/// A well-formed number is one number token.
pub proof fn lemma_lex_number(x: Seq<char>)
    requires
        valid_number(x),
    ensures
        lex(x) == Some(seq![SpecToken::Number(x)]),
{
    let b = unsigned_part(x);
    assert forall|k: int| 0 <= k < x.len() implies is_number_char(#[trigger] x[k]) by {
        if x.len() > 0 && x[0] == '-' {
            if k > 0 {
                assert(x[k] == b[k - 1]);
            }
        } else {
            assert(x[k] == b[k]);
        }
    }
    lemma_number_end_all(x, 1);
    assert(lex_from(x, x.len() as int) == Some(Seq::<SpecToken>::empty()));
    assert(x.subrange(0, x.len() as int) =~= x);
    assert(seq![SpecToken::Number(x)] + Seq::<SpecToken>::empty() =~= seq![SpecToken::Number(x)]);
}

proof fn lemma_word_end_all(x: Seq<char>, j: int)
    requires
        0 <= j <= x.len(),
        forall|k: int| 0 <= k < x.len() ==> is_letter(#[trigger] x[k]),
    ensures
        word_end(x, j) == x.len(),
    decreases x.len() - j,
{
    if j < x.len() {
        lemma_word_end_all(x, j + 1);
    }
}

/// A non-empty run of letters is one word token.
pub proof fn lemma_lex_word(x: Seq<char>)
    requires
        x.len() > 0,
        forall|k: int| 0 <= k < x.len() ==> is_letter(#[trigger] x[k]),
    ensures
        lex(x) == Some(seq![SpecToken::Word(x)]),
{
    lemma_word_end_all(x, 1);
    assert(lex_from(x, x.len() as int) == Some(Seq::<SpecToken>::empty()));
    assert(x.subrange(0, x.len() as int) =~= x);
    assert(seq![SpecToken::Word(x)] + Seq::<SpecToken>::empty() =~= seq![SpecToken::Word(x)]);
}

proof fn lemma_lex_space()
    ensures
        lex(" "@) == Some(Seq::<SpecToken>::empty()),
        " "@.len() == 1,
        " "@[0] == ' ',
{
    reveal_strlit(" ");
    assert(lex_from(" "@, 1) == Some(Seq::<SpecToken>::empty()));
}

proof fn lemma_lex_lparen()
    ensures
        lex("("@) == Some(seq![SpecToken::LParen]),
        "("@.len() == 1,
        "("@[0] == '(',
{
    reveal_strlit("(");
    assert(lex_from("("@, 1) == Some(Seq::<SpecToken>::empty()));
    assert(seq![SpecToken::LParen] + Seq::<SpecToken>::empty() =~= seq![SpecToken::LParen]);
}

proof fn lemma_lex_rparen()
    ensures
        lex(")"@) == Some(seq![SpecToken::RParen]),
        ")"@.len() == 1,
        ")"@[0] == ')',
{
    reveal_strlit(")");
    assert(lex_from(")"@, 1) == Some(Seq::<SpecToken>::empty()));
    assert(seq![SpecToken::RParen] + Seq::<SpecToken>::empty() =~= seq![SpecToken::RParen]);
}

/// Every ordinate of the coordinate is a well-formed number.
pub open spec fn valid_coord(c: SpecCoord) -> bool {
    &&& valid_number(c.x)
    &&& valid_number(c.y)
    &&& c.z matches Some(z) ==> valid_number(z)
    &&& c.m matches Some(m) ==> valid_number(m)
}

pub open spec fn ordinate_tokens(o: Option<Seq<char>>) -> Seq<SpecToken> {
    match o {
        Some(t) => seq![SpecToken::Number(t)],
        None => Seq::empty(),
    }
}

/// The tokens of a coordinate: one number for each ordinate.
pub open spec fn coord_tokens(c: SpecCoord) -> Seq<SpecToken> {
    seq![SpecToken::Number(c.x), SpecToken::Number(c.y)] + ordinate_tokens(c.z) + ordinate_tokens(
        c.m,
    )
}

proof fn lemma_lex_ordinate(o: Option<Seq<char>>)
    requires
        o matches Some(t) ==> valid_number(t),
    ensures
        lex(ordinate_text(o)) == Some(ordinate_tokens(o)),
{
    lemma_lex_space();
    match o {
        Some(t) => {
            lemma_lex_number(t);
            lemma_lex_concat(" "@, t);
            assert(Seq::<SpecToken>::empty() + seq![SpecToken::Number(t)] =~= seq![SpecToken::Number(t)]);
        },
        None => {},
    }
}

/// The text of a coordinate reads back as its ordinates.
pub proof fn lemma_lex_coord(c: SpecCoord)
    requires
        valid_coord(c),
    ensures
        lex(coord_text(c)) == Some(coord_tokens(c)),
{
    lemma_lex_space();
    lemma_lex_number(c.x);
    lemma_lex_number(c.y);
    lemma_lex_ordinate(c.z);
    lemma_lex_ordinate(c.m);
    let a1 = c.x + " "@;
    lemma_lex_concat(c.x, " "@);
    assert(a1.last() == ' ');
    let a2 = a1 + c.y;
    lemma_lex_concat(a1, c.y);
    let oz = ordinate_text(c.z);
    if c.z is Some {
        assert(oz[0] == ' ');
    }
    lemma_lex_concat(a2, oz);
    let a3 = a2 + oz;
    let om = ordinate_text(c.m);
    if c.m is Some {
        assert(om[0] == ' ');
    }
    lemma_lex_concat(a3, om);
    assert(seq![SpecToken::Number(c.x)] + Seq::<SpecToken>::empty() + seq![SpecToken::Number(c.y)]
        + ordinate_tokens(c.z) + ordinate_tokens(c.m) =~= coord_tokens(c));
}

proof fn lemma_lex_upper_word(k: Seq<char>)
    requires
        k.len() > 0,
        forall|i: int| 0 <= i < k.len() ==> 'A' <= #[trigger] k[i] && k[i] <= 'Z',
    ensures
        lex(k) == Some(seq![SpecToken::Word(k)]),
        same_word(k, k),
        is_letter(k[0]),
        is_letter(k.last()),
{
    lemma_lex_word(k);
}

pub open spec fn tag_tokens(d: Dim) -> Seq<SpecToken> {
    match d {
        Dim::XY => Seq::empty(),
        Dim::XYZ => seq![SpecToken::Word("Z"@)],
        Dim::XYM => seq![SpecToken::Word("M"@)],
        Dim::XYZM => seq![SpecToken::Word("ZM"@)],
    }
}

proof fn lemma_lex_tag(d: Dim)
    ensures
        lex(dim_tag(d)) == Some(tag_tokens(d)),
        dim_tag(d).len() > 0 ==> dim_tag(d)[0] == ' ',
{
    lemma_lex_space();
    reveal_strlit("Z");
    reveal_strlit("M");
    reveal_strlit("ZM");
    reveal_strlit(" Z");
    reveal_strlit(" M");
    reveal_strlit(" ZM");
    match d {
        Dim::XY => {
            assert(lex_from(Seq::<char>::empty(), 0) == Some(Seq::<SpecToken>::empty()));
        },
        Dim::XYZ => {
            lemma_lex_upper_word("Z"@);
            assert(" Z"@ =~= " "@ + "Z"@);
            lemma_lex_concat(" "@, "Z"@);
            assert(Seq::<SpecToken>::empty() + tag_tokens(d) =~= tag_tokens(d));
        },
        Dim::XYM => {
            lemma_lex_upper_word("M"@);
            assert(" M"@ =~= " "@ + "M"@);
            lemma_lex_concat(" "@, "M"@);
            assert(Seq::<SpecToken>::empty() + tag_tokens(d) =~= tag_tokens(d));
        },
        Dim::XYZM => {
            lemma_lex_upper_word("ZM"@);
            assert(" ZM"@ =~= " "@ + "ZM"@);
            lemma_lex_concat(" "@, "ZM"@);
            assert(Seq::<SpecToken>::empty() + tag_tokens(d) =~= tag_tokens(d));
        },
    }
}

pub open spec fn point_tokens(o: Option<SpecCoord>) -> Seq<SpecToken> {
    match o {
        Some(c) => seq![SpecToken::LParen] + coord_tokens(c) + seq![SpecToken::RParen],
        None => seq![SpecToken::Word("EMPTY"@)],
    }
}

proof fn lemma_lex_point_body(o: Option<SpecCoord>)
    requires
        o matches Some(c) ==> valid_coord(c),
    ensures
        lex(point_text(o)) == Some(point_tokens(o)),
        point_text(o).len() > 0,
        is_run_char(point_text(o)[0]) ==> point_text(o)[0] == 'E',
{
    reveal_strlit("EMPTY");
    match o {
        Some(c) => {
            lemma_lex_lparen();
            lemma_lex_rparen();
            lemma_lex_coord(c);
            lemma_lex_concat("("@, coord_text(c));
            lemma_lex_concat("("@ + coord_text(c), ")"@);
        },
        None => {
            lemma_lex_upper_word("EMPTY"@);
        },
    }
}

/// The tokens of a point's canonical text.
pub open spec fn point_geometry_tokens(o: Option<SpecCoord>) -> Seq<SpecToken> {
    seq![SpecToken::Word("POINT"@)] + tag_tokens(dim_of(o)) + point_tokens(o)
}

proof fn lemma_lex_point(o: Option<SpecCoord>)
    requires
        o matches Some(c) ==> valid_coord(c),
    ensures
        lex(geometry_text(SpecGeometry::Point(o))) == Some(point_geometry_tokens(o)),
{
    reveal_strlit("POINT");
    lemma_lex_upper_word("POINT"@);
    lemma_lex_space();
    let d = dim_of(o);
    lemma_lex_tag(d);
    lemma_lex_point_body(o);
    let a1 = "POINT"@ + dim_tag(d);
    lemma_lex_concat("POINT"@, dim_tag(d));
    let a2 = a1 + " "@;
    lemma_lex_concat(a1, " "@);
    assert(a2.last() == ' ');
    lemma_lex_concat(a2, point_text(o));
    assert(seq![SpecToken::Word("POINT"@)] + tag_tokens(d) + Seq::<SpecToken>::empty()
        + point_tokens(o) =~= point_geometry_tokens(o));
}

proof fn lemma_tag_words()
    ensures
        same_word("Z"@, "Z"@),
        same_word("M"@, "M"@),
        same_word("ZM"@, "ZM"@),
        same_word("EMPTY"@, "EMPTY"@),
        same_word("POINT"@, "POINT"@),
        !same_word("M"@, "Z"@),
        !same_word("ZM"@, "Z"@),
        !same_word("ZM"@, "M"@),
        !same_word("EMPTY"@, "Z"@),
        !same_word("EMPTY"@, "M"@),
        !same_word("EMPTY"@, "ZM"@),
{
    reveal_strlit("Z");
    reveal_strlit("M");
    reveal_strlit("ZM");
    reveal_strlit("EMPTY");
    reveal_strlit("POINT");
    assert(!same_letter("M"@[0], "Z"@[0]));
}

/// Tokens joined by commas, first `n` parts.
pub open spec fn join_tokens(pt: Seq<Seq<SpecToken>>, n: nat) -> Seq<SpecToken>
    decreases n,
{
    if n == 0 {
        Seq::empty()
    } else if n == 1 {
        pt[0]
    } else {
        join_tokens(pt, (n - 1) as nat) + seq![SpecToken::Comma] + pt[n - 1]
    }
}

/// The tokens of a list: `EMPTY`, or the parts in parentheses.
pub open spec fn list_tokens(pt: Seq<Seq<SpecToken>>) -> Seq<SpecToken> {
    if pt.len() == 0 {
        seq![SpecToken::Word("EMPTY"@)]
    } else {
        seq![SpecToken::LParen] + join_tokens(pt, pt.len()) + seq![SpecToken::RParen]
    }
}

/// A comma before each of the parts `k` to `n - 1`.
pub open spec fn mid_tokens(pt: Seq<Seq<SpecToken>>, k: int, n: int) -> Seq<SpecToken>
    decreases n - k,
{
    if k >= n {
        Seq::empty()
    } else {
        seq![SpecToken::Comma] + pt[k] + mid_tokens(pt, k + 1, n)
    }
}

proof fn lemma_mid_split(pt: Seq<Seq<SpecToken>>, k: int, n: int)
    requires
        0 <= k <= n,
    ensures
        mid_tokens(pt, k, n + 1) == mid_tokens(pt, k, n) + seq![SpecToken::Comma] + pt[n],
    decreases n - k,
{
    if k < n {
        lemma_mid_split(pt, k + 1, n);
        assert(seq![SpecToken::Comma] + pt[k] + (mid_tokens(pt, k + 1, n) + seq![SpecToken::Comma]
            + pt[n]) =~= seq![SpecToken::Comma] + pt[k] + mid_tokens(pt, k + 1, n)
            + seq![SpecToken::Comma] + pt[n]);
    } else {
        assert(mid_tokens(pt, n + 1, n + 1) == Seq::<SpecToken>::empty());
        assert(seq![SpecToken::Comma] + pt[n] + Seq::<SpecToken>::empty() =~= Seq::<SpecToken>::empty()
            + seq![SpecToken::Comma] + pt[n]);
    }
}

proof fn lemma_join_mid(pt: Seq<Seq<SpecToken>>, n: int)
    requires
        1 <= n,
    ensures
        join_tokens(pt, n as nat) == pt[0] + mid_tokens(pt, 1, n),
    decreases n,
{
    if n == 1 {
        assert(pt[0] + Seq::<SpecToken>::empty() =~= pt[0]);
    } else {
        lemma_join_mid(pt, n - 1);
        lemma_mid_split(pt, 1, n - 1);
        assert(pt[0] + mid_tokens(pt, 1, n - 1) + seq![SpecToken::Comma] + pt[n - 1] =~= pt[0] + (
        mid_tokens(pt, 1, n - 1) + seq![SpecToken::Comma] + pt[n - 1]));
    }
}

proof fn lemma_lex_comma_space()
    ensures
        lex(", "@) == Some(seq![SpecToken::Comma]),
        ", "@.len() == 2,
        ", "@[0] == ',',
        ", "@.last() == ' ',
{
    reveal_strlit(", ");
    assert(lex_from(", "@, 2) == Some(Seq::<SpecToken>::empty()));
    assert(lex_from(", "@, 1) == Some(Seq::<SpecToken>::empty()));
    assert(seq![SpecToken::Comma] + Seq::<SpecToken>::empty() =~= seq![SpecToken::Comma]);
}

proof fn lemma_lex_join(parts: Seq<Seq<char>>, pt: Seq<Seq<SpecToken>>, n: nat)
    requires
        n <= parts.len() == pt.len(),
        forall|i: int| 0 <= i < parts.len() ==> lex(#[trigger] parts[i]) == Some(pt[i]),
    ensures
        lex(join(parts, n)) == Some(join_tokens(pt, n)),
    decreases n,
{
    if n == 0 {
        assert(lex_from(Seq::<char>::empty(), 0) == Some(Seq::<SpecToken>::empty()));
    } else if n >= 2 {
        lemma_lex_join(parts, pt, (n - 1) as nat);
        lemma_lex_comma_space();
        let a = join(parts, (n - 1) as nat);
        lemma_lex_concat(a, ", "@);
        assert((a + ", "@).last() == ' ');
        lemma_lex_concat(a + ", "@, parts[n - 1]);
    }
}

proof fn lemma_lex_list(parts: Seq<Seq<char>>, pt: Seq<Seq<SpecToken>>)
    requires
        parts.len() == pt.len(),
        forall|i: int| 0 <= i < parts.len() ==> lex(#[trigger] parts[i]) == Some(pt[i]),
    ensures
        lex(list_text(parts)) == Some(list_tokens(pt)),
        list_text(parts).len() > 0,
        !is_run_char(list_text(parts)[0]) || list_text(parts)[0] == 'E',
{
    reveal_strlit("EMPTY");
    if parts.len() == 0 {
        lemma_lex_upper_word("EMPTY"@);
    } else {
        lemma_lex_join(parts, pt, parts.len());
        lemma_lex_lparen();
        lemma_lex_rparen();
        let j = join(parts, parts.len());
        lemma_lex_concat("("@, j);
        lemma_lex_concat("("@ + j, ")"@);
    }
}

/// Every coordinate has dimension `d` and well-formed ordinates.
pub open spec fn coords_fit(v: Seq<SpecCoord>, d: Dim) -> bool {
    forall|i: int| 0 <= i < v.len() ==> valid_coord(#[trigger] v[i]) && coord_dim(v[i]) == d
}

pub open spec fn coords_token_parts(v: Seq<SpecCoord>) -> Seq<Seq<SpecToken>> {
    v.map_values(|c: SpecCoord| coord_tokens(c))
}

proof fn lemma_lex_coords(v: Seq<SpecCoord>, d: Dim)
    requires
        coords_fit(v, d),
    ensures
        lex(coords_text(v)) == Some(list_tokens(coords_token_parts(v))),
        coords_text(v).len() > 0,
        !is_run_char(coords_text(v)[0]) || coords_text(v)[0] == 'E',
{
    let parts = v.map_values(|c: SpecCoord| coord_text(c));
    let pt = coords_token_parts(v);
    assert forall|i: int| 0 <= i < parts.len() implies lex(#[trigger] parts[i]) == Some(pt[i]) by {
        lemma_lex_coord(v[i]);
    }
    lemma_lex_list(parts, pt);
}

/// A coordinate's tokens, found at `p`, read back as the coordinate.
#[verifier::spinoff_prover]
#[verifier::rlimit(40)]
proof fn lemma_parse_coord(t: Seq<SpecToken>, p: int, c: SpecCoord)
    requires
        0 <= p,
        p + coord_tokens(c).len() <= t.len(),
        t.subrange(p, p + coord_tokens(c).len()) == coord_tokens(c),
        !crate::parser::number_at(t, p + coord_tokens(c).len()),
    ensures
        coord_at(t, p, coord_dim(c)) == Some((c, p + coord_tokens(c).len())),
        coord_tokens(c).len() >= 2,
{
    let ct = coord_tokens(c);
    assert forall|i: int| 0 <= i < ct.len() implies t[p + i] == #[trigger] ct[i] by {
        assert(t.subrange(p, p + ct.len())[i] == t[p + i]);
    }
    assert(t[p] == ct[0] && t[p + 1] == ct[1]);
    match (c.z, c.m) {
        (Some(z), Some(m)) => {
            assert(t[p + 2] == ct[2] && t[p + 3] == ct[3]);
        },
        (Some(z), None) => {
            assert(t[p + 2] == ct[2]);
        },
        (None, Some(m)) => {
            assert(t[p + 2] == ct[2]);
        },
        (None, None) => {},
    }
}

#[verifier::spinoff_prover]
#[verifier::rlimit(40)]
proof fn lemma_parse_coords_tail(t: Seq<SpecToken>, q: int, v: Seq<SpecCoord>, k: int, d: Dim)
    requires
        1 <= k <= v.len(),
        coords_fit(v, d),
        0 <= q,
        q + mid_tokens(coords_token_parts(v), k, v.len() as int).len() + 1 <= t.len(),
        t.subrange(q, q + mid_tokens(coords_token_parts(v), k, v.len() as int).len() + 1)
            == mid_tokens(coords_token_parts(v), k, v.len() as int) + seq![SpecToken::RParen],
    ensures
        coords_tail(t, q, d) == Some(
            (v.subrange(k, v.len() as int), q + mid_tokens(coords_token_parts(v), k, v.len() as int).len() + 1),
        ),
    decreases v.len() - k,
{
    let pt = coords_token_parts(v);
    let n = v.len() as int;
    let r = mid_tokens(pt, k, n) + seq![SpecToken::RParen];
    assert(t[q] == r[0]) by {
        assert(t.subrange(q, q + r.len())[0] == t[q]);
    }
    if k == n {
        assert(v.subrange(k, n) =~= Seq::<SpecCoord>::empty());
    } else {
        let c = v[k];
        let ct = coord_tokens(c);
        let rest = mid_tokens(pt, k + 1, n) + seq![SpecToken::RParen];
        assert(r =~= seq![SpecToken::Comma] + ct + rest);
        assert(t.subrange(q + 1, q + 1 + ct.len()) =~= ct) by {
            assert forall|i: int| 0 <= i < ct.len() implies t.subrange(q + 1, q + 1 + ct.len())[i] == ct[i] by {
                assert(t.subrange(q, q + r.len())[1 + i] == r[1 + i]);
            }
        }
        assert(t[q + 1 + ct.len()] == rest[0]) by {
            assert(t.subrange(q, q + r.len())[1 + ct.len() as int] == r[1 + ct.len() as int]);
        }
        assert(!(rest[0] is Number));
        lemma_parse_coord(t, q + 1, c);
        let q2 = q + 1 + ct.len();
        assert(t.subrange(q2, q2 + rest.len()) =~= rest) by {
            assert forall|i: int| 0 <= i < rest.len() implies t.subrange(q2, q2 + rest.len())[i] == rest[i] by {
                assert(t.subrange(q, q + r.len())[1 + ct.len() + i] == r[1 + ct.len() + i]);
            }
        }
        lemma_parse_coords_tail(t, q2, v, k + 1, d);
        assert(seq![c] + v.subrange(k + 1, n) =~= v.subrange(k, n));
    }
}

/// The tokens of a coordinate list, found at `p`, read back as the list.
#[verifier::spinoff_prover]
#[verifier::rlimit(40)]
proof fn lemma_parse_coords(t: Seq<SpecToken>, p: int, v: Seq<SpecCoord>, d: Dim)
    requires
        coords_fit(v, d),
        0 <= p,
        p + list_tokens(coords_token_parts(v)).len() <= t.len(),
        t.subrange(p, p + list_tokens(coords_token_parts(v)).len()) == list_tokens(coords_token_parts(v)),
    ensures
        coords_body(t, p, d) == Some((v, p + list_tokens(coords_token_parts(v)).len())),
{
    let pt = coords_token_parts(v);
    let l = list_tokens(pt);
    let n = v.len() as int;
    lemma_tag_words();
    assert(t[p] == l[0]) by {
        assert(t.subrange(p, p + l.len())[0] == t[p]);
    }
    if n == 0 {
        assert(v =~= Seq::<SpecCoord>::empty());
    } else {
        lemma_join_mid(pt, n);
        let c = v[0];
        let ct = coord_tokens(c);
        let rest = mid_tokens(pt, 1, n) + seq![SpecToken::RParen];
        assert(l =~= seq![SpecToken::LParen] + ct + rest);
        assert(t.subrange(p + 1, p + 1 + ct.len()) =~= ct) by {
            assert forall|i: int| 0 <= i < ct.len() implies t.subrange(p + 1, p + 1 + ct.len())[i] == ct[i] by {
                assert(t.subrange(p, p + l.len())[1 + i] == l[1 + i]);
            }
        }
        assert(t[p + 1 + ct.len()] == rest[0]) by {
            assert(t.subrange(p, p + l.len())[1 + ct.len() as int] == l[1 + ct.len() as int]);
        }
        assert(!(rest[0] is Number));
        lemma_parse_coord(t, p + 1, c);
        let q = p + 1 + ct.len();
        assert(t.subrange(q, q + rest.len()) =~= rest) by {
            assert forall|i: int| 0 <= i < rest.len() implies t.subrange(q, q + rest.len())[i] == rest[i] by {
                assert(t.subrange(p, p + l.len())[1 + ct.len() + i] == l[1 + ct.len() + i]);
            }
        }
        lemma_parse_coords_tail(t, q, v, 1, d);
        assert(seq![c] + v.subrange(1, n) =~= v);
    }
}

proof fn lemma_lex_tagged(name: Seq<char>, d: Dim, body: Seq<char>, bt: Seq<SpecToken>)
    requires
        name.len() > 0,
        forall|i: int| 0 <= i < name.len() ==> 'A' <= #[trigger] name[i] && name[i] <= 'Z',
        lex(body) == Some(bt),
    ensures
        lex(name + dim_tag(d) + " "@ + body) == Some(
            seq![SpecToken::Word(name)] + tag_tokens(d) + bt,
        ),
{
    lemma_lex_upper_word(name);
    lemma_lex_space();
    lemma_lex_tag(d);
    let a1 = name + dim_tag(d);
    lemma_lex_concat(name, dim_tag(d));
    let a2 = a1 + " "@;
    lemma_lex_concat(a1, " "@);
    assert(a2.last() == ' ');
    lemma_lex_concat(a2, body);
    assert(seq![SpecToken::Word(name)] + tag_tokens(d) + Seq::<SpecToken>::empty() + bt
        =~= seq![SpecToken::Word(name)] + tag_tokens(d) + bt);
}

/// Every member fits dimension `d`.
pub open spec fn rings_fit(v: Seq<Seq<SpecCoord>>, d: Dim) -> bool {
    forall|i: int| 0 <= i < v.len() ==> coords_fit(#[trigger] v[i], d)
}

pub open spec fn rings_token_parts(v: Seq<Seq<SpecCoord>>) -> Seq<Seq<SpecToken>> {
    v.map_values(|x: Seq<SpecCoord>| list_tokens(coords_token_parts(x)))
}

proof fn lemma_lex_rings(v: Seq<Seq<SpecCoord>>, d: Dim)
    requires
        rings_fit(v, d),
    ensures
        lex(rings_text(v)) == Some(list_tokens(rings_token_parts(v))),
{
    let parts = v.map_values(|x: Seq<SpecCoord>| coords_text(x));
    let pt = rings_token_parts(v);
    assert forall|i: int| 0 <= i < parts.len() implies lex(#[trigger] parts[i]) == Some(pt[i]) by {
        lemma_lex_coords(v[i], d);
    }
    lemma_lex_list(parts, pt);
}

#[verifier::spinoff_prover]
#[verifier::rlimit(40)]
proof fn lemma_parse_rings_tail(t: Seq<SpecToken>, q: int, v: Seq<Seq<SpecCoord>>, k: int, d: Dim)
    requires
        1 <= k <= v.len(),
        rings_fit(v, d),
        0 <= q,
        q + mid_tokens(rings_token_parts(v), k, v.len() as int).len() + 1 <= t.len(),
        t.subrange(q, q + mid_tokens(rings_token_parts(v), k, v.len() as int).len() + 1)
            == mid_tokens(rings_token_parts(v), k, v.len() as int) + seq![SpecToken::RParen],
    ensures
        rings_tail(t, q, d) == Some(
            (v.subrange(k, v.len() as int), q + mid_tokens(rings_token_parts(v), k, v.len() as int).len() + 1),
        ),
    decreases v.len() - k,
{
    let pt = rings_token_parts(v);
    let n = v.len() as int;
    let r = mid_tokens(pt, k, n) + seq![SpecToken::RParen];
    assert(t[q] == r[0]) by {
        assert(t.subrange(q, q + r.len())[0] == t[q]);
    }
    if k == n {
        assert(v.subrange(k, n) =~= Seq::<Seq<SpecCoord>>::empty());
    } else {
        let c = v[k];
        let ct = list_tokens(coords_token_parts(c));
        let rest = mid_tokens(pt, k + 1, n) + seq![SpecToken::RParen];
        assert(r =~= seq![SpecToken::Comma] + ct + rest);
        assert(t.subrange(q + 1, q + 1 + ct.len()) =~= ct) by {
            assert forall|i: int| 0 <= i < ct.len() implies t.subrange(q + 1, q + 1 + ct.len())[i] == ct[i] by {
                assert(t.subrange(q, q + r.len())[1 + i] == r[1 + i]);
            }
        }
        lemma_parse_coords(t, q + 1, c, d);
        let q2 = q + 1 + ct.len();
        assert(t.subrange(q2, q2 + rest.len()) =~= rest) by {
            assert forall|i: int| 0 <= i < rest.len() implies t.subrange(q2, q2 + rest.len())[i] == rest[i] by {
                assert(t.subrange(q, q + r.len())[1 + ct.len() + i] == r[1 + ct.len() + i]);
            }
        }
        lemma_parse_rings_tail(t, q2, v, k + 1, d);
        assert(seq![c] + v.subrange(k + 1, n) =~= v.subrange(k, n));
    }
}

#[verifier::spinoff_prover]
#[verifier::rlimit(40)]
proof fn lemma_parse_rings(t: Seq<SpecToken>, p: int, v: Seq<Seq<SpecCoord>>, d: Dim)
    requires
        rings_fit(v, d),
        0 <= p,
        p + list_tokens(rings_token_parts(v)).len() <= t.len(),
        t.subrange(p, p + list_tokens(rings_token_parts(v)).len()) == list_tokens(rings_token_parts(v)),
    ensures
        rings_body(t, p, d) == Some((v, p + list_tokens(rings_token_parts(v)).len())),
{
    let pt = rings_token_parts(v);
    let l = list_tokens(pt);
    let n = v.len() as int;
    lemma_tag_words();
    assert(t[p] == l[0]) by {
        assert(t.subrange(p, p + l.len())[0] == t[p]);
    }
    if n == 0 {
        assert(v =~= Seq::<Seq<SpecCoord>>::empty());
    } else {
        lemma_join_mid(pt, n);
        let c = v[0];
        let ct = list_tokens(coords_token_parts(c));
        let rest = mid_tokens(pt, 1, n) + seq![SpecToken::RParen];
        assert(l =~= seq![SpecToken::LParen] + ct + rest);
        assert(t.subrange(p + 1, p + 1 + ct.len()) =~= ct) by {
            assert forall|i: int| 0 <= i < ct.len() implies t.subrange(p + 1, p + 1 + ct.len())[i] == ct[i] by {
                assert(t.subrange(p, p + l.len())[1 + i] == l[1 + i]);
            }
        }
        lemma_parse_coords(t, p + 1, c, d);
        let q = p + 1 + ct.len();
        assert(t.subrange(q, q + rest.len()) =~= rest) by {
            assert forall|i: int| 0 <= i < rest.len() implies t.subrange(q, q + rest.len())[i] == rest[i] by {
                assert(t.subrange(p, p + l.len())[1 + ct.len() + i] == l[1 + ct.len() + i]);
            }
        }
        lemma_parse_rings_tail(t, q, v, 1, d);
        assert(seq![c] + v.subrange(1, n) =~= v);
    }
}

/// Every member fits dimension `d`.
pub open spec fn polygons_fit(v: Seq<Seq<Seq<SpecCoord>>>, d: Dim) -> bool {
    forall|i: int| 0 <= i < v.len() ==> rings_fit(#[trigger] v[i], d)
}

pub open spec fn polygons_token_parts(v: Seq<Seq<Seq<SpecCoord>>>) -> Seq<Seq<SpecToken>> {
    v.map_values(|x: Seq<Seq<SpecCoord>>| list_tokens(rings_token_parts(x)))
}

proof fn lemma_lex_polygons(v: Seq<Seq<Seq<SpecCoord>>>, d: Dim)
    requires
        polygons_fit(v, d),
    ensures
        lex(polygons_text(v)) == Some(list_tokens(polygons_token_parts(v))),
{
    let parts = v.map_values(|x: Seq<Seq<SpecCoord>>| rings_text(x));
    let pt = polygons_token_parts(v);
    assert forall|i: int| 0 <= i < parts.len() implies lex(#[trigger] parts[i]) == Some(pt[i]) by {
        lemma_lex_rings(v[i], d);
    }
    lemma_lex_list(parts, pt);
}

#[verifier::spinoff_prover]
#[verifier::rlimit(40)]
proof fn lemma_parse_polygons_tail(t: Seq<SpecToken>, q: int, v: Seq<Seq<Seq<SpecCoord>>>, k: int, d: Dim)
    requires
        1 <= k <= v.len(),
        polygons_fit(v, d),
        0 <= q,
        q + mid_tokens(polygons_token_parts(v), k, v.len() as int).len() + 1 <= t.len(),
        t.subrange(q, q + mid_tokens(polygons_token_parts(v), k, v.len() as int).len() + 1)
            == mid_tokens(polygons_token_parts(v), k, v.len() as int) + seq![SpecToken::RParen],
    ensures
        polygons_tail(t, q, d) == Some(
            (v.subrange(k, v.len() as int), q + mid_tokens(polygons_token_parts(v), k, v.len() as int).len() + 1),
        ),
    decreases v.len() - k,
{
    let pt = polygons_token_parts(v);
    let n = v.len() as int;
    let r = mid_tokens(pt, k, n) + seq![SpecToken::RParen];
    assert(t[q] == r[0]) by {
        assert(t.subrange(q, q + r.len())[0] == t[q]);
    }
    if k == n {
        assert(v.subrange(k, n) =~= Seq::<Seq<Seq<SpecCoord>>>::empty());
    } else {
        let c = v[k];
        let ct = list_tokens(rings_token_parts(c));
        let rest = mid_tokens(pt, k + 1, n) + seq![SpecToken::RParen];
        assert(r =~= seq![SpecToken::Comma] + ct + rest);
        assert(t.subrange(q + 1, q + 1 + ct.len()) =~= ct) by {
            assert forall|i: int| 0 <= i < ct.len() implies t.subrange(q + 1, q + 1 + ct.len())[i] == ct[i] by {
                assert(t.subrange(q, q + r.len())[1 + i] == r[1 + i]);
            }
        }
        lemma_parse_rings(t, q + 1, c, d);
        let q2 = q + 1 + ct.len();
        assert(t.subrange(q2, q2 + rest.len()) =~= rest) by {
            assert forall|i: int| 0 <= i < rest.len() implies t.subrange(q2, q2 + rest.len())[i] == rest[i] by {
                assert(t.subrange(q, q + r.len())[1 + ct.len() + i] == r[1 + ct.len() + i]);
            }
        }
        lemma_parse_polygons_tail(t, q2, v, k + 1, d);
        assert(seq![c] + v.subrange(k + 1, n) =~= v.subrange(k, n));
    }
}

#[verifier::spinoff_prover]
#[verifier::rlimit(40)]
proof fn lemma_parse_polygons(t: Seq<SpecToken>, p: int, v: Seq<Seq<Seq<SpecCoord>>>, d: Dim)
    requires
        polygons_fit(v, d),
        0 <= p,
        p + list_tokens(polygons_token_parts(v)).len() <= t.len(),
        t.subrange(p, p + list_tokens(polygons_token_parts(v)).len()) == list_tokens(polygons_token_parts(v)),
    ensures
        polygons_body(t, p, d) == Some((v, p + list_tokens(polygons_token_parts(v)).len())),
{
    let pt = polygons_token_parts(v);
    let l = list_tokens(pt);
    let n = v.len() as int;
    lemma_tag_words();
    assert(t[p] == l[0]) by {
        assert(t.subrange(p, p + l.len())[0] == t[p]);
    }
    if n == 0 {
        assert(v =~= Seq::<Seq<Seq<SpecCoord>>>::empty());
    } else {
        lemma_join_mid(pt, n);
        let c = v[0];
        let ct = list_tokens(rings_token_parts(c));
        let rest = mid_tokens(pt, 1, n) + seq![SpecToken::RParen];
        assert(l =~= seq![SpecToken::LParen] + ct + rest);
        assert(t.subrange(p + 1, p + 1 + ct.len()) =~= ct) by {
            assert forall|i: int| 0 <= i < ct.len() implies t.subrange(p + 1, p + 1 + ct.len())[i] == ct[i] by {
                assert(t.subrange(p, p + l.len())[1 + i] == l[1 + i]);
            }
        }
        lemma_parse_rings(t, p + 1, c, d);
        let q = p + 1 + ct.len();
        assert(t.subrange(q, q + rest.len()) =~= rest) by {
            assert forall|i: int| 0 <= i < rest.len() implies t.subrange(q, q + rest.len())[i] == rest[i] by {
                assert(t.subrange(p, p + l.len())[1 + ct.len() + i] == l[1 + ct.len() + i]);
            }
        }
        lemma_parse_polygons_tail(t, q, v, 1, d);
        assert(seq![c] + v.subrange(1, n) =~= v);
    }
}

/// Every present member has well-formed ordinates and dimension `d`.
pub open spec fn members_fit(v: Seq<Option<SpecCoord>>, d: Dim) -> bool {
    forall|i: int|
        0 <= i < v.len() ==> (#[trigger] v[i] matches Some(c) ==> valid_coord(c) && coord_dim(c)
            == d)
}

pub open spec fn members_token_parts(v: Seq<Option<SpecCoord>>) -> Seq<Seq<SpecToken>> {
    v.map_values(|o: Option<SpecCoord>| point_tokens(o))
}

proof fn lemma_lex_members(v: Seq<Option<SpecCoord>>, d: Dim)
    requires
        members_fit(v, d),
    ensures
        lex(members_text(v)) == Some(list_tokens(members_token_parts(v))),
{
    let parts = v.map_values(|o: Option<SpecCoord>| point_text(o));
    let pt = members_token_parts(v);
    assert forall|i: int| 0 <= i < parts.len() implies lex(#[trigger] parts[i]) == Some(pt[i]) by {
        lemma_lex_point_body(v[i]);
    }
    lemma_lex_list(parts, pt);
}

/// A multipoint member's tokens, found at `p`, read back as the member.
#[verifier::spinoff_prover]
#[verifier::rlimit(40)]
proof fn lemma_parse_member(t: Seq<SpecToken>, p: int, o: Option<SpecCoord>, d: Dim)
    requires
        o matches Some(c) ==> valid_coord(c) && coord_dim(c) == d,
        0 <= p,
        p + point_tokens(o).len() <= t.len(),
        t.subrange(p, p + point_tokens(o).len()) == point_tokens(o),
    ensures
        member_at(t, p, d) == Some((o, p + point_tokens(o).len())),
{
    let pt = point_tokens(o);
    lemma_tag_words();
    assert forall|i: int| 0 <= i < pt.len() implies t[p + i] == #[trigger] pt[i] by {
        assert(t.subrange(p, p + pt.len())[i] == t[p + i]);
    }
    assert(t[p] == pt[0]);
    match o {
        Some(c) => {
            let ct = coord_tokens(c);
            assert(t.subrange(p + 1, p + 1 + ct.len()) =~= ct) by {
                assert forall|i: int| 0 <= i < ct.len() implies t.subrange(p + 1, p + 1 + ct.len())[i] == ct[i] by {
                    assert(t[p + 1 + i] == pt[1 + i]);
                }
            }
            assert(t[p + 1 + ct.len()] == pt[1 + ct.len() as int]);
            lemma_parse_coord(t, p + 1, c);
        },
        None => {},
    }
}

#[verifier::spinoff_prover]
#[verifier::rlimit(40)]
proof fn lemma_parse_members_tail(t: Seq<SpecToken>, q: int, v: Seq<Option<SpecCoord>>, k: int, d: Dim)
    requires
        1 <= k <= v.len(),
        members_fit(v, d),
        0 <= q,
        q + mid_tokens(members_token_parts(v), k, v.len() as int).len() + 1 <= t.len(),
        t.subrange(q, q + mid_tokens(members_token_parts(v), k, v.len() as int).len() + 1)
            == mid_tokens(members_token_parts(v), k, v.len() as int) + seq![SpecToken::RParen],
    ensures
        members_tail(t, q, d) == Some(
            (v.subrange(k, v.len() as int), q + mid_tokens(members_token_parts(v), k, v.len() as int).len() + 1),
        ),
    decreases v.len() - k,
{
    let pt = members_token_parts(v);
    let n = v.len() as int;
    let r = mid_tokens(pt, k, n) + seq![SpecToken::RParen];
    assert(t[q] == r[0]) by {
        assert(t.subrange(q, q + r.len())[0] == t[q]);
    }
    if k == n {
        assert(v.subrange(k, n) =~= Seq::<Option<SpecCoord>>::empty());
    } else {
        let c = v[k];
        let ct = point_tokens(c);
        let rest = mid_tokens(pt, k + 1, n) + seq![SpecToken::RParen];
        assert(r =~= seq![SpecToken::Comma] + ct + rest);
        assert(t.subrange(q + 1, q + 1 + ct.len()) =~= ct) by {
            assert forall|i: int| 0 <= i < ct.len() implies t.subrange(q + 1, q + 1 + ct.len())[i] == ct[i] by {
                assert(t.subrange(q, q + r.len())[1 + i] == r[1 + i]);
            }
        }
        lemma_parse_member(t, q + 1, c, d);
        let q2 = q + 1 + ct.len();
        assert(t.subrange(q2, q2 + rest.len()) =~= rest) by {
            assert forall|i: int| 0 <= i < rest.len() implies t.subrange(q2, q2 + rest.len())[i] == rest[i] by {
                assert(t.subrange(q, q + r.len())[1 + ct.len() + i] == r[1 + ct.len() + i]);
            }
        }
        lemma_parse_members_tail(t, q2, v, k + 1, d);
        assert(seq![c] + v.subrange(k + 1, n) =~= v.subrange(k, n));
    }
}

#[verifier::spinoff_prover]
#[verifier::rlimit(40)]
proof fn lemma_parse_members(t: Seq<SpecToken>, p: int, v: Seq<Option<SpecCoord>>, d: Dim)
    requires
        members_fit(v, d),
        0 <= p,
        p + list_tokens(members_token_parts(v)).len() <= t.len(),
        t.subrange(p, p + list_tokens(members_token_parts(v)).len()) == list_tokens(members_token_parts(v)),
    ensures
        members_body(t, p, d) == Some((v, p + list_tokens(members_token_parts(v)).len())),
{
    let pt = members_token_parts(v);
    let l = list_tokens(pt);
    let n = v.len() as int;
    lemma_tag_words();
    assert(t[p] == l[0]) by {
        assert(t.subrange(p, p + l.len())[0] == t[p]);
    }
    if n == 0 {
        assert(v =~= Seq::<Option<SpecCoord>>::empty());
    } else {
        lemma_join_mid(pt, n);
        let c = v[0];
        let ct = point_tokens(c);
        let rest = mid_tokens(pt, 1, n) + seq![SpecToken::RParen];
        assert(l =~= seq![SpecToken::LParen] + ct + rest);
        assert(t.subrange(p + 1, p + 1 + ct.len()) =~= ct) by {
            assert forall|i: int| 0 <= i < ct.len() implies t.subrange(p + 1, p + 1 + ct.len())[i] == ct[i] by {
                assert(t.subrange(p, p + l.len())[1 + i] == l[1 + i]);
            }
        }
        lemma_parse_member(t, p + 1, c, d);
        let q = p + 1 + ct.len();
        assert(t.subrange(q, q + rest.len()) =~= rest) by {
            assert forall|i: int| 0 <= i < rest.len() implies t.subrange(q, q + rest.len())[i] == rest[i] by {
                assert(t.subrange(p, p + l.len())[1 + ct.len() + i] == l[1 + ct.len() + i]);
            }
        }
        lemma_parse_members_tail(t, q, v, 1, d);
        assert(seq![c] + v.subrange(1, n) =~= v);
    }
}

pub open spec fn kind_tokens(name: Seq<char>, d: Dim, l: Seq<SpecToken>) -> Seq<SpecToken> {
    seq![SpecToken::Word(name)] + tag_tokens(d) + l
}

/// The tokens of a geometry's canonical text.
pub open spec fn geometry_tokens(g: SpecGeometry) -> Seq<SpecToken>
    decreases g,
{
    match g {
        SpecGeometry::Point(o) => kind_tokens("POINT"@, dim_of(o), point_tokens(o)),
        SpecGeometry::LineString(v) => kind_tokens("LINESTRING"@, dim_of(first_in_coords(v)), list_tokens(coords_token_parts(v))),
        SpecGeometry::Polygon(v) => kind_tokens("POLYGON"@, dim_of(first_in_rings(v, 0)), list_tokens(rings_token_parts(v))),
        SpecGeometry::PolyhedralSurface(v) => kind_tokens("POLYHEDRALSURFACE"@, dim_of(first_in_polygons(v, 0)), list_tokens(polygons_token_parts(v))),
        SpecGeometry::Triangle(v) => kind_tokens("TRIANGLE"@, dim_of(first_in_rings(v, 0)), list_tokens(rings_token_parts(v))),
        SpecGeometry::Tin(v) => kind_tokens("TIN"@, dim_of(first_in_polygons(v, 0)), list_tokens(polygons_token_parts(v))),
        SpecGeometry::MultiPoint(v) => kind_tokens("MULTIPOINT"@, dim_of(first_in_members(v, 0)), list_tokens(members_token_parts(v))),
        SpecGeometry::MultiLineString(v) => kind_tokens("MULTILINESTRING"@, dim_of(first_in_rings(v, 0)), list_tokens(rings_token_parts(v))),
        SpecGeometry::MultiPolygon(v) => kind_tokens("MULTIPOLYGON"@, dim_of(first_in_polygons(v, 0)), list_tokens(polygons_token_parts(v))),
        SpecGeometry::GeometryCollection(v) => seq![SpecToken::Word("GEOMETRYCOLLECTION"@)] + list_tokens(
            member_tokens_upto(v, v.len()),
        ),
    }
}

/// The tokens of the first `n` members of a collection, one part each.
pub open spec fn member_tokens_upto(v: Seq<SpecGeometry>, n: nat) -> Seq<Seq<SpecToken>>
    decreases v, n,
{
    if n == 0 || n > v.len() {
        Seq::empty()
    } else {
        member_tokens_upto(v, (n - 1) as nat).push(geometry_tokens(v[n - 1]))
    }
}

/// A geometry that writing and reading keep: every ordinate is a
/// well-formed number, and within each geometry that is not a collection
/// every coordinate has the dimension of the first one.
pub open spec fn well_formed(g: SpecGeometry) -> bool
    decreases g,
{
    match g {
        SpecGeometry::Point(o) => o matches Some(c) ==> valid_coord(c),
        SpecGeometry::LineString(v) => coords_fit(v, dim_of(first_in_coords(v))),
        SpecGeometry::Polygon(v) => rings_fit(v, dim_of(first_in_rings(v, 0))),
        SpecGeometry::PolyhedralSurface(v) => polygons_fit(v, dim_of(first_in_polygons(v, 0))),
        SpecGeometry::Triangle(v) => rings_fit(v, dim_of(first_in_rings(v, 0))),
        SpecGeometry::Tin(v) => polygons_fit(v, dim_of(first_in_polygons(v, 0))),
        SpecGeometry::MultiPoint(v) => members_fit(v, dim_of(first_in_members(v, 0))),
        SpecGeometry::MultiLineString(v) => rings_fit(v, dim_of(first_in_rings(v, 0))),
        SpecGeometry::MultiPolygon(v) => polygons_fit(v, dim_of(first_in_polygons(v, 0))),
        SpecGeometry::GeometryCollection(v) => members_well_formed(v, v.len()),
    }
}

/// The first `n` members of a collection are well formed.
pub open spec fn members_well_formed(v: Seq<SpecGeometry>, n: nat) -> bool
    decreases v, n,
{
    if n == 0 || n > v.len() {
        true
    } else {
        members_well_formed(v, (n - 1) as nat) && well_formed(v[n - 1])
    }
}

proof fn lemma_member_tokens_upto(v: Seq<SpecGeometry>, n: nat)
    requires
        n <= v.len(),
    ensures
        member_tokens_upto(v, n).len() == n,
        forall|i: int| 0 <= i < n ==> #[trigger] member_tokens_upto(v, n)[i] == geometry_tokens(v[i]),
    decreases n,
{
    if n > 0 {
        lemma_member_tokens_upto(v, (n - 1) as nat);
        assert(member_tokens_upto(v, n) == member_tokens_upto(v, (n - 1) as nat).push(
            geometry_tokens(v[n - 1]),
        ));
    } else {
        assert(member_tokens_upto(v, n) == Seq::<Seq<SpecToken>>::empty());
    }
}

proof fn lemma_members_well_formed(v: Seq<SpecGeometry>, n: nat)
    requires
        n <= v.len(),
        members_well_formed(v, n),
    ensures
        forall|i: int| 0 <= i < n ==> well_formed(#[trigger] v[i]),
    decreases n,
{
    if n > 0 {
        assert(members_well_formed(v, n) == (members_well_formed(v, (n - 1) as nat) && well_formed(
            v[n - 1],
        )));
        lemma_members_well_formed(v, (n - 1) as nat);
    }
}

/// After a kind word at `p`, the tag is read as `d` when the body starts
/// with a parenthesis or `EMPTY`.
#[verifier::spinoff_prover]
#[verifier::rlimit(40)]
proof fn lemma_parse_tag_at(t: Seq<SpecToken>, p: int, name: Seq<char>, d: Dim, l: Seq<SpecToken>)
    requires
        0 <= p,
        p + kind_tokens(name, d, l).len() <= t.len(),
        t.subrange(p, p + kind_tokens(name, d, l).len()) == kind_tokens(name, d, l),
        l.len() > 0,
        l[0] == SpecToken::LParen || l[0] == SpecToken::Word("EMPTY"@),
    ensures
        crate::parser::dim_at(t, p + 1) == (d, p + 1 + tag_tokens(d).len()),
        t[p] == SpecToken::Word(name),
        t.subrange(p + 1 + tag_tokens(d).len(), p + 1 + tag_tokens(d).len() + l.len()) == l,
{
    let h = kind_tokens(name, d, l);
    let m: int = 1 + tag_tokens(d).len() as int;
    lemma_tag_words();
    assert forall|i: int| 0 <= i < h.len() implies t[p + i] == #[trigger] h[i] by {
        assert(t.subrange(p, p + h.len())[i] == t[p + i]);
    }
    assert(t[p] == h[0]);
    assert(t[p + m] == h[m]);
    assert(t.subrange(p + m, p + m + l.len()) =~= l) by {
        assert forall|i: int| 0 <= i < l.len() implies t.subrange(p + m, p + m + l.len())[i] == l[i] by {
            assert(t[p + m + i] == h[m + i]);
        }
    }
    match d {
        Dim::XY => {},
        _ => {
            assert(t[p + 1] == h[1]);
        },
    }
}

#[verifier::spinoff_prover]
#[verifier::rlimit(40)]
proof fn lemma_parse_point_at(t: Seq<SpecToken>, p: int, o: Option<SpecCoord>)
    requires
        o matches Some(c) ==> valid_coord(c),
        0 <= p,
        p + geometry_tokens(SpecGeometry::Point(o)).len() <= t.len(),
        t.subrange(p, p + geometry_tokens(SpecGeometry::Point(o)).len()) == geometry_tokens(
            SpecGeometry::Point(o),
        ),
    ensures
        geometry_at(t, p) == Some((SpecGeometry::Point(o), p + geometry_tokens(SpecGeometry::Point(o)).len())),
{
    let d = dim_of(o);
    let name = "POINT"@;
    reveal_strlit("POINT");
    reveal_strlit("EMPTY");
    let l = point_tokens(o);
    assert(l[0] == SpecToken::LParen || l[0] == SpecToken::Word("EMPTY"@));
    lemma_parse_tag_at(t, p, name, d, l);
    let q: int = p + 1 + tag_tokens(d).len() as int;
    lemma_parse_member(t, q, o, d);
    lemma_tag_words();
    assert(same_word(name, name));
}

#[verifier::spinoff_prover]
#[verifier::rlimit(40)]
proof fn lemma_parse_line_string_at(t: Seq<SpecToken>, p: int, v: Seq<SpecCoord>)
    requires
        coords_fit(v, dim_of(first_in_coords(v))),
        0 <= p,
        p + geometry_tokens(SpecGeometry::LineString(v)).len() <= t.len(),
        t.subrange(p, p + geometry_tokens(SpecGeometry::LineString(v)).len()) == geometry_tokens(
            SpecGeometry::LineString(v),
        ),
    ensures
        geometry_at(t, p) == Some((SpecGeometry::LineString(v), p + geometry_tokens(SpecGeometry::LineString(v)).len())),
{
    let d = dim_of(first_in_coords(v));
    let name = "LINESTRING"@;
    reveal_strlit("POINT");
    reveal_strlit("LINESTRING");
    reveal_strlit("EMPTY");
    let l = list_tokens(coords_token_parts(v));
    assert(l[0] == SpecToken::LParen || l[0] == SpecToken::Word("EMPTY"@));
    lemma_parse_tag_at(t, p, name, d, l);
    let q: int = p + 1 + tag_tokens(d).len() as int;
    lemma_parse_coords(t, q, v, d);
    assert(!same_word(name, "POINT"@)) by {
        assert(name.len() != "POINT"@.len());
    }
    assert(same_word(name, name));
}

proof fn lemma_lex_line_string(v: Seq<SpecCoord>)
    requires
        coords_fit(v, dim_of(first_in_coords(v))),
    ensures
        lex(geometry_text(SpecGeometry::LineString(v))) == Some(geometry_tokens(SpecGeometry::LineString(v))),
{
    let d = dim_of(first_in_coords(v));
    reveal_strlit("LINESTRING");
    lemma_lex_coords(v, d);
    lemma_lex_tagged("LINESTRING"@, d, coords_text(v), list_tokens(coords_token_parts(v)));
}

#[verifier::spinoff_prover]
#[verifier::rlimit(40)]
proof fn lemma_parse_polygon_at(t: Seq<SpecToken>, p: int, v: Seq<Seq<SpecCoord>>)
    requires
        rings_fit(v, dim_of(first_in_rings(v, 0))),
        0 <= p,
        p + geometry_tokens(SpecGeometry::Polygon(v)).len() <= t.len(),
        t.subrange(p, p + geometry_tokens(SpecGeometry::Polygon(v)).len()) == geometry_tokens(
            SpecGeometry::Polygon(v),
        ),
    ensures
        geometry_at(t, p) == Some((SpecGeometry::Polygon(v), p + geometry_tokens(SpecGeometry::Polygon(v)).len())),
{
    let d = dim_of(first_in_rings(v, 0));
    let name = "POLYGON"@;
    reveal_strlit("POINT");
    reveal_strlit("LINESTRING");
    reveal_strlit("POLYGON");
    reveal_strlit("EMPTY");
    let l = list_tokens(rings_token_parts(v));
    assert(l[0] == SpecToken::LParen || l[0] == SpecToken::Word("EMPTY"@));
    lemma_parse_tag_at(t, p, name, d, l);
    let q: int = p + 1 + tag_tokens(d).len() as int;
    lemma_parse_rings(t, q, v, d);
    assert(!same_word(name, "POINT"@)) by {
        assert(name.len() != "POINT"@.len());
    }
    assert(!same_word(name, "LINESTRING"@)) by {
        assert(name.len() != "LINESTRING"@.len());
    }
    assert(same_word(name, name));
}

proof fn lemma_lex_polygon(v: Seq<Seq<SpecCoord>>)
    requires
        rings_fit(v, dim_of(first_in_rings(v, 0))),
    ensures
        lex(geometry_text(SpecGeometry::Polygon(v))) == Some(geometry_tokens(SpecGeometry::Polygon(v))),
{
    let d = dim_of(first_in_rings(v, 0));
    reveal_strlit("POLYGON");
    lemma_lex_rings(v, d);
    lemma_lex_tagged("POLYGON"@, d, rings_text(v), list_tokens(rings_token_parts(v)));
}

#[verifier::spinoff_prover]
#[verifier::rlimit(40)]
proof fn lemma_parse_polyhedral_surface_at(t: Seq<SpecToken>, p: int, v: Seq<Seq<Seq<SpecCoord>>>)
    requires
        polygons_fit(v, dim_of(first_in_polygons(v, 0))),
        0 <= p,
        p + geometry_tokens(SpecGeometry::PolyhedralSurface(v)).len() <= t.len(),
        t.subrange(p, p + geometry_tokens(SpecGeometry::PolyhedralSurface(v)).len()) == geometry_tokens(
            SpecGeometry::PolyhedralSurface(v),
        ),
    ensures
        geometry_at(t, p) == Some((SpecGeometry::PolyhedralSurface(v), p + geometry_tokens(SpecGeometry::PolyhedralSurface(v)).len())),
{
    let d = dim_of(first_in_polygons(v, 0));
    let name = "POLYHEDRALSURFACE"@;
    reveal_strlit("POINT");
    reveal_strlit("LINESTRING");
    reveal_strlit("POLYGON");
    reveal_strlit("POLYHEDRALSURFACE");
    reveal_strlit("EMPTY");
    let l = list_tokens(polygons_token_parts(v));
    assert(l[0] == SpecToken::LParen || l[0] == SpecToken::Word("EMPTY"@));
    lemma_parse_tag_at(t, p, name, d, l);
    let q: int = p + 1 + tag_tokens(d).len() as int;
    lemma_parse_polygons(t, q, v, d);
    assert(!same_word(name, "POINT"@)) by {
        assert(name.len() != "POINT"@.len());
    }
    assert(!same_word(name, "LINESTRING"@)) by {
        assert(name.len() != "LINESTRING"@.len());
    }
    assert(!same_word(name, "POLYGON"@)) by {
        assert(name.len() != "POLYGON"@.len());
    }
    assert(same_word(name, name));
}

proof fn lemma_lex_polyhedral_surface(v: Seq<Seq<Seq<SpecCoord>>>)
    requires
        polygons_fit(v, dim_of(first_in_polygons(v, 0))),
    ensures
        lex(geometry_text(SpecGeometry::PolyhedralSurface(v))) == Some(geometry_tokens(SpecGeometry::PolyhedralSurface(v))),
{
    let d = dim_of(first_in_polygons(v, 0));
    reveal_strlit("POLYHEDRALSURFACE");
    lemma_lex_polygons(v, d);
    lemma_lex_tagged("POLYHEDRALSURFACE"@, d, polygons_text(v), list_tokens(polygons_token_parts(v)));
}

#[verifier::spinoff_prover]
#[verifier::rlimit(40)]
proof fn lemma_parse_triangle_at(t: Seq<SpecToken>, p: int, v: Seq<Seq<SpecCoord>>)
    requires
        rings_fit(v, dim_of(first_in_rings(v, 0))),
        0 <= p,
        p + geometry_tokens(SpecGeometry::Triangle(v)).len() <= t.len(),
        t.subrange(p, p + geometry_tokens(SpecGeometry::Triangle(v)).len()) == geometry_tokens(
            SpecGeometry::Triangle(v),
        ),
    ensures
        geometry_at(t, p) == Some((SpecGeometry::Triangle(v), p + geometry_tokens(SpecGeometry::Triangle(v)).len())),
{
    let d = dim_of(first_in_rings(v, 0));
    let name = "TRIANGLE"@;
    reveal_strlit("POINT");
    reveal_strlit("LINESTRING");
    reveal_strlit("POLYGON");
    reveal_strlit("POLYHEDRALSURFACE");
    reveal_strlit("TRIANGLE");
    reveal_strlit("EMPTY");
    let l = list_tokens(rings_token_parts(v));
    assert(l[0] == SpecToken::LParen || l[0] == SpecToken::Word("EMPTY"@));
    lemma_parse_tag_at(t, p, name, d, l);
    let q: int = p + 1 + tag_tokens(d).len() as int;
    lemma_parse_rings(t, q, v, d);
    assert(!same_word(name, "POINT"@)) by {
        assert(name.len() != "POINT"@.len());
    }
    assert(!same_word(name, "LINESTRING"@)) by {
        assert(name.len() != "LINESTRING"@.len());
    }
    assert(!same_word(name, "POLYGON"@)) by {
        assert(name.len() != "POLYGON"@.len());
    }
    assert(!same_word(name, "POLYHEDRALSURFACE"@)) by {
        assert(name.len() != "POLYHEDRALSURFACE"@.len());
    }
    assert(same_word(name, name));
}

proof fn lemma_lex_triangle(v: Seq<Seq<SpecCoord>>)
    requires
        rings_fit(v, dim_of(first_in_rings(v, 0))),
    ensures
        lex(geometry_text(SpecGeometry::Triangle(v))) == Some(geometry_tokens(SpecGeometry::Triangle(v))),
{
    let d = dim_of(first_in_rings(v, 0));
    reveal_strlit("TRIANGLE");
    lemma_lex_rings(v, d);
    lemma_lex_tagged("TRIANGLE"@, d, rings_text(v), list_tokens(rings_token_parts(v)));
}

#[verifier::spinoff_prover]
#[verifier::rlimit(40)]
proof fn lemma_parse_tin_at(t: Seq<SpecToken>, p: int, v: Seq<Seq<Seq<SpecCoord>>>)
    requires
        polygons_fit(v, dim_of(first_in_polygons(v, 0))),
        0 <= p,
        p + geometry_tokens(SpecGeometry::Tin(v)).len() <= t.len(),
        t.subrange(p, p + geometry_tokens(SpecGeometry::Tin(v)).len()) == geometry_tokens(
            SpecGeometry::Tin(v),
        ),
    ensures
        geometry_at(t, p) == Some((SpecGeometry::Tin(v), p + geometry_tokens(SpecGeometry::Tin(v)).len())),
{
    let d = dim_of(first_in_polygons(v, 0));
    let name = "TIN"@;
    reveal_strlit("POINT");
    reveal_strlit("LINESTRING");
    reveal_strlit("POLYGON");
    reveal_strlit("POLYHEDRALSURFACE");
    reveal_strlit("TRIANGLE");
    reveal_strlit("TIN");
    reveal_strlit("EMPTY");
    let l = list_tokens(polygons_token_parts(v));
    assert(l[0] == SpecToken::LParen || l[0] == SpecToken::Word("EMPTY"@));
    lemma_parse_tag_at(t, p, name, d, l);
    let q: int = p + 1 + tag_tokens(d).len() as int;
    lemma_parse_polygons(t, q, v, d);
    assert(!same_word(name, "POINT"@)) by {
        assert(name.len() != "POINT"@.len());
    }
    assert(!same_word(name, "LINESTRING"@)) by {
        assert(name.len() != "LINESTRING"@.len());
    }
    assert(!same_word(name, "POLYGON"@)) by {
        assert(name.len() != "POLYGON"@.len());
    }
    assert(!same_word(name, "POLYHEDRALSURFACE"@)) by {
        assert(name.len() != "POLYHEDRALSURFACE"@.len());
    }
    assert(!same_word(name, "TRIANGLE"@)) by {
        assert(name.len() != "TRIANGLE"@.len());
    }
    assert(same_word(name, name));
}

proof fn lemma_lex_tin(v: Seq<Seq<Seq<SpecCoord>>>)
    requires
        polygons_fit(v, dim_of(first_in_polygons(v, 0))),
    ensures
        lex(geometry_text(SpecGeometry::Tin(v))) == Some(geometry_tokens(SpecGeometry::Tin(v))),
{
    let d = dim_of(first_in_polygons(v, 0));
    reveal_strlit("TIN");
    lemma_lex_polygons(v, d);
    lemma_lex_tagged("TIN"@, d, polygons_text(v), list_tokens(polygons_token_parts(v)));
}

#[verifier::spinoff_prover]
#[verifier::rlimit(40)]
proof fn lemma_parse_multi_point_at(t: Seq<SpecToken>, p: int, v: Seq<Option<SpecCoord>>)
    requires
        members_fit(v, dim_of(first_in_members(v, 0))),
        0 <= p,
        p + geometry_tokens(SpecGeometry::MultiPoint(v)).len() <= t.len(),
        t.subrange(p, p + geometry_tokens(SpecGeometry::MultiPoint(v)).len()) == geometry_tokens(
            SpecGeometry::MultiPoint(v),
        ),
    ensures
        geometry_at(t, p) == Some((SpecGeometry::MultiPoint(v), p + geometry_tokens(SpecGeometry::MultiPoint(v)).len())),
{
    let d = dim_of(first_in_members(v, 0));
    let name = "MULTIPOINT"@;
    reveal_strlit("POINT");
    reveal_strlit("LINESTRING");
    reveal_strlit("POLYGON");
    reveal_strlit("POLYHEDRALSURFACE");
    reveal_strlit("TRIANGLE");
    reveal_strlit("TIN");
    reveal_strlit("MULTIPOINT");
    reveal_strlit("EMPTY");
    let l = list_tokens(members_token_parts(v));
    assert(l[0] == SpecToken::LParen || l[0] == SpecToken::Word("EMPTY"@));
    lemma_parse_tag_at(t, p, name, d, l);
    let q: int = p + 1 + tag_tokens(d).len() as int;
    lemma_parse_members(t, q, v, d);
    assert(!same_word(name, "POINT"@)) by {
        assert(name.len() != "POINT"@.len());
    }
    assert(!same_word(name, "LINESTRING"@)) by {
        assert(!same_letter(name[0], "LINESTRING"@[0]));
    }
    assert(!same_word(name, "POLYGON"@)) by {
        assert(name.len() != "POLYGON"@.len());
    }
    assert(!same_word(name, "POLYHEDRALSURFACE"@)) by {
        assert(name.len() != "POLYHEDRALSURFACE"@.len());
    }
    assert(!same_word(name, "TRIANGLE"@)) by {
        assert(name.len() != "TRIANGLE"@.len());
    }
    assert(!same_word(name, "TIN"@)) by {
        assert(name.len() != "TIN"@.len());
    }
    assert(same_word(name, name));
}

proof fn lemma_lex_multi_point(v: Seq<Option<SpecCoord>>)
    requires
        members_fit(v, dim_of(first_in_members(v, 0))),
    ensures
        lex(geometry_text(SpecGeometry::MultiPoint(v))) == Some(geometry_tokens(SpecGeometry::MultiPoint(v))),
{
    let d = dim_of(first_in_members(v, 0));
    reveal_strlit("MULTIPOINT");
    lemma_lex_members(v, d);
    lemma_lex_tagged("MULTIPOINT"@, d, members_text(v), list_tokens(members_token_parts(v)));
}

#[verifier::spinoff_prover]
#[verifier::rlimit(40)]
proof fn lemma_parse_multi_line_string_at(t: Seq<SpecToken>, p: int, v: Seq<Seq<SpecCoord>>)
    requires
        rings_fit(v, dim_of(first_in_rings(v, 0))),
        0 <= p,
        p + geometry_tokens(SpecGeometry::MultiLineString(v)).len() <= t.len(),
        t.subrange(p, p + geometry_tokens(SpecGeometry::MultiLineString(v)).len()) == geometry_tokens(
            SpecGeometry::MultiLineString(v),
        ),
    ensures
        geometry_at(t, p) == Some((SpecGeometry::MultiLineString(v), p + geometry_tokens(SpecGeometry::MultiLineString(v)).len())),
{
    let d = dim_of(first_in_rings(v, 0));
    let name = "MULTILINESTRING"@;
    reveal_strlit("POINT");
    reveal_strlit("LINESTRING");
    reveal_strlit("POLYGON");
    reveal_strlit("POLYHEDRALSURFACE");
    reveal_strlit("TRIANGLE");
    reveal_strlit("TIN");
    reveal_strlit("MULTIPOINT");
    reveal_strlit("MULTILINESTRING");
    reveal_strlit("EMPTY");
    let l = list_tokens(rings_token_parts(v));
    assert(l[0] == SpecToken::LParen || l[0] == SpecToken::Word("EMPTY"@));
    lemma_parse_tag_at(t, p, name, d, l);
    let q: int = p + 1 + tag_tokens(d).len() as int;
    lemma_parse_rings(t, q, v, d);
    assert(!same_word(name, "POINT"@)) by {
        assert(name.len() != "POINT"@.len());
    }
    assert(!same_word(name, "LINESTRING"@)) by {
        assert(name.len() != "LINESTRING"@.len());
    }
    assert(!same_word(name, "POLYGON"@)) by {
        assert(name.len() != "POLYGON"@.len());
    }
    assert(!same_word(name, "POLYHEDRALSURFACE"@)) by {
        assert(name.len() != "POLYHEDRALSURFACE"@.len());
    }
    assert(!same_word(name, "TRIANGLE"@)) by {
        assert(name.len() != "TRIANGLE"@.len());
    }
    assert(!same_word(name, "TIN"@)) by {
        assert(name.len() != "TIN"@.len());
    }
    assert(!same_word(name, "MULTIPOINT"@)) by {
        assert(name.len() != "MULTIPOINT"@.len());
    }
    assert(same_word(name, name));
}

proof fn lemma_lex_multi_line_string(v: Seq<Seq<SpecCoord>>)
    requires
        rings_fit(v, dim_of(first_in_rings(v, 0))),
    ensures
        lex(geometry_text(SpecGeometry::MultiLineString(v))) == Some(geometry_tokens(SpecGeometry::MultiLineString(v))),
{
    let d = dim_of(first_in_rings(v, 0));
    reveal_strlit("MULTILINESTRING");
    lemma_lex_rings(v, d);
    lemma_lex_tagged("MULTILINESTRING"@, d, rings_text(v), list_tokens(rings_token_parts(v)));
}

#[verifier::spinoff_prover]
#[verifier::rlimit(40)]
proof fn lemma_parse_multi_polygon_at(t: Seq<SpecToken>, p: int, v: Seq<Seq<Seq<SpecCoord>>>)
    requires
        polygons_fit(v, dim_of(first_in_polygons(v, 0))),
        0 <= p,
        p + geometry_tokens(SpecGeometry::MultiPolygon(v)).len() <= t.len(),
        t.subrange(p, p + geometry_tokens(SpecGeometry::MultiPolygon(v)).len()) == geometry_tokens(
            SpecGeometry::MultiPolygon(v),
        ),
    ensures
        geometry_at(t, p) == Some((SpecGeometry::MultiPolygon(v), p + geometry_tokens(SpecGeometry::MultiPolygon(v)).len())),
{
    let d = dim_of(first_in_polygons(v, 0));
    let name = "MULTIPOLYGON"@;
    reveal_strlit("POINT");
    reveal_strlit("LINESTRING");
    reveal_strlit("POLYGON");
    reveal_strlit("POLYHEDRALSURFACE");
    reveal_strlit("TRIANGLE");
    reveal_strlit("TIN");
    reveal_strlit("MULTIPOINT");
    reveal_strlit("MULTILINESTRING");
    reveal_strlit("MULTIPOLYGON");
    reveal_strlit("EMPTY");
    let l = list_tokens(polygons_token_parts(v));
    assert(l[0] == SpecToken::LParen || l[0] == SpecToken::Word("EMPTY"@));
    lemma_parse_tag_at(t, p, name, d, l);
    let q: int = p + 1 + tag_tokens(d).len() as int;
    lemma_parse_polygons(t, q, v, d);
    assert(!same_word(name, "POINT"@)) by {
        assert(name.len() != "POINT"@.len());
    }
    assert(!same_word(name, "LINESTRING"@)) by {
        assert(name.len() != "LINESTRING"@.len());
    }
    assert(!same_word(name, "POLYGON"@)) by {
        assert(name.len() != "POLYGON"@.len());
    }
    assert(!same_word(name, "POLYHEDRALSURFACE"@)) by {
        assert(name.len() != "POLYHEDRALSURFACE"@.len());
    }
    assert(!same_word(name, "TRIANGLE"@)) by {
        assert(name.len() != "TRIANGLE"@.len());
    }
    assert(!same_word(name, "TIN"@)) by {
        assert(name.len() != "TIN"@.len());
    }
    assert(!same_word(name, "MULTIPOINT"@)) by {
        assert(name.len() != "MULTIPOINT"@.len());
    }
    assert(!same_word(name, "MULTILINESTRING"@)) by {
        assert(name.len() != "MULTILINESTRING"@.len());
    }
    assert(same_word(name, name));
}

proof fn lemma_lex_multi_polygon(v: Seq<Seq<Seq<SpecCoord>>>)
    requires
        polygons_fit(v, dim_of(first_in_polygons(v, 0))),
    ensures
        lex(geometry_text(SpecGeometry::MultiPolygon(v))) == Some(geometry_tokens(SpecGeometry::MultiPolygon(v))),
{
    let d = dim_of(first_in_polygons(v, 0));
    reveal_strlit("MULTIPOLYGON");
    lemma_lex_polygons(v, d);
    lemma_lex_tagged("MULTIPOLYGON"@, d, polygons_text(v), list_tokens(polygons_token_parts(v)));
}

#[verifier::spinoff_prover]
#[verifier::rlimit(40)]
proof fn lemma_parse_members_of_tail(t: Seq<SpecToken>, q: int, v: Seq<SpecGeometry>, k: int)
    requires
        1 <= k <= v.len(),
        members_well_formed(v, v.len()),
        0 <= q,
        q + mid_tokens(member_tokens_upto(v, v.len()), k, v.len() as int).len() + 1 <= t.len(),
        t.subrange(q, q + mid_tokens(member_tokens_upto(v, v.len()), k, v.len() as int).len() + 1)
            == mid_tokens(member_tokens_upto(v, v.len()), k, v.len() as int) + seq![SpecToken::RParen],
    ensures
        geometries_tail(t, q) == Some(
            (v.subrange(k, v.len() as int), q + mid_tokens(member_tokens_upto(v, v.len()), k, v.len() as int).len() + 1),
        ),
    decreases v, v.len() - k,
{
    lemma_member_tokens_upto(v, v.len());
    lemma_members_well_formed(v, v.len());
    let pt = member_tokens_upto(v, v.len());
    let n = v.len() as int;
    let r = mid_tokens(pt, k, n) + seq![SpecToken::RParen];
    assert(t[q] == r[0]) by {
        assert(t.subrange(q, q + r.len())[0] == t[q]);
    }
    if k == n {
        assert(v.subrange(k, n) =~= Seq::<SpecGeometry>::empty());
    } else {
        let c = v[k];
        let ct = geometry_tokens(c);
        let rest = mid_tokens(pt, k + 1, n) + seq![SpecToken::RParen];
        assert(r =~= seq![SpecToken::Comma] + ct + rest);
        assert(t.subrange(q + 1, q + 1 + ct.len()) =~= ct) by {
            assert forall|i: int| 0 <= i < ct.len() implies t.subrange(q + 1, q + 1 + ct.len())[i] == ct[i] by {
                assert(t.subrange(q, q + r.len())[1 + i] == r[1 + i]);
            }
        }
        lemma_parse_geometry_at(t, q + 1, c);
        let q2 = q + 1 + ct.len();
        assert(t.subrange(q2, q2 + rest.len()) =~= rest) by {
            assert forall|i: int| 0 <= i < rest.len() implies t.subrange(q2, q2 + rest.len())[i] == rest[i] by {
                assert(t.subrange(q, q + r.len())[1 + ct.len() + i] == r[1 + ct.len() + i]);
            }
        }
        lemma_parse_members_of_tail(t, q2, v, k + 1);
        assert(seq![c] + v.subrange(k + 1, n) =~= v.subrange(k, n));
    }
}

#[verifier::spinoff_prover]
#[verifier::rlimit(40)]
proof fn lemma_parse_members_of(t: Seq<SpecToken>, p: int, v: Seq<SpecGeometry>)
    requires
        members_well_formed(v, v.len()),
        0 <= p,
        p + list_tokens(member_tokens_upto(v, v.len())).len() <= t.len(),
        t.subrange(p, p + list_tokens(member_tokens_upto(v, v.len())).len()) == list_tokens(member_tokens_upto(v, v.len())),
    ensures
        geometries_body(t, p) == Some((v, p + list_tokens(member_tokens_upto(v, v.len())).len())),
    decreases v, v.len() + 1,
{
    lemma_member_tokens_upto(v, v.len());
    lemma_members_well_formed(v, v.len());
    let pt = member_tokens_upto(v, v.len());
    let l = list_tokens(pt);
    let n = v.len() as int;
    lemma_tag_words();
    assert(t[p] == l[0]) by {
        assert(t.subrange(p, p + l.len())[0] == t[p]);
    }
    if n == 0 {
        assert(v =~= Seq::<SpecGeometry>::empty());
    } else {
        lemma_join_mid(pt, n);
        let c = v[0];
        let ct = geometry_tokens(c);
        let rest = mid_tokens(pt, 1, n) + seq![SpecToken::RParen];
        assert(l =~= seq![SpecToken::LParen] + ct + rest);
        assert(t.subrange(p + 1, p + 1 + ct.len()) =~= ct) by {
            assert forall|i: int| 0 <= i < ct.len() implies t.subrange(p + 1, p + 1 + ct.len())[i] == ct[i] by {
                assert(t.subrange(p, p + l.len())[1 + i] == l[1 + i]);
            }
        }
        lemma_parse_geometry_at(t, p + 1, c);
        let q = p + 1 + ct.len();
        assert(t.subrange(q, q + rest.len()) =~= rest) by {
            assert forall|i: int| 0 <= i < rest.len() implies t.subrange(q, q + rest.len())[i] == rest[i] by {
                assert(t.subrange(p, p + l.len())[1 + ct.len() + i] == l[1 + ct.len() + i]);
            }
        }
        lemma_parse_members_of_tail(t, q, v, 1);
        assert(seq![c] + v.subrange(1, n) =~= v);
    }
}

/// The tokens of a well-formed geometry, found at `p`, read back as it.
#[verifier::spinoff_prover]
#[verifier::rlimit(40)]
proof fn lemma_parse_geometry_at(t: Seq<SpecToken>, p: int, g: SpecGeometry)
    requires
        well_formed(g),
        0 <= p,
        p + geometry_tokens(g).len() <= t.len(),
        t.subrange(p, p + geometry_tokens(g).len()) == geometry_tokens(g),
    ensures
        geometry_at(t, p) == Some((g, p + geometry_tokens(g).len())),
    decreases g,
{
    match g {
        SpecGeometry::Point(o) => lemma_parse_point_at(t, p, o),
        SpecGeometry::LineString(v) => lemma_parse_line_string_at(t, p, v),
        SpecGeometry::Polygon(v) => lemma_parse_polygon_at(t, p, v),
        SpecGeometry::PolyhedralSurface(v) => lemma_parse_polyhedral_surface_at(t, p, v),
        SpecGeometry::Triangle(v) => lemma_parse_triangle_at(t, p, v),
        SpecGeometry::Tin(v) => lemma_parse_tin_at(t, p, v),
        SpecGeometry::MultiPoint(v) => lemma_parse_multi_point_at(t, p, v),
        SpecGeometry::MultiLineString(v) => lemma_parse_multi_line_string_at(t, p, v),
        SpecGeometry::MultiPolygon(v) => lemma_parse_multi_polygon_at(t, p, v),
        SpecGeometry::GeometryCollection(v) => {
            let name = "GEOMETRYCOLLECTION"@;
            reveal_strlit("POINT");
            reveal_strlit("LINESTRING");
            reveal_strlit("POLYGON");
            reveal_strlit("POLYHEDRALSURFACE");
            reveal_strlit("TRIANGLE");
            reveal_strlit("TIN");
            reveal_strlit("MULTIPOINT");
            reveal_strlit("MULTILINESTRING");
            reveal_strlit("MULTIPOLYGON");
            reveal_strlit("GEOMETRYCOLLECTION");
            reveal_strlit("EMPTY");
            let l = list_tokens(member_tokens_upto(v, v.len()));
            assert(l[0] == SpecToken::LParen || l[0] == SpecToken::Word("EMPTY"@));
            assert(geometry_tokens(g) =~= kind_tokens(name, Dim::XY, l));
            lemma_parse_tag_at(t, p, name, Dim::XY, l);
            lemma_parse_members_of(t, p + 1, v);
            assert(!same_word(name, "POINT"@)) by {
                assert(name.len() != "POINT"@.len());
            }
            assert(!same_word(name, "LINESTRING"@)) by {
                assert(name.len() != "LINESTRING"@.len());
            }
            assert(!same_word(name, "POLYGON"@)) by {
                assert(name.len() != "POLYGON"@.len());
            }
            assert(!same_word(name, "POLYHEDRALSURFACE"@)) by {
                assert(name.len() != "POLYHEDRALSURFACE"@.len());
            }
            assert(!same_word(name, "TRIANGLE"@)) by {
                assert(name.len() != "TRIANGLE"@.len());
            }
            assert(!same_word(name, "TIN"@)) by {
                assert(name.len() != "TIN"@.len());
            }
            assert(!same_word(name, "MULTIPOINT"@)) by {
                assert(name.len() != "MULTIPOINT"@.len());
            }
            assert(!same_word(name, "MULTILINESTRING"@)) by {
                assert(name.len() != "MULTILINESTRING"@.len());
            }
            assert(!same_word(name, "MULTIPOLYGON"@)) by {
                assert(name.len() != "MULTIPOLYGON"@.len());
            }
            assert(same_word(name, name));
        },
    }
}

#[verifier::spinoff_prover]
#[verifier::rlimit(40)]
proof fn lemma_lex_members_join(v: Seq<SpecGeometry>, n: nat)
    requires
        n <= v.len(),
        members_well_formed(v, v.len()),
    ensures
        lex(crate::writer::geometries_join(v, n)) == Some(join_tokens(member_tokens_upto(v, v.len()), n)),
    decreases v, n,
{
    lemma_member_tokens_upto(v, v.len());
    lemma_members_well_formed(v, v.len());
    if n == 0 {
        assert(lex_from(Seq::<char>::empty(), 0) == Some(Seq::<SpecToken>::empty()));
    } else if n == 1 {
        lemma_lex_geometry(v[0]);
    } else {
        lemma_lex_members_join(v, (n - 1) as nat);
        lemma_lex_geometry(v[n - 1]);
        lemma_lex_comma_space();
        let a = crate::writer::geometries_join(v, (n - 1) as nat);
        lemma_lex_concat(a, ", "@);
        assert((a + ", "@).last() == ' ');
        lemma_lex_concat(a + ", "@, geometry_text(v[n - 1]));
    }
}

/// The canonical text of a well-formed geometry lexes to its tokens.
#[verifier::spinoff_prover]
#[verifier::rlimit(40)]
proof fn lemma_lex_geometry(g: SpecGeometry)
    requires
        well_formed(g),
    ensures
        lex(geometry_text(g)) == Some(geometry_tokens(g)),
    decreases g,
{
    match g {
        SpecGeometry::Point(o) => lemma_lex_point(o),
        SpecGeometry::LineString(v) => lemma_lex_line_string(v),
        SpecGeometry::Polygon(v) => lemma_lex_polygon(v),
        SpecGeometry::PolyhedralSurface(v) => lemma_lex_polyhedral_surface(v),
        SpecGeometry::Triangle(v) => lemma_lex_triangle(v),
        SpecGeometry::Tin(v) => lemma_lex_tin(v),
        SpecGeometry::MultiPoint(v) => lemma_lex_multi_point(v),
        SpecGeometry::MultiLineString(v) => lemma_lex_multi_line_string(v),
        SpecGeometry::MultiPolygon(v) => lemma_lex_multi_polygon(v),
        SpecGeometry::GeometryCollection(v) => {
            let name = "GEOMETRYCOLLECTION"@;
            reveal_strlit("GEOMETRYCOLLECTION");
            reveal_strlit("GEOMETRYCOLLECTION ");
            reveal_strlit("EMPTY");
            lemma_lex_upper_word(name);
            lemma_lex_space();
            assert("GEOMETRYCOLLECTION "@ =~= name + " "@);
            lemma_lex_concat(name, " "@);
            let body = if v.len() == 0 {
                "EMPTY"@
            } else {
                "("@ + crate::writer::geometries_join(v, v.len()) + ")"@
            };
            let l = list_tokens(member_tokens_upto(v, v.len()));
            lemma_member_tokens_upto(v, v.len());
            if v.len() == 0 {
                lemma_lex_upper_word("EMPTY"@);
            } else {
                lemma_lex_members_join(v, v.len());
                lemma_lex_lparen();
                lemma_lex_rparen();
                let j = crate::writer::geometries_join(v, v.len());
                lemma_lex_concat("("@, j);
                lemma_lex_concat("("@ + j, ")"@);
            }
            assert(lex(body) == Some(l));
            lemma_lex_concat("GEOMETRYCOLLECTION "@, body);
            assert(seq![SpecToken::Word(name)] + Seq::<SpecToken>::empty() + l =~= geometry_tokens(g));
        },
    }
}

/// Writing a well-formed geometry and reading the text back gives the same
/// geometry: every kind, every dimension, and collections nested to any
/// depth.
pub proof fn lemma_round_trip(g: SpecGeometry)
    requires
        well_formed(g),
    ensures
        parse_text(geometry_text(g)) == Some(g),
{
    lemma_lex_geometry(g);
    let t = geometry_tokens(g);
    assert(t.subrange(0, t.len() as int) =~= t);
    lemma_parse_geometry_at(t, 0, g);
}

/// Every number token holds a well-formed number.
pub open spec fn numbers_valid(t: Seq<SpecToken>) -> bool {
    forall|i: int| 0 <= i < t.len() && (#[trigger] t[i]) is Number ==> valid_number(t[i]->Number_0)
}

proof fn lemma_cons_valid(tok: SpecToken, r: Option<Seq<SpecToken>>)
    requires
        r matches Some(ts) ==> numbers_valid(ts),
        tok is Number ==> valid_number(tok->Number_0),
    ensures
        cons(tok, r) matches Some(ts) ==> numbers_valid(ts),
{
    match r {
        Some(ts) => {
            let u = seq![tok] + ts;
            assert forall|i: int| 0 <= i < u.len() && (#[trigger] u[i]) is Number implies valid_number(
                u[i]->Number_0,
            ) by {
                if i > 0 {
                    assert(u[i] == ts[i - 1]);
                }
            }
        },
        None => {},
    }
}

/// The lexer only hands out well-formed numbers.
proof fn lemma_lex_numbers_valid(s: Seq<char>, i: int)
    ensures
        lex_from(s, i) matches Some(ts) ==> numbers_valid(ts),
    decreases s.len() - i,
{
    if 0 <= i < s.len() {
        let c = s[i];
        if is_space(c) || c == ',' || c == '(' || c == ')' {
            lemma_lex_numbers_valid(s, i + 1);
            if !is_space(c) {
                let tok = if c == ',' {
                    SpecToken::Comma
                } else if c == '(' {
                    SpecToken::LParen
                } else {
                    SpecToken::RParen
                };
                lemma_cons_valid(tok, lex_from(s, i + 1));
            }
        } else if is_letter(c) {
            let e = word_end(s, i + 1);
            if i < e <= s.len() {
                lemma_lex_numbers_valid(s, e);
                lemma_cons_valid(SpecToken::Word(s.subrange(i, e)), lex_from(s, e));
            }
        } else if is_number_char(c) {
            let e = number_end(s, i + 1);
            if i < e <= s.len() && valid_number(s.subrange(i, e)) {
                lemma_lex_numbers_valid(s, e);
                lemma_cons_valid(SpecToken::Number(s.subrange(i, e)), lex_from(s, e));
            }
        }
    }
}

proof fn lemma_coord_read_fits(t: Seq<SpecToken>, p: int, d: Dim)
    requires
        numbers_valid(t),
    ensures
        coord_at(t, p, d) matches Some((c, _)) ==> valid_coord(c) && coord_dim(c) == d,
{
    if coord_at(t, p, d) is Some {
        assert(t[p] is Number && t[p + 1] is Number);
        if crate::parser::ordinates(d) >= 3 {
            assert(t[p + 2] is Number);
        }
        if crate::parser::ordinates(d) == 4 {
            assert(t[p + 3] is Number);
        }
    }
}

proof fn lemma_point_read_fits(t: Seq<SpecToken>, p: int, d: Dim)
    requires
        numbers_valid(t),
    ensures
        crate::parser::point_body(t, p, d) matches Some((o, _)) ==> (o matches Some(c) ==> valid_coord(c)
            && coord_dim(c) == d),
        member_at(t, p, d) matches Some((o, _)) ==> (o matches Some(c) ==> valid_coord(c)
            && coord_dim(c) == d),
{
    lemma_coord_read_fits(t, p, d);
    lemma_coord_read_fits(t, p + 1, d);
}

proof fn lemma_coords_tail_read_fit(t: Seq<SpecToken>, p: int, d: Dim)
    requires
        numbers_valid(t),
    ensures
        coords_tail(t, p, d) matches Some((v, _)) ==> coords_fit(v, d),
    decreases t.len() - p,
{
    if crate::parser::tok_is(t, p, SpecToken::Comma) {
        lemma_coord_read_fits(t, p + 1, d);
        match coord_at(t, p + 1, d) {
            Some((e, q)) => {
                if p < q <= t.len() {
                    lemma_coords_tail_read_fit(t, q, d);
                    match coords_tail(t, q, d) {
                        Some((w, _)) => {
                            let u = seq![e] + w;
                            assert(forall|i: int| 0 < i < u.len() ==> u[i] == w[i - 1]);
                            assert(u[0] == e);
                        },
                        None => {},
                    }
                }
            },
            None => {},
        }
    }
}

proof fn lemma_coords_read_fit(t: Seq<SpecToken>, p: int, d: Dim)
    requires
        numbers_valid(t),
    ensures
        coords_body(t, p, d) matches Some((v, _)) ==> coords_fit(v, d),
{
    if crate::parser::tok_is(t, p, SpecToken::LParen) {
        lemma_coord_read_fits(t, p + 1, d);
        match coord_at(t, p + 1, d) {
            Some((e, q)) => {
                if p < q <= t.len() {
                    lemma_coords_tail_read_fit(t, q, d);
                    match coords_tail(t, q, d) {
                        Some((w, _)) => {
                            let u = seq![e] + w;
                            assert(forall|i: int| 0 < i < u.len() ==> u[i] == w[i - 1]);
                            assert(u[0] == e);
                        },
                        None => {},
                    }
                }
            },
            None => {},
        }
    }
}

proof fn lemma_rings_tail_read_fit(t: Seq<SpecToken>, p: int, d: Dim)
    requires
        numbers_valid(t),
    ensures
        rings_tail(t, p, d) matches Some((v, _)) ==> rings_fit(v, d),
    decreases t.len() - p,
{
    if crate::parser::tok_is(t, p, SpecToken::Comma) {
        lemma_coords_read_fit(t, p + 1, d);
        match coords_body(t, p + 1, d) {
            Some((e, q)) => {
                if p < q <= t.len() {
                    lemma_rings_tail_read_fit(t, q, d);
                    match rings_tail(t, q, d) {
                        Some((w, _)) => {
                            let u = seq![e] + w;
                            assert(forall|i: int| 0 < i < u.len() ==> u[i] == w[i - 1]);
                            assert(u[0] == e);
                        },
                        None => {},
                    }
                }
            },
            None => {},
        }
    }
}

proof fn lemma_rings_read_fit(t: Seq<SpecToken>, p: int, d: Dim)
    requires
        numbers_valid(t),
    ensures
        rings_body(t, p, d) matches Some((v, _)) ==> rings_fit(v, d),
{
    if crate::parser::tok_is(t, p, SpecToken::LParen) {
        lemma_coords_read_fit(t, p + 1, d);
        match coords_body(t, p + 1, d) {
            Some((e, q)) => {
                if p < q <= t.len() {
                    lemma_rings_tail_read_fit(t, q, d);
                    match rings_tail(t, q, d) {
                        Some((w, _)) => {
                            let u = seq![e] + w;
                            assert(forall|i: int| 0 < i < u.len() ==> u[i] == w[i - 1]);
                            assert(u[0] == e);
                        },
                        None => {},
                    }
                }
            },
            None => {},
        }
    }
}

proof fn lemma_polygons_tail_read_fit(t: Seq<SpecToken>, p: int, d: Dim)
    requires
        numbers_valid(t),
    ensures
        polygons_tail(t, p, d) matches Some((v, _)) ==> polygons_fit(v, d),
    decreases t.len() - p,
{
    if crate::parser::tok_is(t, p, SpecToken::Comma) {
        lemma_rings_read_fit(t, p + 1, d);
        match rings_body(t, p + 1, d) {
            Some((e, q)) => {
                if p < q <= t.len() {
                    lemma_polygons_tail_read_fit(t, q, d);
                    match polygons_tail(t, q, d) {
                        Some((w, _)) => {
                            let u = seq![e] + w;
                            assert(forall|i: int| 0 < i < u.len() ==> u[i] == w[i - 1]);
                            assert(u[0] == e);
                        },
                        None => {},
                    }
                }
            },
            None => {},
        }
    }
}

proof fn lemma_polygons_read_fit(t: Seq<SpecToken>, p: int, d: Dim)
    requires
        numbers_valid(t),
    ensures
        polygons_body(t, p, d) matches Some((v, _)) ==> polygons_fit(v, d),
{
    if crate::parser::tok_is(t, p, SpecToken::LParen) {
        lemma_rings_read_fit(t, p + 1, d);
        match rings_body(t, p + 1, d) {
            Some((e, q)) => {
                if p < q <= t.len() {
                    lemma_polygons_tail_read_fit(t, q, d);
                    match polygons_tail(t, q, d) {
                        Some((w, _)) => {
                            let u = seq![e] + w;
                            assert(forall|i: int| 0 < i < u.len() ==> u[i] == w[i - 1]);
                            assert(u[0] == e);
                        },
                        None => {},
                    }
                }
            },
            None => {},
        }
    }
}

proof fn lemma_members_tail_read_fit(t: Seq<SpecToken>, p: int, d: Dim)
    requires
        numbers_valid(t),
    ensures
        members_tail(t, p, d) matches Some((v, _)) ==> members_fit(v, d),
    decreases t.len() - p,
{
    if crate::parser::tok_is(t, p, SpecToken::Comma) {
        lemma_point_read_fits(t, p + 1, d);
        match member_at(t, p + 1, d) {
            Some((e, q)) => {
                if p < q <= t.len() {
                    lemma_members_tail_read_fit(t, q, d);
                    match members_tail(t, q, d) {
                        Some((w, _)) => {
                            let u = seq![e] + w;
                            assert(forall|i: int| 0 < i < u.len() ==> u[i] == w[i - 1]);
                            assert(u[0] == e);
                        },
                        None => {},
                    }
                }
            },
            None => {},
        }
    }
}

proof fn lemma_members_read_fit(t: Seq<SpecToken>, p: int, d: Dim)
    requires
        numbers_valid(t),
    ensures
        members_body(t, p, d) matches Some((v, _)) ==> members_fit(v, d),
{
    if crate::parser::tok_is(t, p, SpecToken::LParen) {
        lemma_point_read_fits(t, p + 1, d);
        match member_at(t, p + 1, d) {
            Some((e, q)) => {
                if p < q <= t.len() {
                    lemma_members_tail_read_fit(t, q, d);
                    match members_tail(t, q, d) {
                        Some((w, _)) => {
                            let u = seq![e] + w;
                            assert(forall|i: int| 0 < i < u.len() ==> u[i] == w[i - 1]);
                            assert(u[0] == e);
                        },
                        None => {},
                    }
                }
            },
            None => {},
        }
    }
}

proof fn lemma_coords_fit_first(v: Seq<SpecCoord>, d: Dim)
    requires
        coords_fit(v, d),
    ensures
        coords_fit(v, dim_of(first_in_coords(v))),
{
}

proof fn lemma_first_in_rings_fit(v: Seq<Seq<SpecCoord>>, i: int, d: Dim)
    requires
        rings_fit(v, d),
        0 <= i,
    ensures
        first_in_rings(v, i) matches Some(c) ==> coord_dim(c) == d,
        first_in_rings(v, i) is None ==> forall|j: int| i <= j < v.len() ==> (#[trigger] v[j]).len() == 0,
    decreases v.len() - i,
{
    if i < v.len() && v[i].len() == 0 {
        lemma_first_in_rings_fit(v, i + 1, d);
    }
}

proof fn lemma_rings_fit_first(v: Seq<Seq<SpecCoord>>, d: Dim)
    requires
        rings_fit(v, d),
    ensures
        rings_fit(v, dim_of(first_in_rings(v, 0))),
{
    lemma_first_in_rings_fit(v, 0, d);
}

proof fn lemma_first_in_polygons_fit(v: Seq<Seq<Seq<SpecCoord>>>, i: int, d: Dim)
    requires
        polygons_fit(v, d),
        0 <= i,
    ensures
        first_in_polygons(v, i) matches Some(c) ==> coord_dim(c) == d,
        first_in_polygons(v, i) is None ==> forall|j: int, k: int|
            i <= j < v.len() && 0 <= k < v[j].len() ==> (#[trigger] v[j][k]).len() == 0,
    decreases v.len() - i,
{
    if i < v.len() {
        lemma_first_in_rings_fit(v[i], 0, d);
        if first_in_rings(v[i], 0) is None {
            lemma_first_in_polygons_fit(v, i + 1, d);
        }
    }
}

proof fn lemma_polygons_fit_first(v: Seq<Seq<Seq<SpecCoord>>>, d: Dim)
    requires
        polygons_fit(v, d),
    ensures
        polygons_fit(v, dim_of(first_in_polygons(v, 0))),
{
    lemma_first_in_polygons_fit(v, 0, d);
    let e = dim_of(first_in_polygons(v, 0));
    assert forall|j: int| 0 <= j < v.len() implies rings_fit(#[trigger] v[j], e) by {
        assert forall|k: int| 0 <= k < v[j].len() implies coords_fit(#[trigger] v[j][k], e) by {
            assert(coords_fit(v[j][k], d));
        }
    }
}

proof fn lemma_first_in_members_fit(v: Seq<Option<SpecCoord>>, i: int, d: Dim)
    requires
        members_fit(v, d),
        0 <= i,
    ensures
        first_in_members(v, i) matches Some(c) ==> coord_dim(c) == d,
        first_in_members(v, i) is None ==> forall|j: int| i <= j < v.len() ==> (#[trigger] v[j]) is None,
    decreases v.len() - i,
{
    if i < v.len() && v[i] is None {
        lemma_first_in_members_fit(v, i + 1, d);
    }
}

proof fn lemma_members_fit_first(v: Seq<Option<SpecCoord>>, d: Dim)
    requires
        members_fit(v, d),
    ensures
        members_fit(v, dim_of(first_in_members(v, 0))),
{
    lemma_first_in_members_fit(v, 0, d);
}

proof fn lemma_members_well_formed_from(v: Seq<SpecGeometry>, n: nat)
    requires
        n <= v.len(),
        forall|i: int| 0 <= i < n ==> well_formed(#[trigger] v[i]),
    ensures
        members_well_formed(v, n),
    decreases n,
{
    if n > 0 {
        lemma_members_well_formed_from(v, (n - 1) as nat);
        assert(well_formed(v[n - 1]));
    }
}

proof fn lemma_prepend_well_formed(e: SpecGeometry, w: Seq<SpecGeometry>)
    requires
        well_formed(e),
        members_well_formed(w, w.len()),
    ensures
        members_well_formed(seq![e] + w, (w.len() + 1) as nat),
{
    lemma_members_well_formed(w, w.len());
    let u = seq![e] + w;
    assert forall|i: int| 0 <= i < u.len() implies well_formed(#[trigger] u[i]) by {
        if i > 0 {
            assert(u[i] == w[i - 1]);
        }
    }
    lemma_members_well_formed_from(u, u.len());
}

#[verifier::spinoff_prover]
#[verifier::rlimit(40)]
proof fn lemma_geometries_tail_read(t: Seq<SpecToken>, p: int)
    requires
        numbers_valid(t),
    ensures
        geometries_tail(t, p) matches Some((v, _)) ==> members_well_formed(v, v.len()),
    decreases t.len() - p, 0int,
{
    if crate::parser::tok_is(t, p, SpecToken::Comma) {
        lemma_geometry_read_well_formed(t, p + 1);
        match geometry_at(t, p + 1) {
            Some((e, q)) => {
                if p < q <= t.len() {
                    lemma_geometries_tail_read(t, q);
                    match geometries_tail(t, q) {
                        Some((w, _)) => lemma_prepend_well_formed(e, w),
                        None => {},
                    }
                }
            },
            None => {},
        }
    } else if crate::parser::tok_is(t, p, SpecToken::RParen) {
        assert(members_well_formed(Seq::<SpecGeometry>::empty(), 0));
    }
}

#[verifier::spinoff_prover]
#[verifier::rlimit(40)]
proof fn lemma_geometries_body_read(t: Seq<SpecToken>, p: int)
    requires
        numbers_valid(t),
    ensures
        geometries_body(t, p) matches Some((v, _)) ==> members_well_formed(v, v.len()),
    decreases t.len() - p, 1int,
{
    if crate::parser::keyword_at(t, p, "EMPTY"@) {
        assert(members_well_formed(Seq::<SpecGeometry>::empty(), 0));
    } else if crate::parser::tok_is(t, p, SpecToken::LParen) {
        lemma_geometry_read_well_formed(t, p + 1);
        match geometry_at(t, p + 1) {
            Some((e, q)) => {
                if p < q <= t.len() {
                    lemma_geometries_tail_read(t, q);
                    match geometries_tail(t, q) {
                        Some((w, _)) => lemma_prepend_well_formed(e, w),
                        None => {},
                    }
                }
            },
            None => {},
        }
    }
}

/// Every geometry that the parser reads from lexer output is well formed.
#[verifier::spinoff_prover]
#[verifier::rlimit(60)]
proof fn lemma_geometry_read_well_formed(t: Seq<SpecToken>, p: int)
    requires
        numbers_valid(t),
    ensures
        geometry_at(t, p) matches Some((g, _)) ==> well_formed(g),
    decreases t.len() - p, 2int,
{
    if 0 <= p < t.len() && t[p] is Word {
        let (d, q) = crate::parser::dim_at(t, p + 1);
        lemma_point_read_fits(t, q, d);
        lemma_coords_read_fit(t, q, d);
        lemma_rings_read_fit(t, q, d);
        lemma_polygons_read_fit(t, q, d);
        lemma_members_read_fit(t, q, d);
        match coords_body(t, q, d) {
            Some((v, _)) => lemma_coords_fit_first(v, d),
            None => {},
        }
        match rings_body(t, q, d) {
            Some((v, _)) => lemma_rings_fit_first(v, d),
            None => {},
        }
        match polygons_body(t, q, d) {
            Some((v, _)) => lemma_polygons_fit_first(v, d),
            None => {},
        }
        match members_body(t, q, d) {
            Some((v, _)) => lemma_members_fit_first(v, d),
            None => {},
        }
        if p < q {
            lemma_geometries_body_read(t, q);
        }
    }
}

/// Reading a text, writing the geometry read, and reading the written text
/// gives the same geometry.
pub proof fn lemma_parse_write_parse(s: Seq<char>)
    requires
        parse_text(s) is Some,
    ensures
        parse_text(geometry_text(parse_text(s)->0)) == parse_text(s),
{
    lemma_lex_numbers_valid(s, 0);
    let t = lex(s)->0;
    lemma_geometry_read_well_formed(t, 0);
    lemma_round_trip(parse_text(s)->0);
}

} // verus!
