//! Splits WKT text into words, numbers and punctuation.
use vstd::prelude::*;
use vstd::std_specs::iter::IteratorSpec;

verus! {

broadcast use vstd::std_specs::vec::group_vec_axioms;

/// One lexical token. A word keeps the letters as written; a number keeps
/// its decimal text.
#[derive(Debug, Clone, PartialEq)]
pub enum Token {
    Word(String),
    Number(String),
    Comma,
    LParen,
    RParen,
}

/// The mathematical value of a token.
pub enum SpecToken {
    Word(Seq<char>),
    Number(Seq<char>),
    Comma,
    LParen,
    RParen,
}

impl View for Token {
    type V = SpecToken;

    open spec fn view(&self) -> SpecToken {
        match self {
            Token::Word(w) => SpecToken::Word(w@),
            Token::Number(n) => SpecToken::Number(n@),
            Token::Comma => SpecToken::Comma,
            Token::LParen => SpecToken::LParen,
            Token::RParen => SpecToken::RParen,
        }
    }
}

pub open spec fn tokens_view(t: Seq<Token>) -> Seq<SpecToken> {
    t.map_values(|x: Token| x@)
}

pub open spec fn is_space(c: char) -> bool {
    c == ' ' || c == '\t' || c == '\n' || c == '\r'
}

pub open spec fn is_letter(c: char) -> bool {
    ('a' <= c && c <= 'z') || ('A' <= c && c <= 'Z')
}

pub open spec fn is_digit(c: char) -> bool {
    '0' <= c && c <= '9'
}

pub open spec fn is_number_char(c: char) -> bool {
    is_digit(c) || c == '.' || c == '-'
}

/// The end of the run of characters satisfying the word class from `i`.
pub open spec fn word_end(s: Seq<char>, i: int) -> int
    decreases s.len() - i,
{
    if 0 <= i < s.len() && is_letter(s[i]) {
        word_end(s, i + 1)
    } else {
        i
    }
}

/// The end of the run of number characters from `i`.
pub open spec fn number_end(s: Seq<char>, i: int) -> int
    decreases s.len() - i,
{
    if 0 <= i < s.len() && is_number_char(s[i]) {
        number_end(s, i + 1)
    } else {
        i
    }
}

/// The digits and point of a number, without its sign.
pub open spec fn unsigned_part(t: Seq<char>) -> Seq<char> {
    if t.len() > 0 && t[0] == '-' {
        t.drop_first()
    } else {
        t
    }
}

/// A decimal literal: an optional minus sign, then digits with at most one
/// decimal point, and at least one digit.
pub open spec fn valid_number(t: Seq<char>) -> bool {
    let b = unsigned_part(t);
    &&& b.len() > 0
    &&& !(b.len() == 1 && b[0] == '.')
    &&& forall|k: int| 0 <= k < b.len() ==> is_digit(#[trigger] b[k]) || b[k] == '.'
    &&& forall|k: int, l: int|
        #![trigger b[k], b[l]]
        0 <= k < l < b.len() && b[k] == '.' ==> b[l] != '.'
}

pub open spec fn cons(t: SpecToken, r: Option<Seq<SpecToken>>) -> Option<Seq<SpecToken>> {
    match r {
        Some(ts) => Some(seq![t] + ts),
        None => None,
    }
}

pub open spec fn append_tokens(a: Seq<SpecToken>, r: Option<Seq<SpecToken>>) -> Option<Seq<SpecToken>> {
    match r {
        Some(ts) => Some(a + ts),
        None => None,
    }
}

/// The tokens of `s` from position `i`, or `None` when a character outside
/// the alphabet, or a malformed number, comes first.
pub open spec fn lex_from(s: Seq<char>, i: int) -> Option<Seq<SpecToken>>
    decreases s.len() - i,
{
    if i < 0 || i >= s.len() {
        Some(seq![])
    } else {
        let c = s[i];
        if is_space(c) {
            lex_from(s, i + 1)
        } else if c == ',' {
            cons(SpecToken::Comma, lex_from(s, i + 1))
        } else if c == '(' {
            cons(SpecToken::LParen, lex_from(s, i + 1))
        } else if c == ')' {
            cons(SpecToken::RParen, lex_from(s, i + 1))
        } else if is_letter(c) {
            let e = word_end(s, i + 1);
            if i < e <= s.len() {
                cons(SpecToken::Word(s.subrange(i, e)), lex_from(s, e))
            } else {
                None
            }
        } else if is_number_char(c) {
            let e = number_end(s, i + 1);
            if i < e <= s.len() && valid_number(s.subrange(i, e)) {
                cons(SpecToken::Number(s.subrange(i, e)), lex_from(s, e))
            } else {
                None
            }
        } else {
            None
        }
    }
}

/// The first position, from `i` on, at which lexing fails: a character
/// that starts no token, or that starts a malformed number; `-1` where
/// lexing succeeds.
pub open spec fn error_position(s: Seq<char>, i: int) -> int
    decreases s.len() - i,
{
    if i < 0 || i >= s.len() {
        -1
    } else {
        let c = s[i];
        if is_space(c) || c == ',' || c == '(' || c == ')' {
            error_position(s, i + 1)
        } else if is_letter(c) {
            let e = word_end(s, i + 1);
            if i < e <= s.len() {
                error_position(s, e)
            } else {
                i
            }
        } else if is_number_char(c) {
            let e = number_end(s, i + 1);
            if i < e <= s.len() && valid_number(s.subrange(i, e)) {
                error_position(s, e)
            } else {
                i
            }
        } else {
            i
        }
    }
}

/// The tokens of a whole text.
pub open spec fn lex(s: Seq<char>) -> Option<Seq<SpecToken>> {
    lex_from(s, 0)
}

/// The characters of `s` from `i` to `e`, as a string. Slicing by bytes is
/// constant-time where the text is ASCII, which any text that lexes is.
fn text_of(s: &str, ascii: bool, i: usize, e: usize) -> (r: String)
    requires
        ascii == s.is_ascii(),
        i <= e <= s@.len(),
    ensures
        r@ == s@.subrange(i as int, e as int),
{
    if ascii {
        s.substring_ascii(i, e).to_owned()
    } else {
        s.substring_char(i, e).to_owned()
    }
}

/// The characters of a string, in order.
fn chars_of(s: &str) -> (v: Vec<char>)
    ensures
        v@ == s@,
{
    broadcast use vstd::string::axiom_spec_iter, vstd::string::next_postcondition;

    let n = s.unicode_len();
    let mut it = s.chars();
    let mut v: Vec<char> = Vec::new();
    while v.len() < n
        invariant
            n == s@.len(),
            it.obeys_prophetic_iter_laws(),
            v@ + it.remaining() == s@,
        decreases n - v.len(),
    {
        let ghost before = it.remaining();
        match it.next() {
            Some(c) => {
                v.push(c);
                assert(v@ + it.remaining() =~= s@) by {
                    assert(before =~= seq![c] + it.remaining());
                }
            },
            None => {
                assert(v@ =~= s@);
                return v;
            },
        }
    }
    assert(v@ =~= s@);
    v
}

fn is_space_exec(c: char) -> (b: bool)
    ensures
        b == is_space(c),
{
    c == ' ' || c == '\t' || c == '\n' || c == '\r'
}

fn is_letter_exec(c: char) -> (b: bool)
    ensures
        b == is_letter(c),
{
    ('a' <= c && c <= 'z') || ('A' <= c && c <= 'Z')
}

fn is_digit_exec(c: char) -> (b: bool)
    ensures
        b == is_digit(c),
{
    '0' <= c && c <= '9'
}

fn is_number_char_exec(c: char) -> (b: bool)
    ensures
        b == is_number_char(c),
{
    is_digit_exec(c) || c == '.' || c == '-'
}

fn continues_run(letter: bool, c: char) -> (b: bool)
    ensures
        b == if letter {
            is_letter(c)
        } else {
            is_number_char(c)
        },
{
    if letter {
        is_letter_exec(c)
    } else {
        is_number_char_exec(c)
    }
}

/// Decides whether `t` is a well-formed decimal literal.
fn check_number(t: &Vec<char>) -> (b: bool)
    ensures
        b == valid_number(t@),
{
    let start: usize = if t.len() > 0 && t[0] == '-' {
        1
    } else {
        0
    };
    let ghost u = unsigned_part(t@);
    assert(u =~= t@.subrange(start as int, t@.len() as int));
    if t.len() - start == 0 {
        return false;
    }
    if t.len() - start == 1 && t[start] == '.' {
        assert(u[0] == '.');
        return false;
    }
    let mut seen: bool = false;
    let mut dot: usize = 0;
    let mut k: usize = start;
    while k < t.len()
        invariant
            start <= k <= t.len(),
            u == t@.subrange(start as int, t@.len() as int),
            u == unsigned_part(t@),
            forall|j: int| start <= j < k ==> is_digit(#[trigger] t@[j]) || t@[j] == '.',
            forall|j: int, l: int|
                #![trigger t@[j], t@[l]]
                start <= j < l < k && t@[j] == '.' ==> t@[l] != '.',
            seen ==> start <= dot < k && t@[dot as int] == '.',
            !seen ==> forall|j: int| start <= j < k ==> #[trigger] t@[j] != '.',
        decreases t.len() - k,
    {
        let c = t[k];
        if c == '.' {
            if seen {
                let ghost a: int = dot - start;
                let ghost z: int = k - start;
                assert(u[a] == t@[dot as int] && u[z] == t@[k as int]);
                assert(0 <= a < z < u.len() && u[a] == '.' && u[z] == '.');
                return false;
            }
            seen = true;
            dot = k;
        } else if !is_digit_exec(c) {
            let ghost z: int = k - start;
            assert(u[z] == t@[k as int]);
            assert(0 <= z < u.len() && !is_digit(u[z]) && u[z] != '.');
            return false;
        }
        k = k + 1;
    }
    assert forall|j: int| 0 <= j < u.len() implies is_digit(#[trigger] u[j]) || u[j] == '.' by {
        assert(u[j] == t@[j + start]);
    }
    assert forall|j: int, l: int|
        #![trigger u[j], u[l]]
        0 <= j < l < u.len() && u[j] == '.' implies u[l] != '.' by {
        assert(u[j] == t@[j + start] && u[l] == t@[l + start]);
    }
    true
}

proof fn lemma_push_token(ts: Seq<Token>, t: Token, r: Option<Seq<SpecToken>>)
    ensures
        append_tokens(tokens_view(ts), cons(t@, r)) == append_tokens(tokens_view(ts.push(t)), r),
{
    assert(tokens_view(ts.push(t)) =~= tokens_view(ts).push(t@));
    match r {
        Some(x) => {
            assert(tokens_view(ts) + (seq![t@] + x) =~= tokens_view(ts).push(t@) + x);
        },
        None => {},
    }
}

/// Splits `s` into tokens. On failure, gives the first position at which
/// lexing fails: a character that starts no token, or that starts a
/// malformed number.
pub fn tokenize(s: &str) -> (r: Result<Vec<Token>, usize>)
    ensures
        match r {
            Ok(t) => lex(s@) == Some(tokens_view(t@)),
            Err(p) => {
                &&& lex(s@) is None
                &&& p < s@.len()
                &&& !is_space(s@[p as int])
                &&& lex_from(s@, p as int) is None
                &&& p == error_position(s@, 0)
            },
        },
{
    let ascii = s.is_ascii();
    let cs = chars_of(s);
    let n = cs.len();
    let mut toks: Vec<Token> = Vec::new();
    let mut i: usize = 0;
    assert(tokens_view(toks@) =~= seq![]);
    assert(lex(s@) == append_tokens(tokens_view(toks@), lex_from(s@, 0))) by {
        match lex(s@) {
            Some(x) => {
                assert(seq![] + x =~= x);
            },
            None => {},
        }
    }
    while i < n
        invariant
            cs@ == s@,
            n == cs.len(),
            i <= n,
            ascii == s.is_ascii(),
            lex(s@) == append_tokens(tokens_view(toks@), lex_from(s@, i as int)),
            error_position(s@, 0) == error_position(s@, i as int),
        decreases n - i,
    {
        let c = cs[i];
        if is_space_exec(c) {
            i = i + 1;
        } else if c == ',' || c == '(' || c == ')' {
            let t = if c == ',' {
                Token::Comma
            } else if c == '(' {
                Token::LParen
            } else {
                Token::RParen
            };
            proof {
                lemma_push_token(toks@, t, lex_from(s@, i + 1));
            }
            toks.push(t);
            i = i + 1;
        } else if is_letter_exec(c) || is_number_char_exec(c) {
            let letter = is_letter_exec(c);
            let mut w: Vec<char> = Vec::new();
            w.push(c);
            let mut e: usize = i + 1;
            while e < n && continues_run(letter, cs[e])
                invariant
                    cs@ == s@,
                    n == cs.len(),
                    i < e <= n,
                    w@ == s@.subrange(i as int, e as int),
                    letter ==> word_end(s@, i + 1) == word_end(s@, e as int),
                    !letter ==> number_end(s@, i + 1) == number_end(s@, e as int),
                decreases n - e,
            {
                w.push(cs[e]);
                e = e + 1;
                assert(w@ =~= s@.subrange(i as int, e as int));
            }
            let t = if letter {
                Token::Word(text_of(s, ascii, i, e))
            } else {
                if !check_number(&w) {
                    return Err(i);
                }
                Token::Number(text_of(s, ascii, i, e))
            };
            proof {
                lemma_push_token(toks@, t, lex_from(s@, e as int));
            }
            toks.push(t);
            i = e;
        } else {
            return Err(i);
        }
    }
    assert(lex(s@) == Some(tokens_view(toks@))) by {
        assert(tokens_view(toks@) + seq![] =~= tokens_view(toks@));
    }
    Ok(toks)
}

} // verus!
