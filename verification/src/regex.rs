//! A small regular-expression engine: a recursive-descent parser into an
//! AST, Thompson construction of an NFA, and a matcher that simulates the
//! NFA over sets of active states, reporting the longest match at each
//! position.

use vstd::prelude::*;
use crate::thompson::ids_are_indices;
use crate::thompson::lemma_compile_ids;
use crate::order::insert_sorted_chars;
use crate::order::strictly_sorted_chars;
use crate::text::chars_of;
use crate::text::push_chars;
use crate::text::push_joined;
use crate::text::join_with;
use crate::text::decimal;
use crate::text::decimal_string;
use crate::text::push_char;
use crate::text::push_str;
use crate::text::char_is_alphanumeric;
use crate::text::char_is_whitespace;
use crate::text::unicode_alphanumeric;
use crate::text::unicode_whitespace;

verus! {

/// A parsed regular expression.
#[derive(Debug, PartialEq, Eq)]
pub enum RegexAST {
    /// A literal char.
    Char(char),
    /// `.`
    Wildcard,
    /// `\d`
    Digit,
    /// `\w`
    Alphanumeric,
    /// `\s`
    Whitespace,
    /// `\D`
    NonDigit,
    /// `\W`
    NonAlphanumeric,
    /// `\S`
    NonWhitespace,
    /// A sequence.
    Concat(Vec<RegexAST>),
    /// `a|b`
    Alternate(Box<RegexAST>, Box<RegexAST>),
    /// `a*`
    ZeroOrMore(Box<RegexAST>),
    /// `a+`
    OneOrMore(Box<RegexAST>),
    /// `a?`
    ZeroOrOne(Box<RegexAST>),
    /// `[...]`, listing chars and inclusive ranges, possibly negated.
    Class { chars: Vec<char>, ranges: Vec<(char, char)>, negated: bool },
}

/// The mathematical form of a regular expression.
pub enum Ast {
    Char(char),
    Wildcard,
    Digit,
    Alphanumeric,
    Whitespace,
    NonDigit,
    NonAlphanumeric,
    NonWhitespace,
    Concat(Seq<Ast>),
    Alternate(Box<Ast>, Box<Ast>),
    ZeroOrMore(Box<Ast>),
    OneOrMore(Box<Ast>),
    ZeroOrOne(Box<Ast>),
    Class(Seq<char>, Seq<(char, char)>, bool),
}

/// The view of a parsed regular expression.
pub open spec fn ast_view(a: RegexAST) -> Ast
    decreases a,
{
    match a {
        RegexAST::Char(c) => Ast::Char(c),
        RegexAST::Wildcard => Ast::Wildcard,
        RegexAST::Digit => Ast::Digit,
        RegexAST::Alphanumeric => Ast::Alphanumeric,
        RegexAST::Whitespace => Ast::Whitespace,
        RegexAST::NonDigit => Ast::NonDigit,
        RegexAST::NonAlphanumeric => Ast::NonAlphanumeric,
        RegexAST::NonWhitespace => Ast::NonWhitespace,
        RegexAST::Concat(v) => Ast::Concat(
            Seq::new(
                v@.len(),
                |i: int|
                    {
                        if 0 <= i < v@.len() {
                            ast_view(v@[i])
                        } else {
                            Ast::Wildcard
                        }
                    },
            ),
        ),
        RegexAST::Alternate(a, b) => Ast::Alternate(Box::new(ast_view(*a)), Box::new(ast_view(*b))),
        RegexAST::ZeroOrMore(a) => Ast::ZeroOrMore(Box::new(ast_view(*a))),
        RegexAST::OneOrMore(a) => Ast::OneOrMore(Box::new(ast_view(*a))),
        RegexAST::ZeroOrOne(a) => Ast::ZeroOrOne(Box::new(ast_view(*a))),
        RegexAST::Class { chars, ranges, negated } => Ast::Class(chars@, ranges@, negated),
    }
}

/// A copy of a list of chars.
fn copy_chars(v: &Vec<char>) -> (r: Vec<char>)
    ensures
        r@ == v@,
{
    let mut r: Vec<char> = Vec::new();
    for i in 0..v.len()
        invariant
            r@ == v@.take(i as int),
    {
        r.push(v[i]);
        assert(v@.take(i + 1) =~= v@.take(i as int).push(v@[i as int]));
    }
    assert(v@.take(v@.len() as int) =~= v@);
    r
}

/// A copy of a list of char ranges.
fn copy_ranges(v: &Vec<(char, char)>) -> (r: Vec<(char, char)>)
    ensures
        r@ == v@,
{
    let mut r: Vec<(char, char)> = Vec::new();
    for i in 0..v.len()
        invariant
            r@ == v@.take(i as int),
    {
        r.push(v[i]);
        assert(v@.take(i + 1) =~= v@.take(i as int).push(v@[i as int]));
    }
    assert(v@.take(v@.len() as int) =~= v@);
    r
}

/// A copy of a regular expression.
pub fn clone_ast(a: &RegexAST) -> (r: RegexAST)
    ensures
        ast_view(r) == ast_view(*a),
    decreases a,
{
    match a {
        RegexAST::Char(c) => RegexAST::Char(*c),
        RegexAST::Wildcard => RegexAST::Wildcard,
        RegexAST::Digit => RegexAST::Digit,
        RegexAST::Alphanumeric => RegexAST::Alphanumeric,
        RegexAST::Whitespace => RegexAST::Whitespace,
        RegexAST::NonDigit => RegexAST::NonDigit,
        RegexAST::NonAlphanumeric => RegexAST::NonAlphanumeric,
        RegexAST::NonWhitespace => RegexAST::NonWhitespace,
        RegexAST::Concat(v) => {
            let mut out: Vec<RegexAST> = Vec::new();
            for i in 0..v.len()
                invariant
                    *a == RegexAST::Concat(*v),
                    out@.len() == i,
                    forall|q: int| 0 <= q < i ==> ast_view(#[trigger] out@[q]) == ast_view(v@[q]),
            {
                proof {
                    assert(decreases_to!(*a => (*a)->Concat_0));
                    assert((*a)->Concat_0 == *v);
                    assert(decreases_to!(*v => v@));
                    assert(decreases_to!(v@ => v@[i as int]));
                }
                let e = clone_ast(&v[i]);
                out.push(e);
            }
            let r = RegexAST::Concat(out);
            assert(ast_view(r) == ast_view(*a)) by {
                if let Ast::Concat(x) = ast_view(r) {
                    if let Ast::Concat(y) = ast_view(*a) {
                        assert(x =~= y);
                    }
                }
            }
            r
        },
        RegexAST::Alternate(x, y) => RegexAST::Alternate(
            Box::new(clone_ast(x)),
            Box::new(clone_ast(y)),
        ),
        RegexAST::ZeroOrMore(x) => RegexAST::ZeroOrMore(Box::new(clone_ast(x))),
        RegexAST::OneOrMore(x) => RegexAST::OneOrMore(Box::new(clone_ast(x))),
        RegexAST::ZeroOrOne(x) => RegexAST::ZeroOrOne(Box::new(clone_ast(x))),
        RegexAST::Class { chars, ranges, negated } => RegexAST::Class {
            chars: copy_chars(chars),
            ranges: copy_ranges(ranges),
            negated: *negated,
        },
    }
}

/// The char at `pos`, if any.
pub open spec fn peek_at(s: Seq<char>, pos: int) -> Option<char> {
    if 0 <= pos < s.len() {
        Some(s[pos])
    } else {
        None
    }
}

/// What a parser step gives: the expression read and the position after
/// it, or an error message.
pub type PResult = Result<(Ast, int), Seq<char>>;

pub open spec fn is_ascii_digit(c: char) -> bool {
    '0' <= c && c <= '9'
}

/// The end of the run of ASCII digits that starts at `p`.
pub open spec fn digits_end(s: Seq<char>, p: int) -> int
    decreases s.len() - p,
{
    if 0 <= p < s.len() && is_ascii_digit(s[p]) {
        digits_end(s, p + 1)
    } else {
        p
    }
}

/// The value of a string of decimal digits.
pub open spec fn digits_value(ds: Seq<char>) -> nat
    decreases ds.len(),
{
    if ds.len() == 0 {
        0
    } else {
        digits_value(ds.drop_last()) * 10 + ((ds.last() as u32) - 48) as nat
    }
}

/// A string of decimal digits parses as a `usize` when it is not empty and
/// its value fits.
pub open spec fn parses_usize(ds: Seq<char>) -> bool {
    ds.len() > 0 && digits_value(ds) <= usize::MAX
}

/// `n` copies of `a`.
pub open spec fn repeat(a: Ast, n: nat) -> Seq<Ast> {
    Seq::new(n, |i: int| a)
}

/// The expression of an escape `\e`.
pub open spec fn escape_ast(e: char) -> Ast {
    if e == 'd' {
        Ast::Digit
    } else if e == 'w' {
        Ast::Alphanumeric
    } else if e == 's' {
        Ast::Whitespace
    } else if e == 'D' {
        Ast::NonDigit
    } else if e == 'W' {
        Ast::NonAlphanumeric
    } else if e == 'S' {
        Ast::NonWhitespace
    } else {
        Ast::Char(e)
    }
}

/// A quantifier after `b`, read from `p`: `*`, `+`, `?`, or bounds
/// `{n}`, `{min,}`, `{min,max}` (expanded into copies of `b`).
pub open spec fn sp_quant(s: Seq<char>, p: int, b: Ast) -> PResult {
    match peek_at(s, p) {
        Some(c) => if c == '*' {
            Ok((Ast::ZeroOrMore(Box::new(b)), p + 1))
        } else if c == '+' {
            Ok((Ast::OneOrMore(Box::new(b)), p + 1))
        } else if c == '?' {
            Ok((Ast::ZeroOrOne(Box::new(b)), p + 1))
        } else if c == '{' {
            let q1 = digits_end(s, p + 1);
            let d1 = s.subrange(p + 1, q1);
            if peek_at(s, q1) == Some(',') {
                let q2 = digits_end(s, q1 + 1);
                let d2 = s.subrange(q1 + 1, q2);
                if peek_at(s, q2) != Some('}') {
                    Err("Unclosed quantifier bounds '{min,max}'"@)
                } else if !parses_usize(d1) {
                    Err("Invalid min bound"@)
                } else if d2.len() == 0 {
                    Ok((Ast::Concat(repeat(b, digits_value(d1)).push(Ast::ZeroOrMore(Box::new(b)))), q2 + 1))
                } else if !parses_usize(d2) {
                    Err("Invalid max bound"@)
                } else if digits_value(d2) < digits_value(d1) {
                    Err("Max bound cannot be less than min"@)
                } else {
                    Ok(
                        (
                            Ast::Concat(
                                repeat(b, digits_value(d1)) + repeat(
                                    Ast::ZeroOrOne(Box::new(b)),
                                    (digits_value(d2) - digits_value(d1)) as nat,
                                ),
                            ),
                            q2 + 1,
                        ),
                    )
                }
            } else if peek_at(s, q1) != Some('}') {
                Err("Unclosed quantifier bound '{n}'"@)
            } else if !parses_usize(d1) {
                Err("Invalid bound integer"@)
            } else {
                Ok((Ast::Concat(repeat(b, digits_value(d1))), q1 + 1))
            }
        } else {
            Ok((b, p))
        },
        None => Ok((b, p)),
    }
}

/// The members of a character class from `pos` up to its `]`, then the
/// position after the `]`.
pub open spec fn sp_class(
    s: Seq<char>,
    pos: int,
    chars: Seq<char>,
    ranges: Seq<(char, char)>,
) -> Result<(Seq<char>, Seq<(char, char)>, int), Seq<char>>
    decreases s.len() - pos,
{
    match peek_at(s, pos) {
        None => Err("Unclosed character class bracket"@),
        Some(nc) => if nc == ']' {
            Ok((chars, ranges, pos + 1))
        } else {
            // `cur` is the member, possibly escaped; `p` is after it.
            let esc = nc == '\\';
            if esc && peek_at(s, pos + 1) is None {
                Err("Dangling backslash inside class"@)
            } else {
                let cur = if esc {
                    s[pos + 1]
                } else {
                    nc
                };
                let p = if esc {
                    pos + 2
                } else {
                    pos + 1
                };
                if peek_at(s, p) == Some('-') {
                    match peek_at(s, p + 1) {
                        None => Err("Dangling range '-'"@),
                        Some(nx) => if nx == ']' {
                            sp_class(s, p + 1, chars.push(cur).push('-'), ranges)
                        } else if nx == '\\' {
                            match peek_at(s, p + 2) {
                                None => Err("Dangling backslash inside class range"@),
                                Some(e) => sp_class(s, p + 3, chars, ranges.push((cur, e))),
                            }
                        } else {
                            sp_class(s, p + 2, chars, ranges.push((cur, nx)))
                        },
                    }
                } else {
                    sp_class(s, p, chars.push(cur), ranges)
                }
            }
        },
    }
}

/// `Dangling operator/grouping symbol: 'c'`.
pub open spec fn dangling_message(c: char) -> Seq<char> {
    "Dangling operator/grouping symbol: '"@ + seq![c] + "'"@
}

/// `Unexpected character at index i: 'c'`.
pub open spec fn unexpected_message(i: nat, c: char) -> Seq<char> {
    "Unexpected character at index "@ + decimal(i) + ": '"@ + seq![c] + "'"@
}

/// A regular expression from `pos`: terms separated by `|`.
pub open spec fn sp_regex(s: Seq<char>, pos: int) -> PResult
    decreases s.len() - pos, 5nat,
{
    if pos < 0 || pos > s.len() {
        Err(Seq::empty())
    } else {
        match sp_term(s, pos) {
            Err(e) => Err(e),
            Ok((t, p)) => if p < pos || p > s.len() {
                Err(Seq::empty())
            } else {
                sp_alts(s, p, t)
            },
        }
    }
}

/// Further `|` alternatives after `left`.
pub open spec fn sp_alts(s: Seq<char>, pos: int, left: Ast) -> PResult
    decreases s.len() - pos, 4nat,
{
    if pos < 0 || pos > s.len() {
        Err(Seq::empty())
    } else if peek_at(s, pos) == Some('|') {
        match sp_term(s, pos + 1) {
            Err(e) => Err(e),
            Ok((t, p)) => if p < pos + 1 || p > s.len() {
                Err(Seq::empty())
            } else {
                sp_alts(s, p, Ast::Alternate(Box::new(left), Box::new(t)))
            },
        }
    } else {
        Ok((left, pos))
    }
}

/// A term from `pos`: factors up to `|`, `)` or the end; a single factor
/// stands alone, any other number makes a sequence.
pub open spec fn sp_term(s: Seq<char>, pos: int) -> PResult
    decreases s.len() - pos, 3nat,
{
    if pos < 0 || pos > s.len() {
        Err(Seq::empty())
    } else {
        match sp_factors(s, pos, Seq::empty()) {
            Err(e) => Err(e),
            Ok((fs, p)) => Ok(
                (
                    if fs.len() == 1 {
                        fs[0]
                    } else {
                        Ast::Concat(fs)
                    },
                    p,
                ),
            ),
        }
    }
}

/// The factors of a term from `pos`, after those in `acc`.
pub open spec fn sp_factors(s: Seq<char>, pos: int, acc: Seq<Ast>) -> Result<(Seq<Ast>, int), Seq<char>>
    decreases s.len() - pos, 2nat,
{
    if pos < 0 || pos > s.len() {
        Err(Seq::empty())
    } else {
        match peek_at(s, pos) {
            None => Ok((acc, pos)),
            Some(c) => if c == '|' || c == ')' {
                Ok((acc, pos))
            } else {
                match sp_factor(s, pos) {
                    Err(e) => Err(e),
                    Ok((f, p)) => if p <= pos || p > s.len() {
                        Err(Seq::empty())
                    } else {
                        sp_factors(s, p, acc.push(f))
                    },
                }
            },
        }
    }
}

/// A factor from `pos`: a base expression and an optional quantifier.
pub open spec fn sp_factor(s: Seq<char>, pos: int) -> PResult
    decreases s.len() - pos, 1nat,
{
    if pos < 0 || pos > s.len() {
        Err(Seq::empty())
    } else {
        match sp_base(s, pos) {
            Err(e) => Err(e),
            Ok((b, p)) => if p <= pos || p > s.len() {
                Err(Seq::empty())
            } else {
                sp_quant(s, p, b)
            },
        }
    }
}

/// A base expression from `pos`: `.`, an escape, a class, a group, or a
/// literal char.
pub open spec fn sp_base(s: Seq<char>, pos: int) -> PResult
    decreases s.len() - pos, 0nat,
{
    if pos < 0 || pos > s.len() {
        Err(Seq::empty())
    } else {
        match peek_at(s, pos) {
            None => Err("Unexpected end of pattern"@),
            Some(c) => if c == '.' {
                Ok((Ast::Wildcard, pos + 1))
            } else if c == '\\' {
                match peek_at(s, pos + 1) {
                    None => Err("Dangling backslash"@),
                    Some(e) => Ok((escape_ast(e), pos + 2)),
                }
            } else if c == '[' {
                let neg = peek_at(s, pos + 1) == Some('^');
                let start = if neg {
                    pos + 2
                } else {
                    pos + 1
                };
                match sp_class(s, start, Seq::empty(), Seq::empty()) {
                    Err(e) => Err(e),
                    Ok((cs, rs, p)) => Ok((Ast::Class(cs, rs, neg), p)),
                }
            } else if c == '(' {
                match sp_regex(s, pos + 1) {
                    Err(e) => Err(e),
                    Ok((inner, p)) => if peek_at(s, p) != Some(')') {
                        Err("Unclosed parenthesis group"@)
                    } else {
                        Ok((inner, p + 1))
                    },
                }
            } else if c == '*' || c == '+' || c == '?' || c == '{' || c == '}' || c == ')' || c
                == ']' {
                Err(dangling_message(c))
            } else {
                Ok((Ast::Char(c), pos + 1))
            },
        }
    }
}

/// The result of parsing a whole pattern: the empty pattern is the empty
/// sequence; otherwise a regular expression that must use every char.
pub open spec fn spec_parse(s: Seq<char>) -> Result<Ast, Seq<char>> {
    if s.len() == 0 {
        Ok(Ast::Concat(Seq::empty()))
    } else {
        match sp_regex(s, 0) {
            Err(e) => Err(e),
            Ok((a, p)) => if p < s.len() {
                Err(unexpected_message(p as nat, s[p]))
            } else {
                Ok(a)
            },
        }
    }
}

/// The result of parsing a pattern from position `pos` on: what
/// [`spec_parse`] gives at the start, and for a later position the
/// expression read from there, which must use the rest of the pattern.
pub open spec fn spec_parse_from(s: Seq<char>, pos: int) -> Result<Ast, Seq<char>> {
    if s.len() == 0 {
        Ok(Ast::Concat(Seq::empty()))
    } else {
        match sp_regex(s, pos) {
            Err(e) => Err(e),
            Ok((a, p)) => if p < s.len() {
                Err(unexpected_message(p as nat, s[p]))
            } else {
                Ok(a)
            },
        }
    }
}

/// The views of a list of expressions.
pub open spec fn asts_view(v: Seq<RegexAST>) -> Seq<Ast> {
    Seq::new(v.len(), |i: int| ast_view(v[i]))
}

proof fn lemma_concat_view(v: Vec<RegexAST>)
    ensures
        ast_view(RegexAST::Concat(v)) == Ast::Concat(asts_view(v@)),
{
    if let Ast::Concat(x) = ast_view(RegexAST::Concat(v)) {
        assert(x =~= asts_view(v@));
    }
}

/// What a parser call gives, in the terms of the specification.
pub open spec fn res_view(r: Result<RegexAST, String>, pos: int) -> PResult {
    match r {
        Ok(a) => Ok((ast_view(a), pos)),
        Err(e) => Err(e@),
    }
}

/// The value of a string of decimal digits, if it fits in a `usize`.
fn parse_digits(ds: &Vec<char>) -> (r: Option<usize>)
    requires
        forall|i: int| 0 <= i < ds@.len() ==> is_ascii_digit(#[trigger] ds@[i]),
    ensures
        match r {
            Some(v) => parses_usize(ds@) && v == digits_value(ds@),
            None => !parses_usize(ds@),
        },
{
    if ds.len() == 0 {
        return None;
    }
    let mut v: usize = 0;
    for i in 0..ds.len()
        invariant
            forall|i: int| 0 <= i < ds@.len() ==> is_ascii_digit(#[trigger] ds@[i]),
            v == digits_value(ds@.take(i as int)),
    {
        proof {
            assert(ds@.take(i + 1).drop_last() =~= ds@.take(i as int));
            assert(ds@.take(i + 1).last() == ds@[i as int]);
            lemma_digits_value_mono(ds@, i + 1);
        }
        let d = (ds[i] as u32 - 48) as usize;
        if v > (usize::MAX - d) / 10 {
            proof {
                assert(digits_value(ds@.take(i + 1)) > usize::MAX) by (nonlinear_arith)
                    requires
                        v > (usize::MAX - d) / 10,
                        digits_value(ds@.take(i + 1)) == v * 10 + d,
                        d <= 9,
                ;
            }
            return None;
        }
        proof {
            assert(v * 10 + d <= usize::MAX) by (nonlinear_arith)
                requires
                    v <= (usize::MAX - d) / 10,
                    d <= 9,
            ;
        }
        v = v * 10 + d;
    }
    assert(ds@.take(ds@.len() as int) =~= ds@);
    Some(v)
}

/// A prefix of a digit string has no greater value.
proof fn lemma_digits_value_mono(ds: Seq<char>, n: int)
    requires
        0 <= n <= ds.len(),
        forall|i: int| 0 <= i < ds.len() ==> is_ascii_digit(#[trigger] ds[i]),
    ensures
        digits_value(ds.take(n)) <= digits_value(ds),
    decreases ds.len() - n,
{
    if n < ds.len() {
        lemma_digits_value_mono(ds, n + 1);
        assert(ds.take(n + 1).drop_last() =~= ds.take(n));
    } else {
        assert(ds.take(n) =~= ds);
    }
}

/// Appends `n` copies of `a` to `v`.
fn push_copies(v: &mut Vec<RegexAST>, a: &RegexAST, n: usize)
    ensures
        asts_view(final(v)@) == asts_view(old(v)@) + repeat(ast_view(*a), n as nat),
{
    let ghost start = asts_view(v@);
    for i in 0..n
        invariant
            asts_view(v@) == start + repeat(ast_view(*a), i as nat),
    {
        let c = clone_ast(a);
        let ghost prev = v@;
        v.push(c);
        assert(asts_view(v@) =~= asts_view(prev).push(ast_view(c)));
        assert(asts_view(v@) =~= start + repeat(ast_view(*a), (i + 1) as nat));
    }
}

proof fn lemma_char_view(c: char)
    ensures
        ast_view(RegexAST::Char(c)) == Ast::Char(c),
{
}

/// The expression of an escape `\\e`.
fn escape_regex(ec: char) -> (r: RegexAST)
    ensures
        ast_view(r) == escape_ast(ec),
{
    if ec == 'd' {
        RegexAST::Digit
    } else if ec == 'w' {
        RegexAST::Alphanumeric
    } else if ec == 's' {
        RegexAST::Whitespace
    } else if ec == 'D' {
        RegexAST::NonDigit
    } else if ec == 'W' {
        RegexAST::NonAlphanumeric
    } else if ec == 'S' {
        RegexAST::NonWhitespace
    } else {
        RegexAST::Char(ec)
    }
}

/// A recursive-descent parser for regular expressions.
pub struct Parser<'a> {
    input: Vec<char>,
    pos: usize,
    _phantom: std::marker::PhantomData<&'a ()>,
}

impl<'a> Parser<'a> {
    /// The position never passes the end of the pattern.
    #[verifier::type_invariant]
    spec fn pos_in_input(self) -> bool {
        self.pos <= self.input@.len()
    }

    /// The chars of the pattern.
    pub closed spec fn input_view(&self) -> Seq<char> {
        self.input@
    }

    /// The position of the next char to read.
    pub closed spec fn pos_view(&self) -> int {
        self.pos as int
    }

    /// A parser at the start of `pattern`.
    pub fn new(pattern: &str) -> (r: Self)
        ensures
            r.input_view() == pattern@,
            r.pos_view() == 0,
    {
        Parser { input: chars_of(pattern), pos: 0, _phantom: std::marker::PhantomData }
    }

    fn peek(&self) -> (r: Option<char>)
        ensures
            r == peek_at(self.input@, self.pos as int),
    {
        if self.pos < self.input.len() {
            Some(self.input[self.pos])
        } else {
            None
        }
    }

    fn next(&mut self) -> (r: Option<char>)
        requires
            old(self).pos <= old(self).input@.len(),
        ensures
            r == peek_at(old(self).input@, old(self).pos as int),
            final(self).input@ == old(self).input@,
            final(self).pos == if r is Some {
                old(self).pos + 1
            } else {
                old(self).pos as int
            },
    {
        if self.pos < self.input.len() {
            let c = self.input[self.pos];
            self.pos = self.pos + 1;
            Some(c)
        } else {
            None
        }
    }

    /// Parses the whole pattern: the empty pattern is the empty sequence;
    /// otherwise alternatives of sequences of quantified bases, which must
    /// take up the whole pattern.
    pub fn parse(&mut self) -> (r: Result<RegexAST, String>)
        ensures
            match r {
                Ok(a) => spec_parse_from(old(self).input_view(), old(self).pos_view()) == Ok::<Ast, Seq<char>>(
                    ast_view(a),
                ),
                Err(e) => spec_parse_from(old(self).input_view(), old(self).pos_view()) == Err::<Ast, Seq<char>>(e@),
            },
            final(self).input_view() == old(self).input_view(),
    {
        proof {
            use_type_invariant(&*self);
        }
        if self.input.len() == 0 {
            let empty: Vec<RegexAST> = Vec::new();
            proof {
                lemma_concat_view(empty);
            }
            let r = RegexAST::Concat(empty);
            proof {
                assert(asts_view(Seq::<RegexAST>::empty()) =~= Seq::<Ast>::empty());
            }
            return Ok(r);
        }
        let ast = match self.parse_regex() {
            Ok(a) => a,
            Err(e) => {
                return Err(e);
            },
        };
        if self.pos < self.input.len() {
            let mut msg = "Unexpected character at index ".to_owned();
            let num = decimal_string(self.pos);
            push_str(&mut msg, num.as_str());
            push_str(&mut msg, ": '");
            push_char(&mut msg, self.input[self.pos]);
            push_str(&mut msg, "'");
            proof {
                assert(msg@ =~= unexpected_message(self.pos as nat, self.input@[self.pos as int]));
            }
            return Err(msg);
        }
        Ok(ast)
    }

    fn parse_regex(&mut self) -> (r: Result<RegexAST, String>)
        requires
            old(self).pos <= old(self).input@.len(),
        ensures
            final(self).input@ == old(self).input@,
            res_view(r, final(self).pos as int) == sp_regex(old(self).input@, old(self).pos as int),
            r is Ok ==> old(self).pos <= final(self).pos <= final(self).input@.len(),
            final(self).pos <= final(self).input@.len(),
        decreases old(self).input@.len() - old(self).pos, 5nat,
    {
        let ghost s = self.input@;
        let ghost p0 = self.pos as int;
        let mut term = match self.parse_term() {
            Ok(t) => t,
            Err(e) => {
                return Err(e);
            },
        };
        while self.peek() == Some('|')
            invariant
                self.input@ == s,
                s == old(self).input@,
                p0 == old(self).pos,
                p0 <= self.pos <= s.len(),
                sp_regex(s, p0) == sp_alts(s, self.pos as int, ast_view(term)),
            decreases s.len() - self.pos,
        {
            self.next();
            let next_term = match self.parse_term() {
                Ok(t) => t,
                Err(e) => {
                    return Err(e);
                },
            };
            term = RegexAST::Alternate(Box::new(term), Box::new(next_term));
        }
        Ok(term)
    }

    fn parse_term(&mut self) -> (r: Result<RegexAST, String>)
        requires
            old(self).pos <= old(self).input@.len(),
        ensures
            final(self).input@ == old(self).input@,
            res_view(r, final(self).pos as int) == sp_term(old(self).input@, old(self).pos as int),
            r is Ok ==> old(self).pos <= final(self).pos <= final(self).input@.len(),
            final(self).pos <= final(self).input@.len(),
        decreases old(self).input@.len() - old(self).pos, 3nat,
    {
        let ghost s = self.input@;
        let ghost p0 = self.pos as int;
        let mut factors: Vec<RegexAST> = Vec::new();
        let mut done = false;
        assert(asts_view(factors@) =~= Seq::<Ast>::empty());
        while !done
            invariant
                self.input@ == s,
                s == old(self).input@,
                p0 == old(self).pos,
                p0 <= self.pos <= s.len(),
                !done ==> sp_factors(s, p0, Seq::empty()) == sp_factors(
                    s,
                    self.pos as int,
                    asts_view(factors@),
                ),
                done ==> sp_factors(s, p0, Seq::empty()) == Ok::<(Seq<Ast>, int), Seq<char>>(
                    (asts_view(factors@), self.pos as int),
                ),
            decreases s.len() - self.pos, if done {
                0nat
            } else {
                1nat
            },
        {
            match self.peek() {
                None => {
                    done = true;
                },
                Some(c) => {
                    if c == '|' || c == ')' {
                        done = true;
                    } else {
                        let ghost fv = asts_view(factors@);
                        match self.parse_factor() {
                            Ok(f) => {
                                factors.push(f);
                                assert(asts_view(factors@) =~= fv.push(ast_view(f)));
                            },
                            Err(e) => {
                                return Err(e);
                            },
                        }
                    }
                },
            }
        }
        if factors.len() == 1 {
            let ghost fv = asts_view(factors@);
            let f = factors.remove(0);
            assert(fv[0] == ast_view(f));
            Ok(f)
        } else {
            proof {
                lemma_concat_view(factors);
            }
            Ok(RegexAST::Concat(factors))
        }
    }

    /// Reads the ASCII digits at the current position.
    fn read_digits(&mut self) -> (r: Vec<char>)
        requires
            old(self).pos <= old(self).input@.len(),
        ensures
            final(self).input@ == old(self).input@,
            final(self).pos == digits_end(old(self).input@, old(self).pos as int),
            old(self).pos <= final(self).pos <= final(self).input@.len(),
            r@ == old(self).input@.subrange(old(self).pos as int, final(self).pos as int),
            forall|i: int| 0 <= i < r@.len() ==> is_ascii_digit(#[trigger] r@[i]),
    {
        let ghost s = self.input@;
        let ghost p0 = self.pos as int;
        let mut ds: Vec<char> = Vec::new();
        while self.pos < self.input.len() && '0' <= self.input[self.pos] && self.input[self.pos] <= '9'
            invariant
                self.input@ == s,
                s == old(self).input@,
                p0 == old(self).pos,
                p0 <= self.pos <= s.len(),
                digits_end(s, p0) == digits_end(s, self.pos as int),
                ds@ == s.subrange(p0, self.pos as int),
                forall|i: int| 0 <= i < ds@.len() ==> is_ascii_digit(#[trigger] ds@[i]),
            decreases s.len() - self.pos,
        {
            ds.push(self.input[self.pos]);
            assert(ds@ =~= s.subrange(p0, self.pos + 1));
            assert(digits_end(s, self.pos as int) == digits_end(s, self.pos + 1));
            self.pos = self.pos + 1;
        }
        ds
    }

    fn parse_factor(&mut self) -> (r: Result<RegexAST, String>)
        requires
            old(self).pos <= old(self).input@.len(),
        ensures
            final(self).input@ == old(self).input@,
            res_view(r, final(self).pos as int) == sp_factor(old(self).input@, old(self).pos as int),
            r is Ok ==> old(self).pos < final(self).pos <= final(self).input@.len(),
            final(self).pos <= final(self).input@.len(),
        decreases old(self).input@.len() - old(self).pos, 1nat,
    {
        let ghost s = self.input@;
        let base = match self.parse_base() {
            Ok(b) => b,
            Err(e) => {
                return Err(e);
            },
        };
        let ghost p = self.pos as int;
        let ghost b = ast_view(base);
        match self.peek() {
            None => Ok(base),
            Some(c) => {
                if c == '*' {
                    self.next();
                    Ok(RegexAST::ZeroOrMore(Box::new(base)))
                } else if c == '+' {
                    self.next();
                    Ok(RegexAST::OneOrMore(Box::new(base)))
                } else if c == '?' {
                    self.next();
                    Ok(RegexAST::ZeroOrOne(Box::new(base)))
                } else if c == '{' {
                    self.next();
                    let num = self.read_digits();
                    let ghost q1 = self.pos as int;
                    if self.peek() == Some(',') {
                        self.next();
                        let max_digits = self.read_digits();
                        let ghost q2 = self.pos as int;
                        if self.next() != Some('}') {
                            return Err("Unclosed quantifier bounds '{min,max}'".to_owned());
                        }
                        let min = match parse_digits(&num) {
                            Some(m) => m,
                            None => {
                                return Err("Invalid min bound".to_owned());
                            },
                        };
                        if max_digits.len() == 0 {
                            let mut elements: Vec<RegexAST> = Vec::new();
                            assert(asts_view(elements@) =~= Seq::<Ast>::empty());
                            push_copies(&mut elements, &base, min);
                            let ghost ev = asts_view(elements@);
                            elements.push(RegexAST::ZeroOrMore(Box::new(base)));
                            proof {
                                assert(asts_view(elements@) =~= ev.push(Ast::ZeroOrMore(Box::new(b))));
                                assert(Seq::<Ast>::empty() + repeat(b, min as nat) =~= repeat(b, min as nat));
                                lemma_concat_view(elements);
                            }
                            Ok(RegexAST::Concat(elements))
                        } else {
                            let max = match parse_digits(&max_digits) {
                                Some(m) => m,
                                None => {
                                    return Err("Invalid max bound".to_owned());
                                },
                            };
                            if max < min {
                                return Err("Max bound cannot be less than min".to_owned());
                            }
                            let mut elements: Vec<RegexAST> = Vec::new();
                            assert(asts_view(elements@) =~= Seq::<Ast>::empty());
                            push_copies(&mut elements, &base, min);
                            let opt = RegexAST::ZeroOrOne(Box::new(clone_ast(&base)));
                            push_copies(&mut elements, &opt, max - min);
                            proof {
                                assert(Seq::<Ast>::empty() + repeat(b, min as nat) =~= repeat(b, min as nat));
                                lemma_concat_view(elements);
                            }
                            Ok(RegexAST::Concat(elements))
                        }
                    } else {
                        if self.next() != Some('}') {
                            return Err("Unclosed quantifier bound '{n}'".to_owned());
                        }
                        let n = match parse_digits(&num) {
                            Some(n) => n,
                            None => {
                                return Err("Invalid bound integer".to_owned());
                            },
                        };
                        let mut elements: Vec<RegexAST> = Vec::new();
                        assert(asts_view(elements@) =~= Seq::<Ast>::empty());
                        push_copies(&mut elements, &base, n);
                        proof {
                            assert(Seq::<Ast>::empty() + repeat(b, n as nat) =~= repeat(b, n as nat));
                            lemma_concat_view(elements);
                        }
                        Ok(RegexAST::Concat(elements))
                    }
                } else {
                    Ok(base)
                }
            },
        }
    }

    fn parse_base(&mut self) -> (r: Result<RegexAST, String>)
        requires
            old(self).pos <= old(self).input@.len(),
        ensures
            final(self).input@ == old(self).input@,
            res_view(r, final(self).pos as int) == sp_base(old(self).input@, old(self).pos as int),
            r is Ok ==> old(self).pos < final(self).pos <= final(self).input@.len(),
            final(self).pos <= final(self).input@.len(),
        decreases old(self).input@.len() - old(self).pos, 0nat,
    {
        let ghost s = self.input@;
        let ghost p0 = self.pos as int;
        let c = match self.next() {
            Some(c) => c,
            None => {
                return Err("Unexpected end of pattern".to_owned());
            },
        };
        proof {
            assert(peek_at(s, p0) == Some(c));
        }
        let res: Result<RegexAST, String> = if c == '.' {
            let x = Ok(RegexAST::Wildcard);
            assert(res_view(x, self.pos as int) == sp_base(s, p0));
            x
        } else if c == '\\' {
            let x = match self.next() {
                Some(ec) => Ok(escape_regex(ec)),
                None => Err("Dangling backslash".to_owned()),
            };
            assert(res_view(x, self.pos as int) == sp_base(s, p0));
            x
        } else if c == '[' {
            let negated = if self.peek() == Some('^') {
                self.next();
                true
            } else {
                false
            };
            let x = self.parse_class(negated);
            assert(res_view(x, self.pos as int) == sp_base(s, p0));
            x
        } else if c == '(' {
            let x = match self.parse_regex() {
                Ok(inner) => {
                    if self.next() != Some(')') {
                        Err("Unclosed parenthesis group".to_owned())
                    } else {
                        Ok(inner)
                    }
                },
                Err(e) => Err(e),
            };
            assert(res_view(x, self.pos as int) == sp_base(s, p0));
            x
        } else if c == '*' || c == '+' || c == '?' || c == '{' || c == '}' || c == ')' || c == ']' {
            let mut msg = "Dangling operator/grouping symbol: '".to_owned();
            push_char(&mut msg, c);
            push_str(&mut msg, "'");
            assert(msg@ =~= dangling_message(c));
            let x = Err(msg);
            assert(res_view(x, self.pos as int) == sp_base(s, p0));
            x
        } else {
            let x = Ok(RegexAST::Char(c));
            assert(sp_base(s, p0) == Ok::<(Ast, int), Seq<char>>((Ast::Char(c), p0 + 1)));
            proof {
                lemma_char_view(c);
            }
            assert(res_view(x, self.pos as int) == sp_base(s, p0));
            x
        };
        assert(res_view(res, self.pos as int) == sp_base(s, p0));
        res
    }

    /// Reads the members of a character class up to and past its `]`.
    fn parse_class(&mut self, negated: bool) -> (r: Result<RegexAST, String>)
        requires
            old(self).pos <= old(self).input@.len(),
        ensures
            final(self).input@ == old(self).input@,
            match r {
                Ok(a) => match sp_class(old(self).input@, old(self).pos as int, Seq::empty(), Seq::empty()) {
                    Ok((cs, rs, p)) => ast_view(a) == Ast::Class(cs, rs, negated) && final(self).pos == p,
                    Err(_) => false,
                },
                Err(e) => sp_class(old(self).input@, old(self).pos as int, Seq::empty(), Seq::empty())
                    == Err::<(Seq<char>, Seq<(char, char)>, int), Seq<char>>(e@),
            },
            r is Ok ==> old(self).pos < final(self).pos <= final(self).input@.len(),
            final(self).pos <= final(self).input@.len(),
    {
        let ghost s = self.input@;
        let ghost p0 = self.pos as int;
        let mut chars: Vec<char> = Vec::new();
        let mut ranges: Vec<(char, char)> = Vec::new();
        loop
            invariant
                self.input@ == s,
                s == old(self).input@,
                p0 == old(self).pos,
                p0 <= self.pos <= s.len(),
                sp_class(s, p0, Seq::empty(), Seq::empty()) == sp_class(
                    s,
                    self.pos as int,
                    chars@,
                    ranges@,
                ),
            decreases s.len() - self.pos,
        {
            let nc = match self.peek() {
                Some(nc) => nc,
                None => {
                    return Err("Unclosed character class bracket".to_owned());
                },
            };
            if nc == ']' {
                self.next();
                return Ok(RegexAST::Class { chars, ranges, negated });
            }
            let mut cur = match self.next() {
                Some(x) => x,
                None => {
                    return Err("Unclosed character class bracket".to_owned());
                },
            };
            if cur == '\\' {
                cur = match self.next() {
                    Some(x) => x,
                    None => {
                        return Err("Dangling backslash inside class".to_owned());
                    },
                };
            }
            if self.peek() == Some('-') {
                self.next();
                let next_c = match self.peek() {
                    Some(x) => x,
                    None => {
                        return Err("Dangling range '-'".to_owned());
                    },
                };
                if next_c == ']' {
                    chars.push(cur);
                    chars.push('-');
                } else {
                    let mut end = match self.next() {
                        Some(x) => x,
                        None => {
                            return Err("Dangling range '-'".to_owned());
                        },
                    };
                    if end == '\\' {
                        end = match self.next() {
                            Some(x) => x,
                            None => {
                                return Err("Dangling backslash inside class range".to_owned());
                            },
                        };
                    }
                    ranges.push((cur, end));
                }
            } else {
                chars.push(cur);
            }
        }
    }
}

/// An NFA transition label.
#[derive(Clone, Debug, PartialEq, Eq)]
pub enum Transition {
    Char(char),
    Wildcard,
    Digit,
    Alphanumeric,
    Whitespace,
    NonDigit,
    NonAlphanumeric,
    NonWhitespace,
    Class { chars: Vec<char>, ranges: Vec<(char, char)>, negated: bool },
    Epsilon,
}

/// An NFA state: its id and its outgoing transitions with their targets.
#[derive(Clone, Debug)]
pub struct State {
    pub id: usize,
    pub transitions: Vec<(Transition, usize)>,
}

/// A compiled NFA: its states, start and accepting state, and the pattern
/// it was compiled from.
#[derive(Clone, Debug)]
pub struct Nfa {
    pub states: Vec<State>,
    pub start: usize,
    pub accept: usize,
    pub pattern: String,
}

/// The mathematical form of a transition label.
pub enum TransV {
    Char(char),
    Wildcard,
    Digit,
    Alphanumeric,
    Whitespace,
    NonDigit,
    NonAlphanumeric,
    NonWhitespace,
    Class(Seq<char>, Seq<(char, char)>, bool),
    Epsilon,
}

pub open spec fn trans_view(t: Transition) -> TransV {
    match t {
        Transition::Char(c) => TransV::Char(c),
        Transition::Wildcard => TransV::Wildcard,
        Transition::Digit => TransV::Digit,
        Transition::Alphanumeric => TransV::Alphanumeric,
        Transition::Whitespace => TransV::Whitespace,
        Transition::NonDigit => TransV::NonDigit,
        Transition::NonAlphanumeric => TransV::NonAlphanumeric,
        Transition::NonWhitespace => TransV::NonWhitespace,
        Transition::Class { chars, ranges, negated } => TransV::Class(chars@, ranges@, negated),
        Transition::Epsilon => TransV::Epsilon,
    }
}

/// A state as its id and its labelled edges.
pub type StateV = (usize, Seq<(TransV, usize)>);

pub open spec fn state_view(s: State) -> StateV {
    (s.id, s.transitions@.map_values(|e: (Transition, usize)| (trans_view(e.0), e.1)))
}

pub open spec fn states_view(v: Seq<State>) -> Seq<StateV> {
    v.map_values(|s: State| state_view(s))
}

/// A new state with no edges; its id is its position.
pub open spec fn add_state(st: Seq<StateV>) -> Seq<StateV> {
    st.push((st.len() as usize, Seq::empty()))
}

/// An edge from `from` to `to`; nothing when `from` is not a state.
pub open spec fn add_trans(st: Seq<StateV>, from: int, t: TransV, to: int) -> Seq<StateV> {
    if 0 <= from < st.len() {
        st.update(from, (st[from].0, st[from].1.push((t, to as usize))))
    } else {
        st
    }
}

/// A start and an accepting state joined by one edge.
pub open spec fn sp_leaf(st: Seq<StateV>, t: TransV) -> (Seq<StateV>, int, int) {
    let s = st.len() as int;
    (add_trans(add_state(add_state(st)), s, t, s + 1), s, s + 1)
}

/// Thompson's construction of `a` onto the states `st`: the states
/// afterwards, and the start and accepting state of `a`.
pub open spec fn sp_compile(a: Ast, st: Seq<StateV>) -> (Seq<StateV>, int, int)
    decreases a, 0nat,
{
    match a {
        Ast::Char(c) => sp_leaf(st, TransV::Char(c)),
        Ast::Wildcard => sp_leaf(st, TransV::Wildcard),
        Ast::Digit => sp_leaf(st, TransV::Digit),
        Ast::Alphanumeric => sp_leaf(st, TransV::Alphanumeric),
        Ast::Whitespace => sp_leaf(st, TransV::Whitespace),
        Ast::NonDigit => sp_leaf(st, TransV::NonDigit),
        Ast::NonAlphanumeric => sp_leaf(st, TransV::NonAlphanumeric),
        Ast::NonWhitespace => sp_leaf(st, TransV::NonWhitespace),
        Ast::Class(cs, rs, neg) => sp_leaf(st, TransV::Class(cs, rs, neg)),
        Ast::Concat(es) => if es.len() == 0 {
            sp_leaf(st, TransV::Epsilon)
        } else {
            let first = sp_compile(es[0], st);
            let rest = sp_compile_seq(es, 1, first.0, first.2);
            (rest.0, first.1, rest.1)
        },
        Ast::Alternate(x, y) => {
            let s = st.len() as int;
            let base = add_state(add_state(st));
            let fx = sp_compile(*x, base);
            let fy = sp_compile(*y, fx.0);
            let t1 = add_trans(fy.0, s, TransV::Epsilon, fx.1);
            let t2 = add_trans(t1, s, TransV::Epsilon, fy.1);
            let t3 = add_trans(t2, fx.2, TransV::Epsilon, s + 1);
            (add_trans(t3, fy.2, TransV::Epsilon, s + 1), s, s + 1)
        },
        Ast::ZeroOrMore(x) => {
            let s = st.len() as int;
            let fx = sp_compile(*x, add_state(add_state(st)));
            let t1 = add_trans(fx.0, s, TransV::Epsilon, fx.1);
            let t2 = add_trans(t1, s, TransV::Epsilon, s + 1);
            let t3 = add_trans(t2, fx.2, TransV::Epsilon, fx.1);
            (add_trans(t3, fx.2, TransV::Epsilon, s + 1), s, s + 1)
        },
        Ast::OneOrMore(x) => {
            let s = st.len() as int;
            let fx = sp_compile(*x, add_state(add_state(st)));
            let t1 = add_trans(fx.0, s, TransV::Epsilon, fx.1);
            let t2 = add_trans(t1, fx.2, TransV::Epsilon, fx.1);
            (add_trans(t2, fx.2, TransV::Epsilon, s + 1), s, s + 1)
        },
        Ast::ZeroOrOne(x) => {
            let s = st.len() as int;
            let fx = sp_compile(*x, add_state(add_state(st)));
            let t1 = add_trans(fx.0, s, TransV::Epsilon, fx.1);
            let t2 = add_trans(t1, s, TransV::Epsilon, s + 1);
            (add_trans(t2, fx.2, TransV::Epsilon, s + 1), s, s + 1)
        },
    }
}

/// The elements `es[i..]` of a sequence compiled one after another, the
/// accepting state of each joined to the start of the next; gives the
/// states afterwards and the last accepting state.
pub open spec fn sp_compile_seq(es: Seq<Ast>, i: int, st: Seq<StateV>, acc: int) -> (Seq<StateV>, int)
    decreases es, es.len() - i,
{
    if i < 0 || i >= es.len() {
        (st, acc)
    } else {
        let f = sp_compile(es[i], st);
        sp_compile_seq(es, i + 1, add_trans(f.0, acc, TransV::Epsilon, f.1), f.2)
    }
}

struct NfaBuilder {
    states: Vec<State>,
}

impl NfaBuilder {
    fn new() -> (r: Self)
        ensures
            states_view(r.states@) == Seq::<StateV>::empty(),
    {
        let b = NfaBuilder { states: Vec::new() };
        assert(states_view(b.states@) =~= Seq::<StateV>::empty());
        b
    }

    fn add_state(&mut self) -> (id: usize)
        ensures
            states_view(final(self).states@) == add_state(states_view(old(self).states@)),
            id == old(self).states@.len(),
    {
        let id = self.states.len();
        let ghost before = self.states@;
        let st = State { id, transitions: Vec::new() };
        self.states.push(st);
        proof {
            assert(state_view(st).1 =~= Seq::<(TransV, usize)>::empty());
            assert(states_view(self.states@) =~= states_view(before).push(state_view(st)));
        }
        id
    }

    fn add_trans(&mut self, from: usize, trans: Transition, to: usize)
        ensures
            states_view(final(self).states@) == add_trans(
                states_view(old(self).states@),
                from as int,
                trans_view(trans),
                to as int,
            ),
    {
        let ghost before = self.states@;
        if from < self.states.len() {
            let mut st = State { id: 0, transitions: Vec::new() };
            std::mem::swap(&mut st, &mut self.states[from]);
            let ghost old_st = st;
            st.transitions.push((trans, to));
            proof {
                assert(state_view(st).1 =~= state_view(old_st).1.push((trans_view(trans), to)));
            }
            self.states.set(from, st);
            proof {
                assert(states_view(self.states@) =~= add_trans(
                    states_view(before),
                    from as int,
                    trans_view(trans),
                    to as int,
                ));
            }
        }
    }

    fn leaf(&mut self, t: Transition) -> (r: (usize, usize))
        ensures
            (states_view(final(self).states@), r.0 as int, r.1 as int) == sp_leaf(
                states_view(old(self).states@),
                trans_view(t),
            ),
    {
        let start = self.add_state();
        let accept = self.add_state();
        self.add_trans(start, t, accept);
        (start, accept)
    }

    /// Thompson's construction of `ast` onto the states built so far; gives
    /// the start and accepting state of `ast`.
    fn compile_ast(&mut self, ast: &RegexAST) -> (r: Result<(usize, usize), String>)
        ensures
            r matches Ok(p) && (states_view(final(self).states@), p.0 as int, p.1 as int)
                == sp_compile(ast_view(*ast), states_view(old(self).states@)),
        decreases ast,
    {
        let ghost st0 = states_view(self.states@);
        match ast {
            RegexAST::Char(c) => Ok(self.leaf(Transition::Char(*c))),
            RegexAST::Wildcard => Ok(self.leaf(Transition::Wildcard)),
            RegexAST::Digit => Ok(self.leaf(Transition::Digit)),
            RegexAST::Alphanumeric => Ok(self.leaf(Transition::Alphanumeric)),
            RegexAST::Whitespace => Ok(self.leaf(Transition::Whitespace)),
            RegexAST::NonDigit => Ok(self.leaf(Transition::NonDigit)),
            RegexAST::NonAlphanumeric => Ok(self.leaf(Transition::NonAlphanumeric)),
            RegexAST::NonWhitespace => Ok(self.leaf(Transition::NonWhitespace)),
            RegexAST::Class { chars, ranges, negated } => {
                let t = Transition::Class {
                    chars: copy_chars(chars),
                    ranges: copy_ranges(ranges),
                    negated: *negated,
                };
                Ok(self.leaf(t))
            },
            RegexAST::Concat(elements) => {
                proof {
                    lemma_concat_view(*elements);
                }
                let ghost es = asts_view(elements@);
                if elements.len() == 0 {
                    return Ok(self.leaf(Transition::Epsilon));
                }
                proof {
                    assert(decreases_to!(*ast => (*ast)->Concat_0));
                    assert((*ast)->Concat_0 == *elements);
                    assert(decreases_to!(*elements => elements@));
                    assert(decreases_to!(elements@ => elements@[0]));
                }
                let first = match self.compile_ast(&elements[0]) {
                    Ok(p) => p,
                    Err(e) => {
                        return Err(e);
                    },
                };
                let start = first.0;
                let mut current = first;
                for i in 1..elements.len()
                    invariant
                        *ast == RegexAST::Concat(*elements),
                        es == asts_view(elements@),
                        es.len() > 0,
                        sp_compile(Ast::Concat(es), st0) == {
                            let r = sp_compile_seq(es, i as int, states_view(self.states@), current.1 as int);
                            (r.0, start as int, r.1)
                        },
                {
                    proof {
                        assert(decreases_to!(*ast => (*ast)->Concat_0));
                        assert(decreases_to!(*elements => elements@));
                        assert(decreases_to!(elements@ => elements@[i as int]));
                    }
                    let next = match self.compile_ast(&elements[i]) {
                        Ok(p) => p,
                        Err(e) => {
                            return Err(e);
                        },
                    };
                    self.add_trans(current.1, Transition::Epsilon, next.0);
                    current = next;
                }
                Ok((start, current.1))
            },
            RegexAST::Alternate(a, b) => {
                let start = self.add_state();
                let accept = self.add_state();
                let nfa_a = match self.compile_ast(a) {
                    Ok(p) => p,
                    Err(e) => {
                        return Err(e);
                    },
                };
                let nfa_b = match self.compile_ast(b) {
                    Ok(p) => p,
                    Err(e) => {
                        return Err(e);
                    },
                };
                self.add_trans(start, Transition::Epsilon, nfa_a.0);
                self.add_trans(start, Transition::Epsilon, nfa_b.0);
                self.add_trans(nfa_a.1, Transition::Epsilon, accept);
                self.add_trans(nfa_b.1, Transition::Epsilon, accept);
                Ok((start, accept))
            },
            RegexAST::ZeroOrMore(a) => {
                let start = self.add_state();
                let accept = self.add_state();
                let nfa_a = match self.compile_ast(a) {
                    Ok(p) => p,
                    Err(e) => {
                        return Err(e);
                    },
                };
                self.add_trans(start, Transition::Epsilon, nfa_a.0);
                self.add_trans(start, Transition::Epsilon, accept);
                self.add_trans(nfa_a.1, Transition::Epsilon, nfa_a.0);
                self.add_trans(nfa_a.1, Transition::Epsilon, accept);
                Ok((start, accept))
            },
            RegexAST::OneOrMore(a) => {
                let start = self.add_state();
                let accept = self.add_state();
                let nfa_a = match self.compile_ast(a) {
                    Ok(p) => p,
                    Err(e) => {
                        return Err(e);
                    },
                };
                self.add_trans(start, Transition::Epsilon, nfa_a.0);
                self.add_trans(nfa_a.1, Transition::Epsilon, nfa_a.0);
                self.add_trans(nfa_a.1, Transition::Epsilon, accept);
                Ok((start, accept))
            },
            RegexAST::ZeroOrOne(a) => {
                let start = self.add_state();
                let accept = self.add_state();
                let nfa_a = match self.compile_ast(a) {
                    Ok(p) => p,
                    Err(e) => {
                        return Err(e);
                    },
                };
                self.add_trans(start, Transition::Epsilon, nfa_a.0);
                self.add_trans(start, Transition::Epsilon, accept);
                self.add_trans(nfa_a.1, Transition::Epsilon, accept);
                Ok((start, accept))
            },
        }
    }
}

impl Nfa {
    /// Parses `pattern` and compiles it into an NFA by Thompson's
    /// construction; a pattern that does not parse gives the parser's
    /// error.
    pub fn compile(pattern: &str) -> (r: Result<Nfa, String>)
        ensures
            match spec_parse(pattern@) {
                Err(e) => r matches Err(m) && m@ == e,
                Ok(a) => r matches Ok(n) && {
                    let c = sp_compile(a, Seq::empty());
                    &&& states_view(n.states@) == c.0
                    &&& n.start == c.1
                    &&& n.accept == c.2
                    &&& n.pattern@ == pattern@
                    &&& ids_are_indices(states_view(n.states@))
                    &&& n.start < n.states@.len()
                    &&& n.accept < n.states@.len()
                    &&& n.start != n.accept
                },
            },
    {
        let mut parser = Parser::new(pattern);
        let ast = match parser.parse() {
            Ok(a) => a,
            Err(e) => {
                return Err(e);
            },
        };
        let mut builder = NfaBuilder::new();
        let ghost before = states_view(builder.states@);
        let (start, accept) = match builder.compile_ast(&ast) {
            Ok(p) => p,
            Err(e) => {
                return Err(e);
            },
        };
        let nstates: usize = builder.states.len();
        proof {
            assert(ids_are_indices(Seq::<StateV>::empty()));
            assert(before == Seq::<StateV>::empty());
            assert((states_view(builder.states@), start as int, accept as int) == sp_compile(ast_view(ast), before));
            assert(states_view(builder.states@).len() == nstates);
            lemma_compile_ids(ast_view(ast), Seq::empty());
        }
        Ok(Nfa { states: builder.states, start, accept, pattern: pattern.to_owned() })
    }
}

/// Whether a char is in a class's chars or ranges.
pub open spec fn in_class(cs: Seq<char>, rs: Seq<(char, char)>, c: char) -> bool {
    cs.contains(c) || exists|k: int| 0 <= k < rs.len() && rs[k].0 <= c && c <= rs[k].1
}

/// Whether an edge with label `t` can be taken on `c`.
pub open spec fn trans_matches(t: TransV, c: char) -> bool {
    match t {
        TransV::Char(tc) => tc == c,
        TransV::Wildcard => c != '\n',
        TransV::Digit => is_ascii_digit(c),
        TransV::Alphanumeric => unicode_alphanumeric(c) || c == '_',
        TransV::Whitespace => unicode_whitespace(c),
        TransV::NonDigit => !is_ascii_digit(c),
        TransV::NonAlphanumeric => !(unicode_alphanumeric(c) || c == '_'),
        TransV::NonWhitespace => !unicode_whitespace(c),
        TransV::Class(cs, rs, neg) => if neg {
            !in_class(cs, rs, c)
        } else {
            in_class(cs, rs, c)
        },
        TransV::Epsilon => false,
    }
}

/// What the char classes take: `\d` exactly the ten ASCII digits `0` to
/// `9`; `\D`, `\W` and `\S` exactly the chars that `\d`, `\w` and `\s`
/// do not take; `\w` the ASCII letters, digits and `_` among the ASCII
/// chars; `\s` space, tab, line feed, vertical tab, form feed and carriage
/// return among the ASCII chars; `.` every char but a line feed; and an
/// epsilon edge no char.
pub proof fn lemma_class_chars(c: char)
    ensures
        trans_matches(TransV::Digit, c) <==> (48 <= (c as u32) && (c as u32) <= 57),
        trans_matches(TransV::NonDigit, c) <==> !trans_matches(TransV::Digit, c),
        trans_matches(TransV::NonAlphanumeric, c) <==> !trans_matches(TransV::Alphanumeric, c),
        trans_matches(TransV::NonWhitespace, c) <==> !trans_matches(TransV::Whitespace, c),
        (c as u32) < 128 ==> (trans_matches(TransV::Alphanumeric, c) <==> (('a' <= c && c <= 'z') || ('A' <= c
            && c <= 'Z') || ('0' <= c && c <= '9') || c == '_')),
        (c as u32) < 128 ==> (trans_matches(TransV::Whitespace, c) <==> (c == ' ' || c == '\t' || c == '\n' || c
            == '\r' || (c as u32) == 11 || (c as u32) == 12)),
        trans_matches(TransV::Wildcard, c) <==> c != '\n',
        trans_matches(TransV::Char(c), c),
        !trans_matches(TransV::Epsilon, c),
{
}

/// What a bracket class takes: `[...]` exactly the chars listed and the
/// chars within a listed range (ends included), and `[^...]` exactly the
/// chars that `[...]` does not take.
pub proof fn lemma_bracket_class_chars(cs: Seq<char>, rs: Seq<(char, char)>, c: char)
    ensures
        trans_matches(TransV::Class(cs, rs, false), c) <==> (cs.contains(c) || exists|k: int|
            0 <= k < rs.len() && (#[trigger] rs[k]).0 <= c && c <= rs[k].1),
        trans_matches(TransV::Class(cs, rs, true), c) <==> !trans_matches(TransV::Class(cs, rs, false), c),
{
}

/// Whether `c` may take the transition `trans`.
pub fn match_transition(trans: &Transition, c: char) -> (r: bool)
    ensures
        r == trans_matches(trans_view(*trans), c),
{
    match trans {
        Transition::Char(tc) => *tc == c,
        Transition::Wildcard => c != '\n',
        Transition::Digit => '0' <= c && c <= '9',
        Transition::Alphanumeric => char_is_alphanumeric(c) || c == '_',
        Transition::Whitespace => char_is_whitespace(c),
        Transition::NonDigit => !('0' <= c && c <= '9'),
        Transition::NonAlphanumeric => !(char_is_alphanumeric(c) || c == '_'),
        Transition::NonWhitespace => !char_is_whitespace(c),
        Transition::Class { chars, ranges, negated } => {
            let mut found = false;
            let mut i: usize = 0;
            while i < chars.len()
                invariant
                    i <= chars@.len(),
                    found <==> exists|q: int| 0 <= q < i && chars@[q] == c,
                decreases chars@.len() - i,
            {
                if chars[i] == c {
                    found = true;
                }
                i = i + 1;
            }
            if !found {
                let mut k: usize = 0;
                while k < ranges.len()
                    invariant
                        k <= ranges@.len(),
                        !found ==> forall|q: int| 0 <= q < k ==> !(ranges@[q].0 <= c && c <= ranges@[q].1),
                        found ==> exists|q: int| 0 <= q < ranges@.len() && ranges@[q].0 <= c && c <= ranges@[q].1,
                    decreases ranges@.len() - k,
                {
                    let (lo, hi) = ranges[k];
                    if lo <= c && c <= hi {
                        found = true;
                    }
                    k = k + 1;
                }
            }
            if *negated {
                !found
            } else {
                found
            }
        },
        Transition::Epsilon => false,
    }
}

/// Whether `st` has an epsilon edge from `a` to `b`.
pub open spec fn eps_edge(st: Seq<StateV>, a: usize, b: usize) -> bool {
    a < st.len() && exists|k: int| 0 <= k < st[a as int].1.len() && st[a as int].1[k] == (TransV::Epsilon, b)
}

/// `p` is a path of epsilon edges starting in `s`.
pub open spec fn eps_path(st: Seq<StateV>, s: Set<usize>, p: Seq<usize>) -> bool {
    &&& p.len() > 0
    &&& s.contains(p[0])
    &&& forall|i: int| 0 <= i < p.len() - 1 ==> #[trigger] eps_edge(st, p[i], p[i + 1])
}

/// The states reached from `s` by epsilon edges (`s` included).
pub open spec fn closure(st: Seq<StateV>, s: Set<usize>) -> Set<usize> {
    Set::new(|x: usize| exists|p: Seq<usize>| eps_path(st, s, p) && p.last() == x)
}

/// The targets of the edges out of `s` that `c` may take.
pub open spec fn direct(st: Seq<StateV>, s: Set<usize>, c: char) -> Set<usize> {
    Set::new(
        |t: usize|
            exists|y: usize, k: int|
                s.contains(y) && y < st.len() && 0 <= k < st[y as int].1.len() && st[y as int].1[k].1
                    == t && trans_matches(st[y as int].1[k].0, c),
    )
}

/// The targets of the edges out of state `y` that `c` may take.
pub open spec fn targets(st: Seq<StateV>, y: usize, c: char) -> Set<usize> {
    Set::new(
        |t: usize|
            exists|k: int|
                0 <= k < st[y as int].1.len() && st[y as int].1[k].1 == t && trans_matches(
                    st[y as int].1[k].0,
                    c,
                ),
    )
}

/// Adding a state to `s` adds its targets to the direct successors.
proof fn lemma_direct_insert(st: Seq<StateV>, s: Set<usize>, y: usize, c: char)
    ensures
        direct(st, s.insert(y), c) == if y < st.len() {
            direct(st, s, c).union(targets(st, y, c))
        } else {
            direct(st, s, c)
        },
{
    if y < st.len() {
        assert(direct(st, s.insert(y), c) =~= direct(st, s, c).union(targets(st, y, c)));
    } else {
        assert(direct(st, s.insert(y), c) =~= direct(st, s, c));
    }
}

/// The direct successors of nothing.
proof fn lemma_direct_empty(st: Seq<StateV>, c: char)
    ensures
        direct(st, Set::empty(), c) == Set::<usize>::empty(),
{
    assert(direct(st, Set::empty(), c) =~= Set::<usize>::empty());
}

/// The active states after reading `c` once more.
pub open spec fn step(st: Seq<StateV>, s: Set<usize>, c: char) -> Set<usize> {
    closure(st, direct(st, s, c))
}

/// The active states after reading `cs[i..k]` from the start state.
pub open spec fn run(st: Seq<StateV>, start: usize, cs: Seq<char>, i: int, k: int) -> Set<usize>
    decreases k - i,
{
    if k <= i {
        closure(st, set![start])
    } else {
        step(st, run(st, start, cs, i, k - 1), cs[k - 1])
    }
}

/// The greatest `k` in `i..=hi` after which the accepting state is active.
pub open spec fn last_accept(st: Seq<StateV>, start: usize, accept: usize, cs: Seq<char>, i: int, hi: int) -> Option<int>
    decreases hi - i + 1,
{
    if hi < i {
        None
    } else if run(st, start, cs, i, hi).contains(accept) {
        Some(hi)
    } else {
        last_accept(st, start, accept, cs, i, hi - 1)
    }
}

/// The matches starting before position `n`: for each start position, in
/// order, the longest span (possibly empty) that the NFA accepts.
pub open spec fn matches_upto(st: Seq<StateV>, start: usize, accept: usize, cs: Seq<char>, n: int) -> Seq<(usize, usize)>
    decreases n,
{
    if n <= 0 {
        Seq::empty()
    } else {
        let rest = matches_upto(st, start, accept, cs, n - 1);
        match last_accept(st, start, accept, cs, n - 1, cs.len() as int) {
            Some(e) => rest.push(((n - 1) as usize, e as usize)),
            None => rest,
        }
    }
}

/// A set of state ids: a flag per state id below `n`, and the list of
/// members.
struct StateSet {
    marks: Vec<bool>,
    list: Vec<usize>,
}

impl StateSet {
    spec fn wf(&self, n: nat) -> bool {
        &&& self.marks@.len() == n
        &&& self.list@.no_duplicates()
        &&& forall|i: int| 0 <= i < n ==> (self.marks@[i] <==> self.list@.contains(i as usize))
    }

    spec fn view(&self) -> Set<usize> {
        self.list@.to_set()
    }

    fn empty(n: usize) -> (r: Self)
        ensures
            r.wf(n as nat),
            r.view() == Set::<usize>::empty(),
    {
        let mut marks: Vec<bool> = Vec::new();
        for i in 0..n
            invariant
                marks@.len() == i,
                forall|q: int| 0 <= q < i ==> !marks@[q],
        {
            marks.push(false);
        }
        let r = StateSet { marks, list: Vec::new() };
        assert(r.list@.to_set() =~= Set::<usize>::empty());
        r
    }

    fn contains(&self, x: usize) -> (b: bool)
        requires
            self.wf(self.marks@.len()),
        ensures
            b == self.view().contains(x),
    {
        if x < self.marks.len() {
            self.marks[x]
        } else {
            let mut i: usize = 0;
            while i < self.list.len()
                invariant
                    i <= self.list@.len(),
                    forall|q: int| 0 <= q < i ==> self.list@[q] != x,
                decreases self.list@.len() - i,
            {
                if self.list[i] == x {
                    assert(self.list@.contains(x));
                    return true;
                }
                i = i + 1;
            }
            false
        }
    }

    /// Adds `x`; true when it was not there.
    fn insert(&mut self, x: usize) -> (added: bool)
        requires
            old(self).wf(old(self).marks@.len()),
        ensures
            final(self).wf(old(self).marks@.len()),
            final(self).view() == old(self).view().insert(x),
            added == !old(self).view().contains(x),
            x < old(self).marks@.len() ==> final(self).marks@ == old(self).marks@.update(x as int, true),
            x >= old(self).marks@.len() ==> final(self).marks@ == old(self).marks@,
    {
        if self.contains(x) {
            assert(self.view().insert(x) =~= self.view());
            return false;
        }
        let ghost old_list = self.list@;
        if x < self.marks.len() {
            self.marks.set(x, true);
        }
        self.list.push(x);
        proof {
            old_list.lemma_push_to_set_commute(x);
            assert(self.list@ == old_list.push(x));
            assert forall|i: int| 0 <= i < self.marks@.len() implies (self.marks@[i] <==> self.list@.contains(i as usize)) by {
                if i == x {
                    assert(self.list@[old_list.len() as int] == x);
                }
                if self.list@.contains(i as usize) {
                    let q = choose|q: int| 0 <= q < self.list@.len() && self.list@[q] == i as usize;
                    if q < old_list.len() {
                        assert(old_list.contains(i as usize));
                    }
                }
                if old_list.contains(i as usize) {
                    let q = choose|q: int| 0 <= q < old_list.len() && old_list[q] == i as usize;
                    assert(self.list@[q] == i as usize);
                }
            }
            assert forall|a: int, b: int| 0 <= a < b < self.list@.len() implies self.list@[a] != self.list@[b] by {
                if b == old_list.len() {
                    assert(old_list.contains(self.list@[a]));
                }
            }
        }
        true
    }

    fn is_empty(&self) -> (b: bool)
        ensures
            b == (self.view() == Set::<usize>::empty()),
    {
        if self.list.len() == 0 {
            assert(self.view() =~= Set::<usize>::empty());
            true
        } else {
            assert(self.view().contains(self.list@[0]));
            false
        }
    }
}

/// The number of unset flags.
spec fn count_false(m: Seq<bool>) -> nat
    decreases m.len(),
{
    if m.len() == 0 {
        0
    } else {
        count_false(m.drop_last()) + if m.last() {
            0nat
        } else {
            1nat
        }
    }
}

proof fn lemma_count_false_set(m: Seq<bool>, x: int)
    requires
        0 <= x < m.len(),
        !m[x],
    ensures
        count_false(m.update(x, true)) + 1 == count_false(m),
    decreases m.len(),
{
    let u = m.update(x, true);
    if x == m.len() - 1 {
        assert(u.drop_last() =~= m.drop_last());
    } else {
        lemma_count_false_set(m.drop_last(), x);
        assert(u.drop_last() =~= m.drop_last().update(x, true));
    }
}

/// Every epsilon edge out of `y` leads into `c`.
#[verifier::opaque]
spec fn eps_closed(st: Seq<StateV>, y: usize, c: Set<usize>) -> bool {
    forall|k: int|
        0 <= k < st[y as int].1.len() && (#[trigger] st[y as int].1[k]).0 is Epsilon ==> c.contains(
            st[y as int].1[k].1,
        )
}

/// A set holding `s` and closed under epsilon edges holds the end of every
/// epsilon path from `s`.
proof fn lemma_closure_complete(st: Seq<StateV>, s: Set<usize>, c: Set<usize>, p: Seq<usize>)
    requires
        s.subset_of(c),
        forall|y: usize| c.contains(y) ==> y >= st.len() || eps_closed(st, y, c),
        eps_path(st, s, p),
    ensures
        c.contains(p.last()),
    decreases p.len(),
{
    if p.len() > 1 {
        let q = p.drop_last();
        assert forall|i: int| 0 <= i < q.len() - 1 implies #[trigger] eps_edge(st, q[i], q[i + 1]) by {
            assert(eps_edge(st, p[i], p[i + 1]));
        }
        lemma_closure_complete(st, s, c, q);
        let y = q.last();
        let j = p.len() - 2;
        assert(eps_edge(st, p[j], p[j + 1]));
        let k = choose|k: int| 0 <= k < st[y as int].1.len() && st[y as int].1[k] == (TransV::Epsilon, p.last());
        assert(st[y as int].1[k].0 is Epsilon);
        assert(eps_closed(st, y, c));
        reveal(eps_closed);
    }
}

/// An epsilon path extended by one edge.
proof fn lemma_path_step(st: Seq<StateV>, s: Set<usize>, p: Seq<usize>, t: usize)
    requires
        eps_path(st, s, p),
        eps_edge(st, p.last(), t),
    ensures
        eps_path(st, s, p.push(t)),
{
    let q = p.push(t);
    assert forall|i: int| 0 <= i < q.len() - 1 implies #[trigger] eps_edge(st, q[i], q[i + 1]) by {
        if i < p.len() - 1 {
            assert(eps_edge(st, p[i], p[i + 1]));
        }
    }
}

/// The closure of nothing is empty.
proof fn lemma_closure_empty(st: Seq<StateV>)
    ensures
        closure(st, Set::empty()) == Set::<usize>::empty(),
{
    assert(closure(st, Set::empty()) =~= Set::<usize>::empty());
}

/// Once no state is active, none ever is again.
proof fn lemma_run_dead(st: Seq<StateV>, start: usize, cs: Seq<char>, i: int, k: int, k2: int)
    requires
        i <= k <= k2 <= cs.len(),
        run(st, start, cs, i, k) == Set::<usize>::empty(),
    ensures
        run(st, start, cs, i, k2) == Set::<usize>::empty(),
    decreases k2 - k,
{
    if k2 > k {
        lemma_run_dead(st, start, cs, i, k, k2 - 1);
        let e = Set::<usize>::empty();
        assert(direct(st, e, cs[k2 - 1]) =~= e);
        lemma_closure_empty(st);
    }
}

/// The greatest accepting end is unchanged by ends where no state is
/// active.
proof fn lemma_last_accept_dead(st: Seq<StateV>, start: usize, accept: usize, cs: Seq<char>, i: int, k: int, hi: int)
    requires
        i <= k <= hi <= cs.len(),
        forall|j: int| k < j <= hi ==> run(st, start, cs, i, j) == Set::<usize>::empty(),
    ensures
        last_accept(st, start, accept, cs, i, hi) == last_accept(st, start, accept, cs, i, k),
    decreases hi - k,
{
    if hi > k {
        assert(run(st, start, cs, i, hi) == Set::<usize>::empty());
        lemma_last_accept_dead(st, start, accept, cs, i, k, hi - 1);
    }
}

fn is_epsilon(t: &Transition) -> (r: bool)
    ensures
        r == (trans_view(*t) is Epsilon),
{
    match t {
        Transition::Epsilon => true,
        _ => false,
    }
}

/// Closedness at a state survives growing the set.
proof fn lemma_eps_closed_mono(st: Seq<StateV>, y: usize, c1: Set<usize>, c2: Set<usize>)
    requires
        c1.subset_of(c2),
        eps_closed(st, y, c1),
    ensures
        eps_closed(st, y, c2),
{
    reveal(eps_closed);
    assert forall|k: int|
        0 <= k < st[y as int].1.len() && (#[trigger] st[y as int].1[k]).0 is Epsilon implies c2.contains(
        st[y as int].1[k].1,
    ) by {
        assert(c1.contains(st[y as int].1[k].1));
    }
}

/// The invariant of the closure work list: each state of the set `c` is
/// reached from `s0` by the recorded path, each queued state is in `c`, and
/// each state of `c` is queued, not a state, or closed under epsilon edges.
#[verifier::opaque]
spec fn work_inv(
    sv: Seq<StateV>,
    s0: Set<usize>,
    n: int,
    c: Set<usize>,
    queue: Seq<usize>,
    dist: Map<usize, Seq<usize>>,
) -> bool {
    &&& forall|x: usize|
        #![trigger c.contains(x)]
        c.contains(x) ==> dist.dom().contains(x) && eps_path(sv, s0, dist[x]) && dist[x].last() == x
    &&& forall|q: int| 0 <= q < queue.len() ==> c.contains(#[trigger] queue[q])
    &&& forall|y: usize|
        #![trigger c.contains(y)]
        c.contains(y) ==> queue.contains(y) || y >= n || eps_closed(sv, y, c)
}

/// What the work-list invariant gives about the paths and the queue.
proof fn lemma_work_paths(
    sv: Seq<StateV>,
    s0: Set<usize>,
    n: int,
    c: Set<usize>,
    queue: Seq<usize>,
    dist: Map<usize, Seq<usize>>,
)
    requires
        work_inv(sv, s0, n, c, queue, dist),
    ensures
        forall|x: usize|
            #![trigger c.contains(x)]
            c.contains(x) ==> dist.dom().contains(x) && eps_path(sv, s0, dist[x]) && dist[x].last() == x,
        queue.len() > 0 ==> c.contains(queue.last()),
{
    reveal(work_inv);
}

/// Taking a state that is not a state id off the queue keeps the invariant.
proof fn lemma_work_skip(
    sv: Seq<StateV>,
    s0: Set<usize>,
    n: int,
    c: Set<usize>,
    qp: Seq<usize>,
    y: usize,
    dist: Map<usize, Seq<usize>>,
)
    requires
        work_inv(sv, s0, n, c, qp.push(y), dist),
        y >= n,
    ensures
        work_inv(sv, s0, n, c, qp, dist),
{
    reveal(work_inv);
    let q_old = qp.push(y);
    assert forall|q: int| 0 <= q < qp.len() implies c.contains(#[trigger] qp[q]) by {
        assert(q_old[q] == qp[q]);
    }
    assert forall|z: usize| #![trigger c.contains(z)] c.contains(z) implies qp.contains(z) || z >= n || eps_closed(
        sv,
        z,
        c,
    ) by {
        if q_old.contains(z) && z != y {
            let q = choose|q: int| 0 <= q < q_old.len() && q_old[q] == z;
            assert(qp[q] == z);
        }
    }
}

/// One round of the closure work list, in which the targets of the epsilon
/// edges out of `y` were added, keeps the invariant.
proof fn lemma_closure_round(
    sv: Seq<StateV>,
    s0: Set<usize>,
    n: int,
    y: usize,
    qp: Seq<usize>,
    q_new: Seq<usize>,
    c_old: Set<usize>,
    c_new: Set<usize>,
    d_old: Map<usize, Seq<usize>>,
    d_new: Map<usize, Seq<usize>>,
)
    requires
        work_inv(sv, s0, n, c_old, qp.push(y), d_old),
        y < n,
        c_old.subset_of(c_new),
        forall|x: usize|
            #![trigger c_new.contains(x)]
            c_new.contains(x) ==> d_new.dom().contains(x) && eps_path(sv, s0, d_new[x]) && d_new[x].last() == x,
        q_new.len() >= qp.len(),
        q_new.take(qp.len() as int) == qp,
        forall|q: int| qp.len() <= q < q_new.len() ==> c_new.contains(#[trigger] q_new[q]),
        forall|z: usize|
            #![trigger c_new.contains(z)]
            c_new.contains(z) && !c_old.contains(z) ==> q_new.contains(z) || z >= n,
        eps_closed(sv, y, c_new),
    ensures
        work_inv(sv, s0, n, c_new, q_new, d_new),
{
    reveal(work_inv);
    let q_old = qp.push(y);
    assert forall|q: int| 0 <= q < q_new.len() implies c_new.contains(#[trigger] q_new[q]) by {
        if q < qp.len() {
            assert(q_new.take(qp.len() as int)[q] == qp[q]);
            assert(q_old[q] == qp[q]);
            assert(c_old.contains(q_old[q]));
        }
    }
    assert forall|z: usize| #![trigger c_new.contains(z)] c_new.contains(z) implies q_new.contains(z) || z >= n
        || eps_closed(sv, z, c_new) by {
        if c_old.contains(z) && z != y {
            if q_old.contains(z) {
                let q = choose|q: int| 0 <= q < q_old.len() && q_old[q] == z;
                assert(q < qp.len());
                assert(q_new.take(qp.len() as int)[q] == qp[q]);
                assert(q_new[q] == z);
            } else if z < n {
                lemma_eps_closed_mono(sv, z, c_old, c_new);
            }
        }
    }
}

/// When the work list is empty, the set is the closure of `s0`.
proof fn lemma_work_done(
    sv: Seq<StateV>,
    s0: Set<usize>,
    n: int,
    c: Set<usize>,
    dist: Map<usize, Seq<usize>>,
)
    requires
        work_inv(sv, s0, n, c, Seq::empty(), dist),
        s0.subset_of(c),
        n == sv.len(),
    ensures
        c == closure(sv, s0),
{
    reveal(work_inv);
    assert forall|x: usize| c.contains(x) <==> closure(sv, s0).contains(x) by {
        if c.contains(x) {
            assert(eps_path(sv, s0, dist[x]) && dist[x].last() == x);
        }
        if closure(sv, s0).contains(x) {
            let pth = choose|pth: Seq<usize>| eps_path(sv, s0, pth) && pth.last() == x;
            assert forall|y: usize| c.contains(y) implies y >= sv.len() || eps_closed(sv, y, c) by {
                assert(!Seq::<usize>::empty().contains(y));
            }
            lemma_closure_complete(sv, s0, c, pth);
        }
    }
    assert(c =~= closure(sv, s0));
}

impl Nfa {
    /// Adds the epsilon targets of state `y` to `c`, queueing the new ones
    /// that are states; gives the paths that reach the states of `c`.
    fn expand(
        &self,
        y: usize,
        c: &mut StateSet,
        queue: &mut Vec<usize>,
        Ghost(s0): Ghost<Set<usize>>,
        Ghost(dist): Ghost<Map<usize, Seq<usize>>>,
    ) -> (r: Ghost<Map<usize, Seq<usize>>>)
        requires
            y < self.states@.len(),
            old(c).wf(self.states@.len()),
            old(c).view().contains(y),
            forall|x: usize|
                #![trigger old(c).view().contains(x)]
                old(c).view().contains(x) ==> dist.dom().contains(x) && eps_path(
                    states_view(self.states@),
                    s0,
                    dist[x],
                ) && dist[x].last() == x,
        ensures
            final(c).wf(self.states@.len()),
            old(c).view().subset_of(final(c).view()),
            forall|x: usize|
                #![trigger final(c).view().contains(x)]
                final(c).view().contains(x) ==> r@.dom().contains(x) && eps_path(
                    states_view(self.states@),
                    s0,
                    r@[x],
                ) && r@[x].last() == x,
            final(queue)@.len() >= old(queue)@.len(),
            final(queue)@.take(old(queue)@.len() as int) == old(queue)@,
            forall|q: int|
                old(queue)@.len() <= q < final(queue)@.len() ==> final(c).view().contains(
                    #[trigger] final(queue)@[q],
                ),
            forall|z: usize|
                #![trigger final(c).view().contains(z)]
                final(c).view().contains(z) && !old(c).view().contains(z) ==> final(queue)@.contains(z)
                    || z >= self.states@.len(),
            eps_closed(states_view(self.states@), y, final(c).view()),
            count_false(final(c).marks@) + final(queue)@.len() == count_false(old(c).marks@) + old(
                queue,
            )@.len(),
    {
        let ghost sv = states_view(self.states@);
        let n = self.states.len();
        let ghost c0 = c.view();
        let ghost q0 = queue@;
        let ghost cf0 = count_false(c.marks@);
        let ghost mut d = dist;
        let ts = &self.states[y].transitions;
        let ghost tv = sv[y as int].1;
        proof {
            assert(tv == ts@.map_values(|e: (Transition, usize)| (trans_view(e.0), e.1)));
            assert(queue@.take(q0.len() as int) =~= q0);
        }
        for k in 0..ts.len()
            invariant
                n == self.states@.len(),
                sv == states_view(self.states@),
                y < n,
                tv == sv[y as int].1,
                tv == ts@.map_values(|e: (Transition, usize)| (trans_view(e.0), e.1)),
                c.wf(n as nat),
                c0.subset_of(c.view()),
                c.view().contains(y),
                forall|x: usize|
                    #![trigger c.view().contains(x)]
                    c.view().contains(x) ==> d.dom().contains(x) && eps_path(sv, s0, d[x])
                        && d[x].last() == x,
                queue@.len() >= q0.len(),
                queue@.take(q0.len() as int) == q0,
                forall|q: int| q0.len() <= q < queue@.len() ==> c.view().contains(#[trigger] queue@[q]),
                forall|z: usize|
                    #![trigger c.view().contains(z)]
                    c.view().contains(z) && !c0.contains(z) ==> queue@.contains(z) || z >= n,
                forall|q: int|
                    0 <= q < k && (#[trigger] tv[q]).0 is Epsilon ==> c.view().contains(tv[q].1),
                count_false(c.marks@) + queue@.len() == cf0 + q0.len(),
        {
            if is_epsilon(&ts[k].0) {
                let t = ts[k].1;
                proof {
                    assert(tv[k as int] == (trans_view(ts@[k as int].0), t));
                    assert(tv[k as int] == (TransV::Epsilon, t));
                    assert(eps_edge(sv, y, t));
                    lemma_path_step(sv, s0, d[y], t);
                }
                let ghost old_marks = c.marks@;
                let ghost old_c = c.view();
                let ghost old_q = queue@;
                let ghost py = d[y].push(t);
                let added = c.insert(t);
                if added {
                    proof {
                        d = d.insert(t, py);
                    }
                    if t < n {
                        proof {
                            assert(!old_marks[t as int]);
                            lemma_count_false_set(old_marks, t as int);
                        }
                        queue.push(t);
                        proof {
                            assert(queue@.take(q0.len() as int) =~= old_q.take(q0.len() as int));
                            assert(queue@[queue@.len() - 1] == t);
                        }
                    }
                } else {
                    proof {
                        if t < n {
                            assert(old_marks[t as int]);
                            assert(old_marks.update(t as int, true) =~= old_marks);
                        }
                    }
                }
                proof {
                    assert forall|z: usize|
                        #![trigger c.view().contains(z)]
                        c.view().contains(z) && !c0.contains(z) implies queue@.contains(z) || z >= n by {
                        if z != t {
                            assert(old_c.contains(z));
                            if old_q.contains(z) {
                                let q = choose|q: int| 0 <= q < old_q.len() && old_q[q] == z;
                                assert(queue@[q] == z);
                            }
                        } else if t < n && added {
                            assert(queue@[queue@.len() - 1] == t);
                        }
                    }
                }
            }
        }
        proof {
            reveal(eps_closed);
            assert forall|q: int|
                0 <= q < sv[y as int].1.len() && (#[trigger] sv[y as int].1[q]).0 is Epsilon implies c.view().contains(
                sv[y as int].1[q].1,
            ) by {
                assert(tv[q] == sv[y as int].1[q]);
            }
        }
        Ghost(d)
    }

    /// The longest match starting at char position `i` of `cs`: its end, or
    /// `None` when no span from `i` is accepted.
    fn longest_from(&self, cs: &Vec<char>, i: usize) -> (r: Option<usize>)
        requires
            i <= cs@.len(),
        ensures
            r == match last_accept(states_view(self.states@), self.start, self.accept, cs@, i as int, cs@.len() as int) {
                Some(e) => Some(e as usize),
                None => None::<usize>,
            },
    {
        let ghost sv = states_view(self.states@);
        let n = self.states.len();
        let mut init = StateSet::empty(n);
        init.insert(self.start);
        proof {
            assert(init.view() =~= set![self.start]);
        }
        let mut active = self.epsilon_closure(&init);
        let mut longest: Option<usize> = None;
        if active.contains(self.accept) {
            longest = Some(i);
        }
        proof {
            assert(run(sv, self.start, cs@, i as int, i as int) == closure(sv, set![self.start]));
            assert(last_accept(sv, self.start, self.accept, cs@, i as int, i - 1) == None::<int>);
        }
        let mut cur = i;
        while cur < cs.len()
            invariant_except_break
                i <= cur <= cs@.len(),
                sv == states_view(self.states@),
                active.wf(n as nat),
                n == self.states@.len(),
                active.view() == run(sv, self.start, cs@, i as int, cur as int),
                longest == match last_accept(sv, self.start, self.accept, cs@, i as int, cur as int) {
                    Some(e) => Some(e as usize),
                    None => None::<usize>,
                },
            ensures
                longest == match last_accept(sv, self.start, self.accept, cs@, i as int, cs@.len() as int) {
                    Some(e) => Some(e as usize),
                    None => None::<usize>,
                },
            decreases cs@.len() - cur,
        {
            let next = self.step_active_set(&active, cs[cur]);
            if next.is_empty() {
                proof {
                    assert(run(sv, self.start, cs@, i as int, cur + 1) == Set::<usize>::empty());
                    assert forall|j: int| cur < j <= cs@.len() implies run(sv, self.start, cs@, i as int, j)
                        == Set::<usize>::empty() by {
                        lemma_run_dead(sv, self.start, cs@, i as int, cur + 1, j);
                    }
                    lemma_last_accept_dead(sv, self.start, self.accept, cs@, i as int, cur as int, cs@.len() as int);
                }
                break;
            }
            active = next;
            cur = cur + 1;
            if active.contains(self.accept) {
                longest = Some(cur);
            }
        }
        longest
    }

    /// The matches in `text`, by char positions: for each start position in
    /// order, the longest span (possibly empty) that the pattern accepts.
    pub fn matches(&self, text: &str) -> (r: Vec<(usize, usize)>)
        ensures
            r@ == matches_upto(states_view(self.states@), self.start, self.accept, text@, text@.len() as int),
    {
        let chars = chars_of(text);
        let mut results: Vec<(usize, usize)> = Vec::new();
        for start_idx in 0..chars.len()
            invariant
                chars@ == text@,
                results@ == matches_upto(states_view(self.states@), self.start, self.accept, text@, start_idx as int),
        {
            let found = self.longest_from(&chars, start_idx);
            if let Some(end_idx) = found {
                results.push((start_idx, end_idx));
            }
        }
        results
    }

    /// Takes one state off the work list and adds the targets of its
    /// epsilon edges.
    fn closure_round(
        &self,
        c: &mut StateSet,
        queue: &mut Vec<usize>,
        Ghost(s0): Ghost<Set<usize>>,
        Ghost(dist): Ghost<Map<usize, Seq<usize>>>,
    ) -> (r: Ghost<Map<usize, Seq<usize>>>)
        requires
            old(c).wf(self.states@.len()),
            old(queue)@.len() > 0,
            s0.subset_of(old(c).view()),
            work_inv(states_view(self.states@), s0, self.states@.len() as int, old(c).view(), old(queue)@, dist),
        ensures
            final(c).wf(self.states@.len()),
            s0.subset_of(final(c).view()),
            work_inv(states_view(self.states@), s0, self.states@.len() as int, final(c).view(), final(queue)@, r@),
            count_false(final(c).marks@) < count_false(old(c).marks@) || (count_false(final(c).marks@)
                == count_false(old(c).marks@) && final(queue)@.len() < old(queue)@.len()),
    {
        let ghost sv = states_view(self.states@);
        let n = self.states.len();
        let ghost q_old = queue@;
        let ghost c_old = c.view();
        let ghost d_old = dist;
        proof {
            lemma_work_paths(sv, s0, n as int, c_old, q_old, d_old);
        }
        let y = queue.pop().unwrap();
        proof {
            assert(q_old =~= queue@.push(y));
        }
        if y < n {
            let ghost qp = queue@;
            let r = self.expand(y, c, queue, Ghost(s0), Ghost(dist));
            proof {
                lemma_closure_round(sv, s0, n as int, y, qp, queue@, c_old, c.view(), d_old, r@);
            }
            r
        } else {
            proof {
                lemma_work_skip(sv, s0, n as int, c.view(), queue@, y, dist);
            }
            Ghost(dist)
        }
    }

    /// Adds to `next` the targets of the edges out of state `y` that `c`
    /// may take.
    fn add_targets(&self, y: usize, c: char, next: &mut StateSet)
        requires
            y < self.states@.len(),
            old(next).wf(old(next).marks@.len()),
        ensures
            final(next).wf(old(next).marks@.len()),
            final(next).view() == old(next).view().union(targets(states_view(self.states@), y, c)),
    {
        let ghost sv = states_view(self.states@);
        let ghost n0 = next.marks@.len();
        let ghost v0 = next.view();
        let ts = &self.states[y].transitions;
        let ghost tv = sv[y as int].1;
        proof {
            assert(tv == ts@.map_values(|e: (Transition, usize)| (trans_view(e.0), e.1)));
        }
        for k in 0..ts.len()
            invariant
                sv == states_view(self.states@),
                y < self.states@.len(),
                tv == sv[y as int].1,
                tv == ts@.map_values(|e: (Transition, usize)| (trans_view(e.0), e.1)),
                next.wf(n0),
                next.view() == v0.union(
                    Set::new(
                        |t: usize|
                            exists|q: int| 0 <= q < k && tv[q].1 == t && trans_matches(tv[q].0, c),
                    ),
                ),
        {
            let ghost before = next.view();
            proof {
                assert(tv[k as int] == (trans_view(ts@[k as int].0), ts@[k as int].1));
            }
            if match_transition(&ts[k].0, c) {
                next.insert(ts[k].1);
            }
            proof {
                assert(next.view() =~= v0.union(
                    Set::new(
                        |t: usize|
                            exists|q: int| 0 <= q < k + 1 && tv[q].1 == t && trans_matches(tv[q].0, c),
                    ),
                )) by {
                    assert forall|t: usize|
                        (exists|q: int| 0 <= q < k + 1 && tv[q].1 == t && trans_matches(tv[q].0, c))
                            implies #[trigger] next.view().contains(t) by {
                        let q = choose|q: int| 0 <= q < k + 1 && tv[q].1 == t && trans_matches(tv[q].0, c);
                        if q < k {
                            assert(before.contains(t));
                        }
                    }
                }
            }
        }
        proof {
            assert(next.view() =~= v0.union(targets(sv, y, c)));
        }
    }

    /// The active states after reading `c` from the active states `active`.
    fn step_active_set(&self, active: &StateSet, c: char) -> (r: StateSet)
        requires
            active.wf(self.states@.len()),
        ensures
            r.wf(self.states@.len()),
            r.view() == step(states_view(self.states@), active.view(), c),
    {
        let ghost sv = states_view(self.states@);
        let n = self.states.len();
        let mut next = StateSet::empty(n);
        proof {
            lemma_direct_empty(sv, c);
            assert(active.list@.take(0).to_set() =~= Set::<usize>::empty());
        }
        for i in 0..active.list.len()
            invariant
                n == self.states@.len(),
                sv == states_view(self.states@),
                next.wf(n as nat),
                next.view() == direct(sv, active.list@.take(i as int).to_set(), c),
        {
            let y = active.list[i];
            let ghost pre = active.list@.take(i as int).to_set();
            proof {
                active.list@.take(i as int).lemma_push_to_set_commute(y);
                assert(active.list@.take(i + 1) =~= active.list@.take(i as int).push(y));
                lemma_direct_insert(sv, pre, y, c);
            }
            if y < n {
                self.add_targets(y, c, &mut next);
            }
        }
        proof {
            assert(active.list@.take(active.list@.len() as int) =~= active.list@);
        }
        self.epsilon_closure(&next)
    }

    /// The states reached from `set` by epsilon edges.
    fn epsilon_closure(&self, set: &StateSet) -> (r: StateSet)
        requires
            set.wf(self.states@.len()),
        ensures
            r.wf(self.states@.len()),
            r.view() == closure(states_view(self.states@), set.view()),
    {
        let ghost sv = states_view(self.states@);
        let ghost s0 = set.view();
        let n = self.states.len();
        let mut c = StateSet::empty(n);
        let mut queue: Vec<usize> = Vec::new();
        let ghost mut dist: Map<usize, Seq<usize>> = Map::empty();
        for i in 0..set.list.len()
            invariant
                n == self.states@.len(),
                set.wf(n as nat),
                s0 == set.view(),
                c.wf(n as nat),
                c.view() == set.list@.take(i as int).to_set(),
                queue@ == set.list@.take(i as int),
                forall|x: usize|
                    #![trigger c.view().contains(x)]
                    c.view().contains(x) ==> dist.dom().contains(x) && dist[x] == seq![x],
        {
            let x = set.list[i];
            proof {
                set.list@.take(i as int).lemma_push_to_set_commute(x);
                assert(set.list@.take(i + 1) =~= set.list@.take(i as int).push(x));
            }
            c.insert(x);
            queue.push(x);
            proof {
                dist = dist.insert(x, seq![x]);
            }
        }
        assert(work_inv(sv, s0, n as int, c.view(), queue@, dist)) by {
            reveal(work_inv);
            assert(set.list@.take(set.list@.len() as int) =~= set.list@);
            assert forall|x: usize| #![trigger c.view().contains(x)] c.view().contains(x) implies eps_path(
                sv,
                s0,
                dist[x],
            ) && dist[x].last() == x by {
                assert(set.list@.contains(x));
            }
            assert forall|q: int| 0 <= q < queue@.len() implies c.view().contains(#[trigger] queue@[q]) by {
                assert(set.list@.to_set().contains(set.list@[q]));
            }
        }
        proof {
            assert(set.list@.take(set.list@.len() as int) =~= set.list@);
        }
        while queue.len() > 0
            invariant
                n == self.states@.len(),
                sv == states_view(self.states@),
                c.wf(n as nat),
                s0.subset_of(c.view()),
                work_inv(sv, s0, n as int, c.view(), queue@, dist),
            decreases count_false(c.marks@), queue@.len(),
        {
            let Ghost(d2) = self.closure_round(&mut c, &mut queue, Ghost(s0), Ghost(dist));
            proof {
                dist = d2;
            }
        }
        proof {
            assert(queue@ =~= Seq::<usize>::empty());
            lemma_work_done(sv, s0, n as int, c.view(), dist);
        }
        c
    }
}

proof fn lemma_last_accept_range(st: Seq<StateV>, start: usize, accept: usize, cs: Seq<char>, i: int, hi: int)
    ensures
        last_accept(st, start, accept, cs, i, hi) matches Some(e) ==> i <= e <= hi,
    decreases hi - i + 1,
{
    if hi >= i && !run(st, start, cs, i, hi).contains(accept) {
        lemma_last_accept_range(st, start, accept, cs, i, hi - 1);
    }
}

/// The matches come one per start position at most, in increasing order
/// of their start, each a span `start <= end` within the text (of at most
/// `usize::MAX` chars, as any text in memory is).
pub proof fn lemma_matches_ordered(st: Seq<StateV>, start: usize, accept: usize, cs: Seq<char>, n: int)
    requires
        n <= cs.len(),
        cs.len() <= usize::MAX,
    ensures
        forall|q: int|
            0 <= q < matches_upto(st, start, accept, cs, n).len() ==> (#[trigger] matches_upto(
                st,
                start,
                accept,
                cs,
                n,
            )[q]).0 <= matches_upto(st, start, accept, cs, n)[q].1 <= cs.len() && matches_upto(
                st,
                start,
                accept,
                cs,
                n,
            )[q].0 < n,
        forall|a: int, b: int|
            0 <= a < b < matches_upto(st, start, accept, cs, n).len() ==> (#[trigger] matches_upto(
                st,
                start,
                accept,
                cs,
                n,
            )[a]).0 < (#[trigger] matches_upto(st, start, accept, cs, n)[b]).0,
    decreases n,
{
    if n > 0 {
        lemma_matches_ordered(st, start, accept, cs, n - 1);
        lemma_last_accept_range(st, start, accept, cs, n - 1, cs.len() as int);
        let rest = matches_upto(st, start, accept, cs, n - 1);
        let m = matches_upto(st, start, accept, cs, n);
        assert forall|q: int| 0 <= q < m.len() implies (#[trigger] m[q]).0 <= m[q].1 <= cs.len() && m[q].0 < n by {
            if q < rest.len() {
                assert(m[q] == rest[q]);
            }
        }
        assert forall|a: int, b: int| 0 <= a < b < m.len() implies (#[trigger] m[a]).0 < (#[trigger] m[b]).0 by {
            assert(m[a] == rest[a]);
            if b < rest.len() {
                assert(m[b] == rest[b]);
            }
        }
    }
}

// ─── Fuzzy term expansion ───────────────────────────────────────────────

/// `t` with its chars at `i` and `i + 1` swapped.
pub open spec fn swap_adjacent(t: Seq<char>, i: int) -> Seq<char> {
    t.update(i, t[i + 1]).update(i + 1, t[i])
}

/// The non-empty deletions of one of the first `k` chars of `t`.
pub open spec fn deletions(t: Seq<char>, k: int) -> Set<Seq<char>> {
    Set::new(|p: Seq<char>| exists|i: int| 0 <= i < k && p == t.remove(i) && p.len() > 0)
}

/// `t` with one of its first `k` chars replaced by the wildcard `.`.
pub open spec fn substitutions(t: Seq<char>, k: int) -> Set<Seq<char>> {
    Set::new(|p: Seq<char>| exists|i: int| 0 <= i < k && p == t.update(i, '.'))
}

/// `t` with a wildcard `.` put in at one of the first `k` positions.
pub open spec fn insertions(t: Seq<char>, k: int) -> Set<Seq<char>> {
    Set::new(|p: Seq<char>| exists|i: int| 0 <= i < k && p == t.insert(i, '.'))
}

/// `t` with one of its first `k` adjacent pairs swapped.
pub open spec fn transpositions(t: Seq<char>, k: int) -> Set<Seq<char>> {
    Set::new(|p: Seq<char>| exists|i: int| 0 <= i < k && p == swap_adjacent(t, i))
}

/// The one-edit variants of `t`: `t` itself, its non-empty deletions, its
/// wildcard substitutions and insertions, and its adjacent transpositions.
pub open spec fn edit_variants(t: Seq<char>) -> Set<Seq<char>> {
    set![t].union(deletions(t, t.len() as int)).union(substitutions(t, t.len() as int)).union(
        insertions(t, t.len() as int + 1),
    ).union(transpositions(t, t.len() - 1))
}

/// The char strings of `v`.
pub open spec fn char_strings(v: Seq<Vec<char>>) -> Seq<Seq<char>> {
    v.map_values(|x: Vec<char>| x@)
}

/// `cs` without its char at `i`.
fn without_at(cs: &Vec<char>, i: usize) -> (r: Vec<char>)
    requires
        i < cs@.len(),
    ensures
        r@ == cs@.remove(i as int),
{
    let mut r: Vec<char> = Vec::new();
    for k in 0..cs.len()
        invariant
            i < cs@.len(),
            r@ == if k <= i {
                cs@.take(k as int)
            } else {
                cs@.remove(i as int).take(k - 1)
            },
    {
        if k != i {
            r.push(cs[k]);
        }
        proof {
            if k < i {
                assert(cs@.take(k + 1) =~= cs@.take(k as int).push(cs@[k as int]));
            } else if k == i {
                assert(cs@.remove(i as int).take(k as int) =~= cs@.take(k as int));
            } else {
                assert(cs@.remove(i as int).take(k as int) =~= cs@.remove(i as int).take(k - 1).push(
                    cs@[k as int],
                ));
            }
        }
    }
    proof {
        assert(cs@.remove(i as int).take(cs@.len() - 1) =~= cs@.remove(i as int));
    }
    r
}

/// `cs` with a `.` put in at `i`.
fn with_wildcard_at(cs: &Vec<char>, i: usize) -> (r: Vec<char>)
    requires
        i <= cs@.len(),
    ensures
        r@ == cs@.insert(i as int, '.'),
{
    let mut r: Vec<char> = Vec::new();
    for k in 0..cs.len()
        invariant
            i <= cs@.len(),
            r@ == if k <= i {
                cs@.take(k as int)
            } else {
                cs@.insert(i as int, '.').take(k + 1)
            },
    {
        if k == i {
            r.push('.');
            proof {
                assert(cs@.insert(i as int, '.').take(k as int) =~= cs@.take(k as int));
            }
        }
        r.push(cs[k]);
        proof {
            if k < i {
                assert(cs@.take(k + 1) =~= cs@.take(k as int).push(cs@[k as int]));
            } else if k == i {
                assert(r@ =~= cs@.insert(i as int, '.').take(k + 2));
            } else {
                assert(cs@.insert(i as int, '.').take(k + 2) =~= cs@.insert(i as int, '.').take(k + 1).push(
                    cs@[k as int],
                ));
            }
        }
    }
    if i == cs.len() {
        r.push('.');
        proof {
            assert(cs@.take(cs@.len() as int) =~= cs@);
            assert(r@ =~= cs@.insert(i as int, '.'));
        }
    } else {
        proof {
            assert(cs@.insert(i as int, '.').take(cs@.len() as int + 1) =~= cs@.insert(i as int, '.'));
        }
    }
    r
}

/// The one-edit variants of the chars `cs`, each once, in sorted order.
fn edit_variant_list(cs: &Vec<char>) -> (r: Vec<Vec<char>>)
    requires
        cs@.len() > 0,
    ensures
        strictly_sorted_chars(char_strings(r@)),
        char_strings(r@).to_set() == edit_variants(cs@),
{
    let ghost t = cs@;
    let n = cs.len();
    let mut pats: Vec<Vec<char>> = Vec::new();
    proof {
        assert(char_strings(pats@).to_set() =~= Set::<Seq<char>>::empty());
    }
    insert_sorted_chars(&mut pats, copy_chars(cs));
    proof {
        assert(char_strings(pats@).to_set() =~= set![t]);
        assert(deletions(t, 0) =~= Set::<Seq<char>>::empty());
        assert(set![t].union(deletions(t, 0)) =~= set![t]);
    }
    for i in 0..n
        invariant
            n == t.len(),
            t == cs@,
            strictly_sorted_chars(char_strings(pats@)),
            char_strings(pats@).to_set() == set![t].union(deletions(t, i as int)),
    {
        let p = without_at(cs, i);
        let ghost before = char_strings(pats@).to_set();
        if p.len() > 0 {
            insert_sorted_chars(&mut pats, p);
            proof {
                assert(deletions(t, i + 1) =~= deletions(t, i as int).insert(t.remove(i as int)));
            }
        } else {
            proof {
                assert(deletions(t, i + 1) =~= deletions(t, i as int));
            }
        }
        proof {
            assert(char_strings(pats@).to_set() =~= set![t].union(deletions(t, i + 1)));
        }
    }
    let ghost base = set![t].union(deletions(t, n as int));
    proof {
        assert(substitutions(t, 0) =~= Set::<Seq<char>>::empty());
        assert(base.union(substitutions(t, 0)) =~= base);
    }
    for i in 0..n
        invariant
            n == t.len(),
            t == cs@,
            strictly_sorted_chars(char_strings(pats@)),
            char_strings(pats@).to_set() == base.union(substitutions(t, i as int)),
    {
        let mut p = copy_chars(cs);
        p.set(i, '.');
        insert_sorted_chars(&mut pats, p);
        proof {
            assert(substitutions(t, i + 1) =~= substitutions(t, i as int).insert(t.update(i as int, '.')));
            assert(char_strings(pats@).to_set() =~= base.union(substitutions(t, i + 1)));
        }
    }
    let ghost base2 = base.union(substitutions(t, n as int));
    proof {
        assert(insertions(t, 0) =~= Set::<Seq<char>>::empty());
        assert(base2.union(insertions(t, 0)) =~= base2);
    }
    for i in 0..n
        invariant
            n == t.len(),
            t == cs@,
            strictly_sorted_chars(char_strings(pats@)),
            char_strings(pats@).to_set() == base2.union(insertions(t, i as int)),
    {
        let p = with_wildcard_at(cs, i);
        insert_sorted_chars(&mut pats, p);
        proof {
            assert(insertions(t, i + 1) =~= insertions(t, i as int).insert(t.insert(i as int, '.')));
            assert(char_strings(pats@).to_set() =~= base2.union(insertions(t, i + 1)));
        }
    }
    let p = with_wildcard_at(cs, n);
    insert_sorted_chars(&mut pats, p);
    proof {
        assert(insertions(t, n + 1) =~= insertions(t, n as int).insert(t.insert(n as int, '.')));
        assert(char_strings(pats@).to_set() =~= base2.union(insertions(t, n + 1)));
    }
    let ghost base3 = base2.union(insertions(t, n + 1));
    proof {
        assert(transpositions(t, 0) =~= Set::<Seq<char>>::empty());
        assert(base3.union(transpositions(t, 0)) =~= base3);
    }
    for i in 0..n - 1
        invariant
            n == t.len(),
            n > 0,
            t == cs@,
            strictly_sorted_chars(char_strings(pats@)),
            char_strings(pats@).to_set() == base3.union(transpositions(t, i as int)),
    {
        let mut p = copy_chars(cs);
        let a = cs[i];
        let b = cs[i + 1];
        p.set(i, b);
        p.set(i + 1, a);
        insert_sorted_chars(&mut pats, p);
        proof {
            assert(transpositions(t, i + 1) =~= transpositions(t, i as int).insert(swap_adjacent(t, i as int)));
            assert(char_strings(pats@).to_set() =~= base3.union(transpositions(t, i + 1)));
        }
    }
    pats
}

/// The one-edit variants of `term` (deletions that leave something, `.`
/// substitutions and insertions, adjacent transpositions, and `term`
/// itself), each once, sorted, and joined with `|` into one pattern; empty
/// for an empty term.
pub fn levenshtein_regex(term: &str) -> (r: String)
    ensures
        term@.len() == 0 ==> r@ == Seq::<char>::empty(),
        term@.len() > 0 ==> exists|ps: Seq<Seq<char>>|
            strictly_sorted_chars(ps) && ps.to_set() == edit_variants(term@) && r@ == join_with(ps, seq!['|']),
{
    let cs = chars_of(term);
    if cs.len() == 0 {
        return String::new();
    }
    let pats = edit_variant_list(&cs);
    let mut r = String::new();
    let bar = "|";
    proof {
        reveal_strlit("|");
    }
    for i in 0..pats.len()
        invariant
            bar@ == seq!['|'],
            r@ == join_with(char_strings(pats@).take(i as int), seq!['|']),
    {
        push_joined(&mut r, pats[i].as_slice(), bar, i == 0);
        proof {
            let ps = char_strings(pats@);
            assert(ps.take(i + 1).drop_last() =~= ps.take(i as int));
            if i == 0 {
                assert(Seq::<char>::empty() + pats@[0]@ =~= pats@[0]@);
            }
        }
    }
    proof {
        assert(char_strings(pats@).take(pats@.len() as int) =~= char_strings(pats@));
    }
    r
}

} // verus!
