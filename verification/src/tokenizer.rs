//! Lexing: an input line is split into lexemes at a fixed delimiter set, and
//! each lexeme is classified as an operator, a parenthesis, a number, the
//! binding sign or a named literal.  A leading option prefix before a `#`
//! switches session display options.
use vstd::prelude::*;

verus! {

use crate::op::OpType;
use crate::rational::{Rational, Rat, rat_norm};
use vstd::string::StrSliceExecFns;
use vstd::string::StringExecFns;

/// Session display options parsed from the option prefix.
#[derive(Debug, Clone, Copy, PartialEq, Eq, Structural)]
pub struct TokenizerOptions {
    pub debug: bool,
    pub as_float: bool,
}

impl Default for TokenizerOptions {
    /// Both options start switched off.
    fn default() -> (r: Self)
        ensures
            r == (TokenizerOptions { debug: false, as_float: false }),
    {
        TokenizerOptions { debug: false, as_float: false }
    }
}

/// The kind of a token, without its payload.
#[derive(Debug, Clone, Copy, PartialEq, Eq, Structural)]
pub enum TokenType {
    Number,
    Op,
    OpenP,
    CloseP,
    Literal,
    Eq,
    Invalid,
}

/// One token.
#[derive(Debug, PartialEq)]
pub enum Token {
    Number(Rational),
    Op(OpType),
    OpenP,
    CloseP,
    Literal(String),
    Eq,
    Invalid,
}

/// The mathematical shape of a token.
pub enum TokV {
    Number(Rat),
    Op(OpType),
    OpenP,
    CloseP,
    Literal(Seq<char>),
    Eq,
    Invalid,
}

impl View for Token {
    type V = TokV;

    open spec fn view(&self) -> TokV {
        match self {
            Token::Number(x) => TokV::Number(x@),
            Token::Op(o) => TokV::Op(*o),
            Token::OpenP => TokV::OpenP,
            Token::CloseP => TokV::CloseP,
            Token::Literal(s) => TokV::Literal(s@),
            Token::Eq => TokV::Eq,
            Token::Invalid => TokV::Invalid,
        }
    }
}

impl Clone for Token {
    /// A copy whose shape is the original's.
    fn clone(&self) -> (r: Self)
        ensures
            r@ == self@,
    {
        match self {
            Token::Number(x) => Token::Number(*x),
            Token::Op(o) => Token::Op(*o),
            Token::OpenP => Token::OpenP,
            Token::CloseP => Token::CloseP,
            Token::Literal(s) => Token::Literal(s.clone()),
            Token::Eq => Token::Eq,
            Token::Invalid => Token::Invalid,
        }
    }
}

/// The kind of a token shape.
pub open spec fn spec_token_type(t: TokV) -> TokenType {
    match t {
        TokV::Number(_) => TokenType::Number,
        TokV::Op(_) => TokenType::Op,
        TokV::OpenP => TokenType::OpenP,
        TokV::CloseP => TokenType::CloseP,
        TokV::Literal(_) => TokenType::Literal,
        TokV::Eq => TokenType::Eq,
        TokV::Invalid => TokenType::Invalid,
    }
}

/// The operator of an operator token.
pub open spec fn spec_as_op_type(t: TokV) -> Option<OpType> {
    match t {
        TokV::Op(o) => Some(o),
        _ => None,
    }
}

/// The number of a number token.
pub open spec fn spec_as_nr(t: TokV) -> Option<Rat> {
    match t {
        TokV::Number(x) => Some(x),
        _ => None,
    }
}

impl Token {
    /// The token's kind.
    pub fn get_type(&self) -> (r: TokenType)
        ensures
            r == spec_token_type(self@),
    {
        match self {
            Token::Number(_) => TokenType::Number,
            Token::Op(_) => TokenType::Op,
            Token::OpenP => TokenType::OpenP,
            Token::CloseP => TokenType::CloseP,
            Token::Literal(_) => TokenType::Literal,
            Token::Eq => TokenType::Eq,
            Token::Invalid => TokenType::Invalid,
        }
    }

    /// The operator, for an operator token.
    pub fn as_op_type(&self) -> (r: Option<OpType>)
        ensures
            r == spec_as_op_type(self@),
    {
        match self {
            Token::Op(o) => Some(*o),
            _ => None,
        }
    }

    /// The number, for a number token.
    pub fn as_nr(&self) -> (r: Option<Rational>)
        ensures
            match r {
                Some(x) => spec_as_nr(self@) == Some(x@),
                None => spec_as_nr(self@) is None,
            },
    {
        match self {
            Token::Number(x) => Some(*x),
            _ => None,
        }
    }
}

/// The delimiter set: space separates, the others stand alone as lexemes.
pub open spec fn is_delim(c: char) -> bool {
    c == ' ' || c == '*' || c == '/' || c == '+' || c == '-' || c == '^' || c == '(' || c == ')'
        || c == '%' || c == '='
}

/// The position of the first delimiter, or the length when there is none.
pub open spec fn first_delim(s: Seq<char>) -> int
    decreases s.len(),
{
    if s.len() == 0 {
        0
    } else if is_delim(s[0]) {
        0
    } else {
        1 + first_delim(s.subrange(1, s.len() as int))
    }
}

/// The first-delimiter position lies within the text, with no delimiter
/// before it and one at it unless it is the end.
pub proof fn lemma_first_delim_bounds(s: Seq<char>)
    ensures
        0 <= first_delim(s) <= s.len(),
        first_delim(s) < s.len() ==> is_delim(s[first_delim(s)]),
        forall|j: int| 0 <= j < first_delim(s) ==> !is_delim(#[trigger] s[j]),
    decreases s.len(),
{
    if s.len() > 0 && !is_delim(s[0]) {
        let t = s.subrange(1, s.len() as int);
        lemma_first_delim_bounds(t);
        assert forall|j: int| 0 <= j < first_delim(s) implies !is_delim(#[trigger] s[j]) by {
            if j >= 1 {
                assert(s[j] == t[j - 1]);
            }
        };
    }
}

/// How a line splits into lexemes: up to the leftmost delimiter, that piece
/// (when nonempty), then the delimiter itself (unless it is the space, which
/// only separates), then the rest, split the same way.
pub open spec fn spec_split(s: Seq<char>) -> Seq<Seq<char>>
    decreases s.len(),
    via spec_split_decreases
{
    let i = first_delim(s);
    if i == s.len() {
        if s.len() == 0 {
            Seq::empty()
        } else {
            seq![s]
        }
    } else {
        let head = s.subrange(0, i);
        let rest = spec_split(s.subrange(i + 1, s.len() as int));
        let with_delim: Seq<Seq<char>> = if s[i] == ' ' {
            rest
        } else {
            seq![seq![s[i]]] + rest
        };
        if head.len() == 0 {
            with_delim
        } else {
            seq![head] + with_delim
        }
    }
}

#[via_fn]
proof fn spec_split_decreases(s: Seq<char>) {
    lemma_first_delim_bounds(s);
}

/// The views of a sequence of owned strings.
pub open spec fn strs_view(ts: Seq<String>) -> Seq<Seq<char>> {
    ts.map_values(|t: String| t@)
}

/// Pins `first_delim` down: no delimiter up to `k`, and one at `k` unless
/// `k` is the end.
pub proof fn lemma_first_delim_from(s: Seq<char>, k: int)
    requires
        0 <= k <= s.len(),
        forall|j: int| 0 <= j < k ==> !is_delim(#[trigger] s[j]),
        k < s.len() ==> is_delim(s[k]),
    ensures
        first_delim(s) == k,
    decreases k,
{
    if s.len() == 0 {
    } else if k == 0 {
    } else {
        let t = s.subrange(1, s.len() as int);
        assert(forall|j: int| 0 <= j < k - 1 ==> !is_delim(#[trigger] t[j]));
        lemma_first_delim_from(t, k - 1);
    }
}

/// Whether the character is a delimiter.
fn is_delim_char(c: char) -> (r: bool)
    ensures
        r == is_delim(c),
{
    c == ' ' || c == '*' || c == '/' || c == '+' || c == '-' || c == '^' || c == '(' || c == ')'
        || c == '%' || c == '='
}

/// Splits a line into lexemes; see `spec_split`.
pub fn split(s: &str) -> (r: Vec<String>)
    ensures
        strs_view(r@) == spec_split(s@),
{
    let len = s.unicode_len();
    let mut out: Vec<String> = Vec::new();
    let mut start: usize = 0;
    let mut i: usize = 0;
    proof {
        assert(s@.subrange(0, len as int) =~= s@);
    }
    while i < len
        invariant
            start <= i <= len,
            len == s@.len(),
            forall|j: int| start <= j < i ==> !is_delim(#[trigger] s@[j]),
            strs_view(out@) + spec_split(s@.subrange(start as int, len as int)) == spec_split(s@),
        decreases len - i,
    {
        let c = s.get_char(i);
        if is_delim_char(c) {
            let ghost t = s@.subrange(start as int, len as int);
            proof {
                assert(forall|j: int| 0 <= j < i - start ==> !is_delim(#[trigger] t[j]));
                lemma_first_delim_from(t, i - start);
            }
            let ghost before = out@;
            if i > start {
                let head = s.substring_char(start, i);
                out.push(head.to_owned());
                proof {
                    assert(head@ =~= t.subrange(0, i - start));
                }
            }
            if c != ' ' {
                let d = s.substring_char(i, i + 1);
                out.push(d.to_owned());
                proof {
                    assert(d@ =~= seq![t[i - start]]);
                }
            }
            proof {
                let head = t.subrange(0, i - start);
                let rest = spec_split(t.subrange(i - start + 1, t.len() as int));
                assert(t.subrange(i - start + 1, t.len() as int) =~= s@.subrange(
                    i + 1,
                    len as int,
                ));
                if i > start {
                    if c != ' ' {
                        assert(strs_view(out@) =~~= strs_view(before) + seq![head] + seq![
                            seq![t[i - start]],
                        ]);
                    } else {
                        assert(strs_view(out@) =~~= strs_view(before) + seq![head]);
                    }
                } else {
                    if c != ' ' {
                        assert(strs_view(out@) =~~= strs_view(before) + seq![seq![t[i - start]]]);
                    } else {
                        assert(strs_view(out@) =~~= strs_view(before));
                    }
                }
                assert(strs_view(out@) + spec_split(s@.subrange(i + 1 as int, len as int))
                    =~~= strs_view(before) + spec_split(t));
            }
            start = i + 1;
        }
        i = i + 1;
    }
    let ghost t = s@.subrange(start as int, len as int);
    proof {
        assert(forall|j: int| 0 <= j < t.len() ==> !is_delim(#[trigger] t[j]));
        lemma_first_delim_from(t, len - start);
    }
    if len > start {
        let tail = s.substring_char(start, len);
        let ghost before = out@;
        out.push(tail.to_owned());
        proof {
            assert(tail@ =~= t);
            assert(strs_view(out@) =~~= strs_view(before) + seq![t]);
            assert(strs_view(out@) =~~= strs_view(before) + spec_split(t));
        }
    }
    proof {
        assert(strs_view(out@) =~~= spec_split(s@));
    }
    out
}

/// A decimal digit.
pub open spec fn is_digit(c: char) -> bool {
    '0' <= c && c <= '9'
}

/// The value of a decimal digit.
pub open spec fn digit_val(c: char) -> nat {
    (c as u32 - '0' as u32) as nat
}

/// Every character is a decimal digit.
pub open spec fn all_digits(s: Seq<char>) -> bool {
    forall|i: int| 0 <= i < s.len() ==> is_digit(#[trigger] s[i])
}

/// The number a digit string denotes, most significant digit first.
pub open spec fn digits_val(s: Seq<char>) -> nat
    decreases s.len(),
{
    if s.len() == 0 {
        0
    } else {
        digits_val(s.drop_last()) * 10 + digit_val(s.last())
    }
}

/// The position of the first occurrence of `c`, or the length when absent.
pub open spec fn find_first(s: Seq<char>, c: char) -> int
    decreases s.len(),
{
    if s.len() == 0 {
        0
    } else if s[0] == c {
        0
    } else {
        1 + find_first(s.subrange(1, s.len() as int), c)
    }
}

/// The first occurrence lies within the text, holds `c`, and nothing before
/// it does.
pub proof fn lemma_find_first_bounds(s: Seq<char>, c: char)
    ensures
        0 <= find_first(s, c) <= s.len(),
        find_first(s, c) < s.len() ==> s[find_first(s, c)] == c,
        forall|j: int| 0 <= j < find_first(s, c) ==> s[j] != c,
    decreases s.len(),
{
    if s.len() > 0 && s[0] != c {
        let t = s.subrange(1, s.len() as int);
        lemma_find_first_bounds(t, c);
        assert forall|j: int| 0 <= j < find_first(s, c) implies s[j] != c by {
            if j >= 1 {
                assert(s[j] == t[j - 1]);
            }
        };
    }
}

/// Pins the first occurrence down from a scan's findings.
pub proof fn lemma_find_first_from(s: Seq<char>, c: char, k: int)
    requires
        0 <= k <= s.len(),
        forall|j: int| 0 <= j < k ==> s[j] != c,
        k < s.len() ==> s[k] == c,
    ensures
        find_first(s, c) == k,
    decreases k,
{
    if s.len() > 0 && k > 0 {
        let t = s.subrange(1, s.len() as int);
        assert(forall|j: int| 0 <= j < k - 1 ==> t[j] != c);
        lemma_find_first_from(t, c, k - 1);
    }
}

/// A decimal literal: digits with at most one point among them, and at least
/// one digit.
pub open spec fn is_decimal_lit(s: Seq<char>) -> bool {
    let d = find_first(s, '.');
    if d == s.len() {
        s.len() > 0 && all_digits(s)
    } else {
        let w = s.subrange(0, d);
        let f = s.subrange(d + 1, s.len() as int);
        w.len() + f.len() > 0 && all_digits(w) && all_digits(f)
    }
}

/// The digits of a decimal literal, point removed, with the count of
/// fractional digits.
pub open spec fn decimal_parts(s: Seq<char>) -> (Seq<char>, nat) {
    let d = find_first(s, '.');
    if d == s.len() {
        (s, 0nat)
    } else {
        (s.subrange(0, d) + s.subrange(d + 1, s.len() as int), (s.len() - d - 1) as nat)
    }
}

/// The exact fraction a decimal literal denotes, before any reduction: its
/// digits over ten to the number of fractional digits.
pub open spec fn decimal_fraction(s: Seq<char>) -> (int, int) {
    let (ds, k) = decimal_parts(s);
    (digits_val(ds) as int, vstd::arithmetic::power::pow(10, k))
}

/// A digit string never denotes less than a prefix of it.
proof fn lemma_digits_val_prefix(t: Seq<char>, k: int)
    requires
        0 <= k <= t.len(),
    ensures
        digits_val(t.subrange(0, k)) <= digits_val(t),
    decreases t.len(),
{
    if k == t.len() {
        assert(t.subrange(0, k) =~= t);
    } else {
        let u = t.drop_last();
        assert(t.subrange(0, k) =~= u.subrange(0, k));
        lemma_digits_val_prefix(u, k);
    }
}

/// Appending a digit multiplies the value by ten and adds it.
pub proof fn lemma_digits_val_push(t: Seq<char>, c: char)
    ensures
        digits_val(t.push(c)) == digits_val(t) * 10 + digit_val(c),
{
    assert(t.push(c).drop_last() =~= t);
    assert(t.push(c).last() == c);
}

/// The accumulator stays within the 64-bit bound after one more digit.
proof fn lemma_dec_step_fits(acc: int, d: int)
    requires
        0 <= d <= 9,
        0 <= acc,
        acc <= (0x7fff_ffff_ffff_ffff - d) / 10,
    ensures
        acc * 10 + d <= 0x7fff_ffff_ffff_ffff,
{
    vstd::arithmetic::div_mod::lemma_fundamental_div_mod(0x7fff_ffff_ffff_ffff - d, 10);
    vstd::arithmetic::mul::lemma_mul_inequality(acc, (0x7fff_ffff_ffff_ffff - d) / 10, 10);
}

/// One more digit would push the accumulator past the 64-bit bound.
proof fn lemma_dec_step_over(acc: int, d: int)
    requires
        0 <= d <= 9,
        acc > (0x7fff_ffff_ffff_ffff - d) / 10,
    ensures
        acc * 10 + d > 0x7fff_ffff_ffff_ffff,
{
    vstd::arithmetic::div_mod::lemma_fundamental_div_mod(0x7fff_ffff_ffff_ffff - d, 10);
    vstd::arithmetic::mul::lemma_mul_inequality((0x7fff_ffff_ffff_ffff - d) / 10 + 1, acc, 10);
}

/// Whether the character is a decimal digit.
fn is_digit_char(c: char) -> (r: bool)
    ensures
        r == is_digit(c),
{
    '0' <= c && c <= '9'
}

/// The digits taken after scanning `i` characters, skipping the point.
spec fn taken_digits(s: Seq<char>, dot: int, i: int) -> Seq<char> {
    if i <= dot {
        s.subrange(0, i)
    } else {
        s.subrange(0, dot) + s.subrange(dot + 1, i)
    }
}

/// Parses a decimal literal into the exact unreduced fraction it denotes:
/// its digits over a power of ten.  `None` when the text is no decimal
/// literal, or a part exceeds the 64-bit range.
#[verifier::rlimit(60)]
pub fn parse_decimal(s: &str) -> (r: Option<(i64, i64)>)
    ensures
        match r {
            Some(pq) => is_decimal_lit(s@) && pq.0 as int == decimal_fraction(s@).0 && pq.1 as int
                == decimal_fraction(s@).1,
            None => !is_decimal_lit(s@) || decimal_fraction(s@).0 > 0x7fff_ffff_ffff_ffff
                || decimal_fraction(s@).1 > 0x7fff_ffff_ffff_ffff,
        },
{
    let len = s.unicode_len();
    if len == 0 {
        return None;
    }
    let mut dot: usize = len;
    let mut i: usize = 0;
    while i < len
        invariant
            i <= len,
            len == s@.len(),
            dot == len || (dot < i && s@[dot as int] == '.'),
            forall|j: int| 0 <= j < i && j != dot ==> is_digit(#[trigger] s@[j]) && s@[j] != '.',
        decreases len - i,
    {
        let c = s.get_char(i);
        if c == '.' {
            if dot < len {
                proof {
                    lemma_find_first_from(s@, '.', dot as int);
                    let f = s@.subrange(dot + 1, len as int);
                    assert(f[i - dot - 1] == '.');
                    assert(!is_digit('.'));
                }
                return None;
            }
            dot = i;
        } else if !is_digit_char(c) {
            proof {
                if dot < len {
                    lemma_find_first_from(s@, '.', dot as int);
                    let f = s@.subrange(dot + 1, len as int);
                    assert(f[i - dot - 1] == s@[i as int]);
                } else {
                    lemma_find_first_bounds(s@, '.');
                    let d = find_first(s@, '.');
                    if d < s@.len() && d < i {
                        assert(s@[d] == '.');
                        assert(false);
                    }
                    if d == s@.len() {
                        assert(!all_digits(s@));
                    } else {
                        let w = s@.subrange(0, d);
                        assert(w[i as int] == s@[i as int]);
                        assert(!all_digits(w));
                    }
                }
            }
            return None;
        }
        i = i + 1;
    }
    proof {
        if dot < len {
            lemma_find_first_from(s@, '.', dot as int);
        } else {
            lemma_find_first_from(s@, '.', len as int);
        }
    }
    if dot < len && len == 1 {
        return None;
    }
    proof {
        assert(is_decimal_lit(s@)) by {
            if dot < len {
                let w = s@.subrange(0, dot as int);
                let f = s@.subrange(dot + 1, len as int);
                assert(all_digits(w));
                assert(all_digits(f));
            }
        };
    }
    let ghost ds = decimal_parts(s@).0;
    let mut acc: u64 = 0;
    i = 0;
    proof {
        assert(taken_digits(s@, dot as int, 0) =~= Seq::<char>::empty());
    }
    while i < len
        invariant
            i <= len,
            len == s@.len(),
            dot == len || (dot < len && s@[dot as int] == '.'),
            forall|j: int| 0 <= j < len && j != dot ==> is_digit(#[trigger] s@[j]),
            acc as nat == digits_val(taken_digits(s@, dot as int, i as int)),
            acc <= 0x7fff_ffff_ffff_ffff,
            ds == taken_digits(s@, dot as int, len as int),
            ds == decimal_parts(s@).0,
        decreases len - i,
    {
        let ghost before = taken_digits(s@, dot as int, i as int);
        if i != dot {
            let c = s.get_char(i);
            let d = ((c as u32) - 48) as u64;
            proof {
                assert(is_digit(s@[i as int]));
                assert(d as nat == digit_val(s@[i as int]));
                assert(taken_digits(s@, dot as int, i + 1) =~= before.push(s@[i as int]));
                lemma_digits_val_push(before, s@[i as int]);
            }
            if acc > (0x7fff_ffff_ffff_ffff - d) / 10 {
                proof {
                    lemma_dec_step_over(acc as int, d as int);
                    let full = taken_digits(s@, dot as int, i + 1);
                    assert(full =~= ds.subrange(0, full.len() as int));
                    lemma_digits_val_prefix(ds, full.len() as int);
                }
                return None;
            }
            proof {
                lemma_dec_step_fits(acc as int, d as int);
            }
            acc = acc * 10 + d;
        } else {
            proof {
                assert(taken_digits(s@, dot as int, i + 1) =~= before);
            }
        }
        i = i + 1;
    }
    let k: usize = if dot < len {
        len - dot - 1
    } else {
        0
    };
    proof {
        assert(decimal_parts(s@).1 == k as nat);
    }
    let mut q: u64 = 1;
    let mut j: usize = 0;
    proof {
        reveal(vstd::arithmetic::power::pow);
    }
    while j < k
        invariant
            j <= k,
            q as int == vstd::arithmetic::power::pow(10, j as nat),
            q <= 0x7fff_ffff_ffff_ffff,
            k as nat == decimal_parts(s@).1,
        decreases k - j,
    {
        proof {
            reveal(vstd::arithmetic::power::pow);
            assert(vstd::arithmetic::power::pow(10, (j + 1) as nat) == 10 * vstd::arithmetic::power::pow(
                10,
                j as nat,
            ));
            vstd::arithmetic::div_mod::lemma_fundamental_div_mod(0x7fff_ffff_ffff_ffff, 10);
        }
        if q > 0x7fff_ffff_ffff_ffff / 10 {
            proof {
                vstd::arithmetic::power::lemma_pow_increases(10, (j + 1) as nat, k as nat);
            }
            return None;
        }
        q = q * 10;
        j = j + 1;
    }
    Some((acc as i64, q as i64))
}

/// Lowercase form of one character; only ASCII letters fold.
pub open spec fn lower_char(c: char) -> char {
    if 'A' <= c && c <= 'Z' {
        (((c as u32) + 32) as u8) as char
    } else {
        c
    }
}

/// Lowercase form of a text; only ASCII letters fold.
pub open spec fn lower_seq(s: Seq<char>) -> Seq<char> {
    s.map_values(|c: char| lower_char(c))
}

/// Compares a lexeme against a fixed form, ignoring ASCII case.
fn eq_ci(s: &str, t: &str) -> (r: bool)
    ensures
        r == (lower_seq(s@) == t@),
{
    let n = s.unicode_len();
    let m = t.unicode_len();
    if n != m {
        proof {
            assert(lower_seq(s@).len() == s@.len());
        }
        return false;
    }
    let mut i: usize = 0;
    while i < n
        invariant
            i <= n,
            n == s@.len(),
            n == t@.len(),
            forall|j: int| 0 <= j < i ==> lower_seq(s@)[j] == t@[j],
        decreases n - i,
    {
        let a = s.get_char(i);
        let b = t.get_char(i);
        let la = if 'A' <= a && a <= 'Z' {
            (((a as u32) + 32) as u8) as char
        } else {
            a
        };
        proof {
            assert(lower_seq(s@)[i as int] == lower_char(s@[i as int]));
        }
        if la != b {
            return false;
        }
        i = i + 1;
    }
    proof {
        assert(lower_seq(s@) =~= t@);
    }
    true
}

/// Compares two names, ignoring ASCII case on both sides.
pub fn eq_ci_both(s: &str, t: &str) -> (r: bool)
    ensures
        r == (lower_seq(s@) == lower_seq(t@)),
{
    let n = s.unicode_len();
    let m = t.unicode_len();
    if n != m {
        proof {
            assert(lower_seq(s@).len() == s@.len());
            assert(lower_seq(t@).len() == t@.len());
        }
        return false;
    }
    let mut i: usize = 0;
    while i < n
        invariant
            i <= n,
            n == s@.len(),
            n == t@.len(),
            forall|j: int| 0 <= j < i ==> lower_seq(s@)[j] == lower_seq(t@)[j],
        decreases n - i,
    {
        let a = s.get_char(i);
        let b = t.get_char(i);
        let la = if 'A' <= a && a <= 'Z' {
            (((a as u32) + 32) as u8) as char
        } else {
            a
        };
        let lb = if 'A' <= b && b <= 'Z' {
            (((b as u32) + 32) as u8) as char
        } else {
            b
        };
        proof {
            assert(lower_seq(s@)[i as int] == lower_char(s@[i as int]));
            assert(lower_seq(t@)[i as int] == lower_char(t@[i as int]));
        }
        if la != lb {
            return false;
        }
        i = i + 1;
    }
    proof {
        assert(lower_seq(s@) =~= lower_seq(t@));
    }
    true
}

/// How one lexeme classifies: the fixed operator and parenthesis forms are
/// matched ignoring ASCII case; a decimal literal whose parts fit the 64-bit
/// fields becomes a number, already reduced; anything else names a literal.
pub open spec fn spec_classify(s: Seq<char>) -> TokV {
    let l = lower_seq(s);
    if l == "*"@ {
        TokV::Op(OpType::Mul)
    } else if l == "/"@ {
        TokV::Op(OpType::Div)
    } else if l == "+"@ {
        TokV::Op(OpType::Add)
    } else if l == "-"@ {
        TokV::Op(OpType::Sub)
    } else if l == "^"@ {
        TokV::Op(OpType::Pow)
    } else if l == "sqrt"@ || l == "rt"@ || l == "root"@ {
        TokV::Op(OpType::Root)
    } else if l == "log"@ || l == "lg"@ {
        TokV::Op(OpType::Log)
    } else if l == "("@ {
        TokV::OpenP
    } else if l == ")"@ {
        TokV::CloseP
    } else if l == "%"@ {
        TokV::Op(OpType::Mod)
    } else if l == "="@ {
        TokV::Eq
    } else if is_decimal_lit(s) && decimal_fraction(s).0 <= 0x7fff_ffff_ffff_ffff
        && decimal_fraction(s).1 <= 0x7fff_ffff_ffff_ffff {
        TokV::Number(rat_norm(decimal_fraction(s).0, decimal_fraction(s).1))
    } else {
        TokV::Literal(s)
    }
}

/// Classifies one lexeme; see `spec_classify`.
pub fn _tokenize(x: &str) -> (r: Token)
    ensures
        r@ == spec_classify(x@),
{
    if eq_ci(x, "*") {
        return Token::Op(OpType::Mul);
    }
    if eq_ci(x, "/") {
        return Token::Op(OpType::Div);
    }
    if eq_ci(x, "+") {
        return Token::Op(OpType::Add);
    }
    if eq_ci(x, "-") {
        return Token::Op(OpType::Sub);
    }
    if eq_ci(x, "^") {
        return Token::Op(OpType::Pow);
    }
    if eq_ci(x, "sqrt") || eq_ci(x, "rt") || eq_ci(x, "root") {
        return Token::Op(OpType::Root);
    }
    if eq_ci(x, "log") || eq_ci(x, "lg") {
        return Token::Op(OpType::Log);
    }
    if eq_ci(x, "(") {
        return Token::OpenP;
    }
    if eq_ci(x, ")") {
        return Token::CloseP;
    }
    if eq_ci(x, "%") {
        return Token::Op(OpType::Mod);
    }
    if eq_ci(x, "=") {
        return Token::Eq;
    }
    match parse_decimal(x) {
        Some(pq) => Token::Number(Rational::new(pq.0, pq.1).reduce()),
        None => Token::Literal(x.to_owned()),
    }
}

/// The token stream of a line: split, then each lexeme classified.
pub open spec fn spec_tokenize(s: Seq<char>) -> Seq<TokV> {
    spec_split(s).map_values(|l: Seq<char>| spec_classify(l))
}

/// Tokenizes a line; see `spec_tokenize`.
pub fn tokenize(s: &str) -> (r: Vec<Token>)
    ensures
        r@.map_values(|t: Token| t@) == spec_tokenize(s@),
{
    let parts = split(s);
    let mut out: Vec<Token> = Vec::new();
    let mut i: usize = 0;
    while i < parts.len()
        invariant
            i <= parts@.len(),
            strs_view(parts@) == spec_split(s@),
            out@.len() == i,
            forall|j: int| 0 <= j < i ==> (#[trigger] out@[j])@ == spec_tokenize(s@)[j],
        decreases parts@.len() - i,
    {
        proof {
            assert(parts@[i as int]@ == strs_view(parts@)[i as int]);
        }
        let t = _tokenize(parts[i].as_str());
        out.push(t);
        i = i + 1;
    }
    proof {
        assert(out@.map_values(|t: Token| t@) =~= spec_tokenize(s@));
    }
    out
}

/// Tokenizes a line, pairing each token with its source lexeme for the
/// diagnostic echo.
pub fn dbg_tokenize(s: &str) -> (r: Vec<(String, Token)>)
    ensures
        r@.len() == spec_split(s@).len(),
        forall|i: int|
            0 <= i < r@.len() ==> (#[trigger] r@[i]).0@ == spec_split(s@)[i] && r@[i].1@
                == spec_tokenize(s@)[i],
{
    let parts = split(s);
    let mut out: Vec<(String, Token)> = Vec::new();
    let mut i: usize = 0;
    while i < parts.len()
        invariant
            i <= parts@.len(),
            strs_view(parts@) == spec_split(s@),
            out@.len() == i,
            forall|j: int|
                0 <= j < i ==> (#[trigger] out@[j]).0@ == spec_split(s@)[j] && out@[j].1@
                    == spec_tokenize(s@)[j],
        decreases parts@.len() - i,
    {
        proof {
            assert(parts@[i as int]@ == strs_view(parts@)[i as int]);
        }
        let t = _tokenize(parts[i].as_str());
        let lex = parts[i].clone();
        out.push((lex, t));
        i = i + 1;
    }
    out
}

/// The options the prefix switches on, character by character: `d` the
/// diagnostic echo, `f` decimal display; anything else is ignored.
pub open spec fn spec_toggles(s: Seq<char>) -> TokenizerOptions
    decreases s.len(),
{
    if s.len() == 0 {
        TokenizerOptions { debug: false, as_float: false }
    } else {
        let prev = spec_toggles(s.drop_last());
        TokenizerOptions {
            debug: prev.debug || s.last() == 'd',
            as_float: prev.as_float || s.last() == 'f',
        }
    }
}

/// The remainder and options of a line: everything after the first `#`, with
/// the options the characters before it switch on; a line without `#` passes
/// through with the defaults.
pub open spec fn spec_pre_tokenize(s: Seq<char>) -> (Seq<char>, TokenizerOptions) {
    let h = find_first(s, '#');
    if h == s.len() {
        (s, TokenizerOptions { debug: false, as_float: false })
    } else {
        (s.subrange(h + 1, s.len() as int), spec_toggles(s.subrange(0, h)))
    }
}

/// Strips and applies the option prefix; see `spec_pre_tokenize`.
pub fn pre_tokenize(s: &str) -> (r: (&str, TokenizerOptions))
    ensures
        r.0@ == spec_pre_tokenize(s@).0,
        r.1 == spec_pre_tokenize(s@).1,
{
    let len = s.unicode_len();
    let mut h: usize = 0;
    while h < len && s.get_char(h) != '#'
        invariant
            h <= len,
            len == s@.len(),
            forall|j: int| 0 <= j < h ==> s@[j] != '#',
        decreases len - h,
    {
        h = h + 1;
    }
    proof {
        lemma_find_first_from(s@, '#', h as int);
    }
    if h == len {
        (s, TokenizerOptions::default())
    } else {
        let mut opts = TokenizerOptions::default();
        let mut j: usize = 0;
        proof {
            assert(s@.subrange(0, 0) =~= Seq::<char>::empty());
        }
        while j < h
            invariant
                j <= h,
                h < len,
                len == s@.len(),
                opts == spec_toggles(s@.subrange(0, j as int)),
            decreases h - j,
        {
            let c = s.get_char(j);
            let ghost pre = s@.subrange(0, j as int);
            if c == 'd' {
                opts.debug = true;
            } else if c == 'f' {
                opts.as_float = true;
            }
            proof {
                assert(s@.subrange(0, j + 1).drop_last() =~= pre);
                assert(s@.subrange(0, j + 1).last() == s@[j as int]);
            }
            j = j + 1;
        }
        (s.substring_char(h + 1, len), opts)
    }
}

/// The name of an operator, as the diagnostic echo prints it.
pub open spec fn op_name(o: OpType) -> Seq<char> {
    match o {
        OpType::Mul => "Mul"@,
        OpType::Div => "Div"@,
        OpType::Add => "Add"@,
        OpType::Sub => "Sub"@,
        OpType::Pow => "Pow"@,
        OpType::Root => "Root"@,
        OpType::Log => "Log"@,
        OpType::Mod => "Mod"@,
    }
}

/// The diagnostic form of one token: its variant name, with the number's
/// display form or the literal's name in parentheses.
pub open spec fn tok_dbg(t: TokV) -> Seq<char> {
    match t {
        TokV::Number(x) => "Number("@ + crate::rational::rat_display(x) + ")"@,
        TokV::Op(o) => "Op("@ + op_name(o) + ")"@,
        TokV::OpenP => "OpenP"@,
        TokV::CloseP => "CloseP"@,
        TokV::Literal(s) => "Literal(\""@ + s + "\")"@,
        TokV::Eq => "Eq"@,
        TokV::Invalid => "Invalid"@,
    }
}

/// The operator's name; see `op_name`.
fn op_name_str(o: &OpType) -> (r: &'static str)
    ensures
        r@ == op_name(*o),
{
    match o {
        OpType::Mul => "Mul",
        OpType::Div => "Div",
        OpType::Add => "Add",
        OpType::Sub => "Sub",
        OpType::Pow => "Pow",
        OpType::Root => "Root",
        OpType::Log => "Log",
        OpType::Mod => "Mod",
    }
}

/// Renders one token's diagnostic form; see `tok_dbg`.
pub fn tok_dbg_string(t: &Token) -> (r: String)
    ensures
        r@ == tok_dbg(t@),
{
    match t {
        Token::Number(x) => {
            let mut s = String::from_str("Number(");
            let d = x.to_display();
            s.append(d.as_str());
            s.append(")");
            s
        },
        Token::Op(o) => {
            let mut s = String::from_str("Op(");
            s.append(op_name_str(o));
            s.append(")");
            s
        },
        Token::OpenP => String::from_str("OpenP"),
        Token::CloseP => String::from_str("CloseP"),
        Token::Literal(name) => {
            let mut s = String::from_str("Literal(\"");
            s.append(name.as_str());
            s.append("\")");
            s
        },
        Token::Eq => String::from_str("Eq"),
        Token::Invalid => String::from_str("Invalid"),
    }
}

/// Diagnostic text for token streams: each entry on its own line, every line
/// closed by a carriage return as the raw terminal wants it.
pub trait DbgDisplay {
    /// The text `dbg` renders.
    spec fn dbg_spec(&self) -> Seq<char>;

    /// Renders the diagnostic text.
    fn dbg(&self) -> (r: String)
        ensures
            r@ == self.dbg_spec(),
    ;
}

/// The diagnostic text of a token stream.
pub open spec fn toks_dbg(ts: Seq<TokV>) -> Seq<char>
    decreases ts.len(),
{
    if ts.len() == 0 {
        Seq::empty()
    } else if ts.len() == 1 {
        tok_dbg(ts[0]) + "\r"@
    } else {
        toks_dbg(ts.drop_last()) + "\n"@ + tok_dbg(ts.last()) + "\r"@
    }
}

/// The diagnostic text of a lexeme-token pairing.
pub open spec fn pairs_dbg(ts: Seq<(String, Token)>) -> Seq<char>
    decreases ts.len(),
{
    if ts.len() == 0 {
        Seq::empty()
    } else if ts.len() == 1 {
        ts[0].0@ + " "@ + tok_dbg(ts[0].1@) + "\r"@
    } else {
        pairs_dbg(ts.drop_last()) + "\n"@ + ts.last().0@ + " "@ + tok_dbg(ts.last().1@) + "\r"@
    }
}

impl DbgDisplay for Vec<Token> {
    open spec fn dbg_spec(&self) -> Seq<char> {
        toks_dbg(self@.map_values(|t: Token| t@))
    }

    fn dbg(&self) -> (r: String) {
        let ghost vs = self@.map_values(|t: Token| t@);
        let mut s = String::new();
        let mut i: usize = 0;
        proof {
            assert(vs.subrange(0, 0) =~= Seq::<TokV>::empty());
        }
        while i < self.len()
            invariant
                i <= self@.len(),
                vs == self@.map_values(|t: Token| t@),
                s@ == toks_dbg(vs.subrange(0, i as int)),
            decreases self@.len() - i,
        {
            let ghost pre = vs.subrange(0, i as int);
            if i > 0 {
                s.append("\n");
            }
            let entry = tok_dbg_string(&self[i]);
            s.append(entry.as_str());
            s.append("\r");
            proof {
                assert(vs.subrange(0, i + 1).drop_last() =~= pre);
                assert(vs.subrange(0, i + 1).last() == vs[i as int]);
                assert(s@ =~= toks_dbg(vs.subrange(0, i + 1)));
            }
            i = i + 1;
        }
        proof {
            assert(vs.subrange(0, self@.len() as int) =~= vs);
        }
        s
    }
}

impl DbgDisplay for Vec<(String, Token)> {
    open spec fn dbg_spec(&self) -> Seq<char> {
        pairs_dbg(self@)
    }

    fn dbg(&self) -> (r: String) {
        let mut s = String::new();
        let mut i: usize = 0;
        proof {
            assert(self@.subrange(0, 0) =~= Seq::<(String, Token)>::empty());
        }
        while i < self.len()
            invariant
                i <= self@.len(),
                s@ == pairs_dbg(self@.subrange(0, i as int)),
            decreases self@.len() - i,
        {
            let ghost pre = self@.subrange(0, i as int);
            if i > 0 {
                s.append("\n");
            }
            s.append(self[i].0.as_str());
            s.append(" ");
            let entry = tok_dbg_string(&self[i].1);
            s.append(entry.as_str());
            s.append("\r");
            proof {
                assert(self@.subrange(0, i + 1).drop_last() =~= pre);
                assert(self@.subrange(0, i + 1).last() == self@[i as int]);
                assert(s@ =~= pairs_dbg(self@.subrange(0, i + 1)));
            }
            i = i + 1;
        }
        proof {
            assert(self@.subrange(0, self@.len() as int) =~= self@);
        }
        s
    }
}

} // verus!
