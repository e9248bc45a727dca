//! Laws that span the pipeline: the display of a reduced fraction read back
//! through the tokenizer and builder gives the fraction back, and division by
//! zero only ever surfaces as the display string "undefined".
use vstd::prelude::*;

verus! {

use crate::rational::{
    Rat,
    rat_norm,
    rat_is_reduced,
    rat_div,
    rat_display,
    dec_digits,
    digit_char,
    int_str,
    lemma_norm_fixed_point,
    lemma_norm_canonical,
};
use crate::tokenizer::{
    TokV,
    spec_classify,
    spec_tokenize,
    spec_split,
    is_delim,
    is_digit,
    digit_val,
    digits_val,
    all_digits,
    is_decimal_lit,
    decimal_parts,
    decimal_fraction,
    lower_seq,
    lower_char,
    lemma_first_delim_from,
    lemma_find_first_from,
    lemma_digits_val_push,
};

/// A digit is no delimiter, no point, and its own lowercase form.
proof fn lemma_digit_plain(c: char)
    requires
        is_digit(c),
    ensures
        !is_delim(c),
        c != '.',
        lower_char(c) == c,
{
}

/// The digits printed for a number read back as that number.
pub proof fn lemma_dec_digits_val(n: nat)
    ensures
        dec_digits(n).len() >= 1,
        all_digits(dec_digits(n)),
        digits_val(dec_digits(n)) == n,
    decreases n,
{
    if n < 10 {
        let s = seq![digit_char(n)];
        assert(dec_digits(n) == s);
        assert(s.drop_last() =~= Seq::<char>::empty());
        assert(digits_val(Seq::<char>::empty()) == 0);
        assert(s.last() == digit_char(n));
        assert(digits_val(s) == digit_val(digit_char(n)));
        assert(is_digit(digit_char(n)));
        assert(digit_val(digit_char(n)) == n);
    } else {
        lemma_dec_digits_val(n / 10);
        let t = dec_digits(n / 10);
        let c = digit_char(n % 10);
        assert(dec_digits(n) == t.push(c));
        lemma_digits_val_push(t, c);
        assert(is_digit(c) && digit_val(c) == n % 10);
        vstd::arithmetic::div_mod::lemma_fundamental_div_mod(n as int, 10);
        assert(all_digits(t.push(c))) by {
            assert(forall|i: int|
                0 <= i < t.len() ==> #[trigger] t.push(c)[i] == t[i]);
        };
    }
}

/// Division by zero yields the undefined sentinel, which displays as
/// "undefined"; it is an ordinary value, never a fault.
pub proof fn lemma_div_by_zero_displays_undefined(a: Rat, b: Rat)
    requires
        b.p == 0,
    ensures
        rat_div(a, b).q == 0,
        rat_display(rat_div(a, b)) == "undefined"@,
{
    vstd::arithmetic::mul::lemma_mul_basics(a.q);
    assert(a.q * b.p == 0);
    let n = a.p * b.q;
    lemma_norm_canonical(n, 0);
    let d = rat_norm(n, 0);
    assert(d.q == 0) by {
        if d.q != 0 {
            assert(d.p * 0 == n * d.q);
            vstd::arithmetic::mul::lemma_mul_basics(d.p);
        }
    };
    lemma_norm_fixed_point(d);
}

/// The fraction built from a decimal literal is exact: before reduction its
/// denominator is ten to the number of fractional digits and its numerator is
/// the literal's digits; the reduced form is defined and names the same
/// value.
pub proof fn lemma_decimal_literal_exact(s: Seq<char>)
    requires
        is_decimal_lit(s),
        decimal_fraction(s).0 <= 0x7fff_ffff_ffff_ffff,
        decimal_fraction(s).1 <= 0x7fff_ffff_ffff_ffff,
    ensures
        decimal_fraction(s).1 == vstd::arithmetic::power::pow(10, decimal_parts(s).1),
        rat_norm(decimal_fraction(s).0, decimal_fraction(s).1).q > 0,
        rat_norm(decimal_fraction(s).0, decimal_fraction(s).1).p * decimal_fraction(s).1
            == decimal_fraction(s).0 * rat_norm(decimal_fraction(s).0, decimal_fraction(s).1).q,
{
    let p = decimal_fraction(s).0;
    let q = decimal_fraction(s).1;
    vstd::arithmetic::power::lemma_pow_positive(10, decimal_parts(s).1);
    lemma_norm_canonical(p, q);
    let g = crate::arith::spec_gcd(crate::arith::nabs(p), crate::arith::nabs(q)) as int;
    crate::arith::lemma_gcd_quotients_coprime(crate::arith::nabs(p), crate::arith::nabs(q));
    // The reduced parts fit: dividing magnitudes by the positive gcd cannot
    // grow them.
    vstd::arithmetic::div_mod::lemma_div_nonincreasing(crate::arith::nabs(p) as int, g);
    vstd::arithmetic::div_mod::lemma_div_nonincreasing(crate::arith::nabs(q) as int, g);
    vstd::arithmetic::div_mod::lemma_div_pos_is_pos(crate::arith::nabs(p) as int, g);
    vstd::arithmetic::div_mod::lemma_div_pos_is_pos(crate::arith::nabs(q) as int, g);
    let rr = crate::rational::rat_reduce(p, q);
    assert(rr.p == crate::arith::nabs(p) as int / g || rr.p == -(crate::arith::nabs(p) as int
        / g)) by {
        if p < 0 {
            assert(p == g * (-(crate::arith::nabs(p) as int / g))) by {
                vstd::arithmetic::mul::lemma_mul_unary_negation(
                    g,
                    crate::arith::nabs(p) as int / g,
                );
            };
            vstd::arithmetic::div_mod::lemma_div_multiples_vanish(
                -(crate::arith::nabs(p) as int / g),
                g,
            );
        }
    };
    assert(rr.q > 0) by {
        if crate::arith::nabs(q) as int / g == 0 {
            assert(crate::arith::nabs(q) as int == g * 0);
        }
    };
}

/// Two adjacent operand tokens gain exactly the multiplication an explicit
/// `*` would have put between them, so the spaced and the starred spelling
/// of a product sanitize to the same stream.
pub proof fn lemma_implicit_multiplication(a: TokV, b: TokV)
    requires
        crate::parser::tok_is_operand(a),
        crate::parser::tok_is_operand(b),
        !(a is Invalid),
        !(b is Invalid),
    ensures
        crate::parser::spec_sanitize(seq![a, b]) == crate::parser::spec_sanitize(
            seq![a, TokV::Op(crate::op::OpType::Mul), b],
        ),
        crate::parser::spec_sanitize(seq![a, b]) == Ok::<Seq<TokV>, Seq<char>>(
            seq![a, TokV::Op(crate::op::OpType::Mul), b],
        ),
{
    let spaced = seq![a, b];
    let starred = seq![a, TokV::Op(crate::op::OpType::Mul), b];
    assert(!crate::parser::has_invalid(spaced)) by {
        if crate::parser::has_invalid(spaced) {
            let i = choose|i: int| 0 <= i < spaced.len() && #[trigger] spaced[i] is Invalid;
        }
    };
    assert(!crate::parser::has_invalid(starred)) by {
        if crate::parser::has_invalid(starred) {
            let i = choose|i: int| 0 <= i < starred.len() && #[trigger] starred[i] is Invalid;
        }
    };
    assert(crate::parser::spec_sanitized_upto(spaced, 1) =~= seq![a]);
    assert(crate::parser::spec_sanitized_upto(spaced, 2) =~= starred);
    assert(crate::parser::spec_sanitized_upto(starred, 1) =~= seq![a]);
    assert(crate::parser::spec_sanitized_upto(starred, 2) =~= seq![
        a,
        TokV::Op(crate::op::OpType::Mul),
    ]);
    assert(crate::parser::spec_sanitized_upto(starred, 3) =~= starred);
}

/// A nonempty run of digits is one lexeme.
proof fn lemma_split_digits(s: Seq<char>)
    requires
        s.len() >= 1,
        all_digits(s),
    ensures
        spec_split(s) == seq![s],
{
    assert forall|j: int| 0 <= j < s.len() implies !is_delim(#[trigger] s[j]) by {
        lemma_digit_plain(s[j]);
    };
    lemma_first_delim_from(s, s.len() as int);
}

/// Digits classify as the number they denote, over denominator one.
proof fn lemma_digits_classify(s: Seq<char>)
    requires
        s.len() >= 1,
        all_digits(s),
        digits_val(s) <= 0x7fff_ffff_ffff_ffff,
    ensures
        spec_classify(s) == TokV::Number(rat_norm(digits_val(s) as int, 1)),
{
    let l = lower_seq(s);
    assert(l =~= s) by {
        assert forall|j: int| 0 <= j < s.len() implies lower_seq(s)[j] == s[j] by {
            lemma_digit_plain(s[j]);
        };
    };
    assert(is_digit(s[0]));
    reveal_strlit("*");
    reveal_strlit("/");
    reveal_strlit("+");
    reveal_strlit("-");
    reveal_strlit("^");
    reveal_strlit("sqrt");
    reveal_strlit("rt");
    reveal_strlit("root");
    reveal_strlit("log");
    reveal_strlit("lg");
    reveal_strlit("(");
    reveal_strlit(")");
    reveal_strlit("%");
    reveal_strlit("=");
    assert(l != "*"@ && l != "/"@ && l != "+"@ && l != "-"@ && l != "^"@ && l != "sqrt"@ && l
        != "rt"@ && l != "root"@ && l != "log"@ && l != "lg"@ && l != "("@ && l != ")"@ && l
        != "%"@ && l != "="@) by {
        assert(l[0] == s[0]);
    };
    assert forall|j: int| 0 <= j < s.len() implies s[j] != '.' by {
        lemma_digit_plain(s[j]);
    };
    lemma_find_first_from(s, '.', s.len() as int);
    assert(is_decimal_lit(s));
    assert(decimal_parts(s) == (s, 0nat));
    assert(decimal_fraction(s).0 == digits_val(s) as int);
    assert(decimal_fraction(s).1 == 1) by {
        reveal(vstd::arithmetic::power::pow);
    };
}

/// A fraction in lowest terms with denominator one is its own normal form.
proof fn lemma_whole_is_norm(p: int)
    requires
        crate::rational::i64_fits(p),
    ensures
        rat_is_reduced(Rat { p: p, q: 1 }),
        rat_norm(p, 1) == (Rat { p: p, q: 1 }),
{
    assert(crate::arith::spec_gcd(crate::arith::nabs(p), 1) == 1) by {
        assert(crate::arith::nabs(p) as int % 1int == 0);
        assert(crate::arith::spec_gcd(crate::arith::nabs(p), 1) == crate::arith::spec_gcd(
            1,
            0,
        ));
    };
    lemma_norm_fixed_point(Rat { p: p, q: 1 });
}

/// The display of a reduced, nonnegative fraction, tokenized and parsed
/// again, evaluates to the same fraction, and leaves any variable table
/// unchanged.  (A negative numerator's leading minus splits off as an
/// operator and does not re-parse.)
pub proof fn lemma_display_reparses(r: Rat, tbl: Map<Seq<char>, Rat>)
    requires
        rat_is_reduced(r),
        r.p >= 0,
    ensures
        crate::parser::spec_full_parse(spec_tokenize(rat_display(r)), tbl) == Ok::<
            (Rat, Map<Seq<char>, Rat>),
            (Seq<char>, Map<Seq<char>, Rat>),
        >((r, tbl)),
{
    lemma_norm_fixed_point(r);
    assert(rat_display(r) == if r.q == 1 {
        int_str(r.p)
    } else {
        int_str(r.p) + "/"@ + dec_digits(r.q as nat)
    });
    let a = dec_digits(r.p as nat);
    lemma_dec_digits_val(r.p as nat);
    assert(int_str(r.p) == a);
    if r.q == 1 {
        lemma_split_digits(a);
        let ts = spec_tokenize(a);
        lemma_digits_classify(a);
        lemma_whole_is_norm(r.p);
        assert(ts =~= seq![TokV::Number(r)]);
        assert(crate::parser::spec_sanitize(ts) == Ok::<Seq<TokV>, Seq<char>>(ts));
        assert(!crate::parser::has_invalid(ts)) by {
            if crate::parser::has_invalid(ts) {
                let i = choose|i: int| 0 <= i < ts.len() && #[trigger] ts[i] is Invalid;
            }
        };
        let data = crate::parser::spec_substituted(ts, tbl);
        assert(data =~= ts);
        assert(crate::parser::spec_parse(ts, tbl) == Ok::<
            (crate::op::OpV, Map<Seq<char>, Rat>),
            (Seq<char>, Map<Seq<char>, Rat>),
        >((crate::op::OpV::Number(r), tbl)));
    } else {
        let b = dec_digits(r.q as nat);
        lemma_dec_digits_val(r.q as nat);
        let s = a + "/"@ + b;
        reveal_strlit("/");
        // The slash is the leftmost delimiter, so the text splits into the
        // numerator's digits, the slash, and the denominator's digits.
        assert forall|j: int| 0 <= j < a.len() implies !is_delim(#[trigger] s[j]) by {
            assert(s[j] == a[j]);
            lemma_digit_plain(a[j]);
        };
        assert(s[a.len() as int] == '/');
        lemma_first_delim_from(s, a.len() as int);
        assert(s.subrange(0, a.len() as int) =~= a);
        assert(s.subrange(a.len() as int + 1, s.len() as int) =~= b);
        lemma_split_digits(b);
        assert(spec_split(s) =~~= seq![a, seq!['/'], b]);
        // Each lexeme classifies: two numbers around the division operator.
        lemma_digits_classify(a);
        lemma_digits_classify(b);
        lemma_whole_is_norm(r.p);
        lemma_whole_is_norm(r.q);
        assert(spec_classify(seq!['/']) == TokV::Op(crate::op::OpType::Div)) by {
            reveal_strlit("*");
            let l = lower_seq(seq!['/']);
            assert(l =~= "/"@) by {
                assert(l[0] == lower_char('/'));
            };
            assert(l != "*"@);
        };
        let np = TokV::Number(Rat { p: r.p, q: 1 });
        let nq = TokV::Number(Rat { p: r.q, q: 1 });
        let dv = TokV::Op(crate::op::OpType::Div);
        let ts = spec_tokenize(s);
        assert(ts =~= seq![np, dv, nq]);
        // Sanitizing changes nothing: no two operands stand adjacent.
        assert(!crate::parser::has_invalid(ts)) by {
            if crate::parser::has_invalid(ts) {
                let i = choose|i: int| 0 <= i < ts.len() && #[trigger] ts[i] is Invalid;
            }
        };
        assert(crate::parser::spec_sanitized_upto(ts, 1) =~= seq![np]);
        assert(crate::parser::spec_sanitized_upto(ts, 2) =~= seq![np, dv]);
        assert(crate::parser::spec_sanitized_upto(ts, 3) =~= ts);
        assert(crate::parser::spec_sanitize(ts) == Ok::<Seq<TokV>, Seq<char>>(ts));
        // The builder takes the number, descends on the division, takes the
        // trailing number, and skips it.
        let data = crate::parser::spec_substituted(ts, tbl);
        assert(data =~= ts);
        let zero = crate::op::OpV::Number(Rat { p: 0, q: 1 });
        let tree = crate::op::spec_from_type(
            crate::op::OpType::Div,
            crate::op::OpV::Number(Rat { p: r.p, q: 1 }),
            crate::op::OpV::Number(Rat { p: r.q, q: 1 }),
        );
        assert(r.p != 0) by {
            if r.p == 0 {
                assert(crate::arith::spec_gcd(0, r.q as nat) == crate::arith::spec_gcd(
                    r.q as nat,
                    0,
                )) by {
                    assert(0int % (r.q as int) == 0);
                };
            }
        };
        assert(crate::parser::spec_parse_loop(data, tbl, 0, TokV::Invalid, 0, zero)
            == crate::parser::spec_parse_loop(data, tbl, 1, np, 0, zero));
        assert(crate::parser::spec_parse_loop(data, tbl, 1, np, 0, zero)
            == crate::parser::spec_parse_loop(data, tbl, 2, dv, 1, tree));
        assert(crate::parser::spec_parse_loop(data, tbl, 2, dv, 1, tree)
            == crate::parser::spec_parse_loop(data, tbl, 3, nq, 0, tree));
        assert(crate::parser::spec_parse_loop(data, tbl, 3, nq, 0, tree) == Ok::<
            (crate::op::OpV, Map<Seq<char>, Rat>),
            (Seq<char>, Map<Seq<char>, Rat>),
        >((tree, tbl)));
        // Evaluating divides the two whole numbers back into the fraction.
        vstd::arithmetic::mul::lemma_mul_basics(r.p);
        vstd::arithmetic::mul::lemma_mul_basics(r.q);
        assert(tree == crate::op::OpV::Div(
            Box::new(crate::op::OpV::Number(Rat { p: r.p, q: 1 })),
            Box::new(crate::op::OpV::Number(Rat { p: r.q, q: 1 })),
        ));
        assert(crate::op::eval_op(crate::op::OpV::Number(Rat { p: r.p, q: 1 })) == (Rat {
            p: r.p,
            q: 1,
        }));
        assert(crate::op::eval_op(crate::op::OpV::Number(Rat { p: r.q, q: 1 })) == (Rat {
            p: r.q,
            q: 1,
        }));
        assert(crate::op::eval_op(tree) == rat_div(Rat { p: r.p, q: 1 }, Rat { p: r.q, q: 1 }));
        assert(crate::op::eval_op(tree) == rat_norm(r.p, r.q));
    }
}

} // verus!
