//! The expression builder: one forward pass over the token stream, after a
//! sanitizing pass that splices in implicit multiplication, consulting and
//! updating the session's variable table; the resulting tree evaluates to one
//! exact fraction.
use vstd::prelude::*;

verus! {

use crate::op::{
    Op,
    OpType,
    OpV,
    spec_from_type,
    spec_get_y,
    spec_change_y,
    spec_tree_order,
    eval_op,
};
use crate::rational::{Rational, Rat};
use crate::tokenizer::{
    Token,
    TokV,
    TokenType,
    spec_as_op_type,
    spec_as_nr,
    lower_seq,
    eq_ci_both,
};
use vstd::string::StrSliceExecFns;
use vstd::string::StringExecFns;

/// The views of a sequence of tokens.
pub open spec fn toks_view(ts: Seq<Token>) -> Seq<TokV> {
    ts.map_values(|t: Token| t@)
}

/// The session's variable table: names bound to values, matched without
/// regard to ASCII case, the latest binding winning.
pub struct KnownLiterals {
    entries: Vec<(String, Rational)>,
}

/// The mapping a list of bindings denotes: each entry in turn, under its
/// lowercased name.
pub open spec fn entries_map(es: Seq<(String, Rational)>) -> Map<Seq<char>, Rat>
    decreases es.len(),
{
    if es.len() == 0 {
        Map::empty()
    } else {
        entries_map(es.drop_last()).insert(lower_seq(es.last().0@), es.last().1@)
    }
}

impl View for KnownLiterals {
    type V = Map<Seq<char>, Rat>;

    closed spec fn view(&self) -> Map<Seq<char>, Rat> {
        entries_map(self.entries@)
    }
}

/// A latest match at `j` settles the lookup.
proof fn lemma_entries_map_found(es: Seq<(String, Rational)>, key: Seq<char>, j: int)
    requires
        0 <= j < es.len(),
        lower_seq(es[j].0@) == key,
        forall|l: int| j < l < es.len() ==> lower_seq((#[trigger] es[l]).0@) != key,
    ensures
        entries_map(es).contains_key(key),
        entries_map(es)[key] == es[j].1@,
    decreases es.len(),
{
    if j == es.len() - 1 {
    } else {
        let pre = es.drop_last();
        assert(forall|l: int| j < l < pre.len() ==> lower_seq((#[trigger] pre[l]).0@) != key);
        lemma_entries_map_found(pre, key, j);
    }
}

/// No match anywhere means no binding.
proof fn lemma_entries_map_absent(es: Seq<(String, Rational)>, key: Seq<char>)
    requires
        forall|l: int| 0 <= l < es.len() ==> lower_seq((#[trigger] es[l]).0@) != key,
    ensures
        !entries_map(es).contains_key(key),
    decreases es.len(),
{
    if es.len() > 0 {
        lemma_entries_map_absent(es.drop_last(), key);
    }
}

impl KnownLiterals {
    /// An empty table.
    pub fn new() -> (r: Self)
        ensures
            r@ == Map::<Seq<char>, Rat>::empty(),
    {
        KnownLiterals { entries: Vec::new() }
    }

    /// The value bound to the name, matched without regard to ASCII case.
    pub fn get(&self, name: &str) -> (r: Option<Rational>)
        ensures
            match r {
                Some(v) => self@.contains_key(lower_seq(name@)) && v@ == self@[lower_seq(name@)],
                None => !self@.contains_key(lower_seq(name@)),
            },
    {
        let mut i = self.entries.len();
        while i > 0
            invariant
                i <= self.entries@.len(),
                forall|l: int|
                    i <= l < self.entries@.len() ==> lower_seq(
                        (#[trigger] self.entries@[l]).0@,
                    ) != lower_seq(name@),
            decreases i,
        {
            i = i - 1;
            if eq_ci_both(self.entries[i].0.as_str(), name) {
                proof {
                    lemma_entries_map_found(self.entries@, lower_seq(name@), i as int);
                }
                return Some(self.entries[i].1);
            }
        }
        proof {
            lemma_entries_map_absent(self.entries@, lower_seq(name@));
        }
        None
    }

    /// Binds the name to the value, overwriting any earlier binding.
    pub fn insert(&mut self, name: &str, val: Rational)
        ensures
            final(self)@ == old(self)@.insert(lower_seq(name@), val@),
    {
        let ghost before = self.entries@;
        self.entries.push((name.to_owned(), val));
        proof {
            assert(self.entries@.drop_last() =~= before);
        }
    }
}

/// Number and named-literal tokens stand for operands.
pub open spec fn tok_is_operand(t: TokV) -> bool {
    t is Number || t is Literal
}

/// An operator token whose operator precedes its operands.
pub open spec fn tok_forward_op(t: TokV) -> bool {
    match t {
        TokV::Op(o) => o.spec_is_forward(),
        _ => false,
    }
}

/// Whether the stream holds an invalid token anywhere.
pub open spec fn has_invalid(ts: Seq<TokV>) -> bool {
    exists|i: int| 0 <= i < ts.len() && #[trigger] ts[i] is Invalid
}

/// An implicit multiplication belongs before position `i`: two adjacent
/// operand tokens, unless the left one is the operand of a forward operator
/// two positions back.
pub open spec fn needs_mul(ts: Seq<TokV>, i: int) -> bool {
    tok_is_operand(ts[i]) && tok_is_operand(ts[i - 1]) && !(i >= 2 && tok_forward_op(ts[i - 2]))
}

/// The sanitized form of the first `i` tokens.
pub open spec fn spec_sanitized_upto(ts: Seq<TokV>, i: int) -> Seq<TokV>
    decreases i,
{
    if i <= 1 {
        ts.subrange(0, if i < 0 {
            0
        } else {
            i
        })
    } else {
        spec_sanitized_upto(ts, i - 1) + (if needs_mul(ts, i - 1) {
            seq![TokV::Op(OpType::Mul)]
        } else {
            Seq::empty()
        }) + seq![ts[i - 1]]
    }
}

/// The stream with implicit multiplications spliced in.
pub open spec fn spec_sanitized(ts: Seq<TokV>) -> Seq<TokV> {
    spec_sanitized_upto(ts, ts.len() as int)
}

/// What sanitizing yields: streams of at most one token pass through, a
/// stream holding an invalid token is refused, and any other stream gains
/// its implicit multiplications.
pub open spec fn spec_sanitize(ts: Seq<TokV>) -> Result<Seq<TokV>, Seq<char>> {
    if ts.len() <= 1 {
        Ok(ts)
    } else if has_invalid(ts) {
        Err("Stream contains invalid tokens"@)
    } else {
        Ok(spec_sanitized(ts))
    }
}

/// Splices an implicit multiplication between adjacent operand tokens; see
/// `spec_sanitize`.
pub fn sanitase(data: Vec<Token>) -> (r: Result<Vec<Token>, String>)
    ensures
        match r {
            Ok(v) => spec_sanitize(toks_view(data@)) == Ok::<Seq<TokV>, Seq<char>>(
                toks_view(v@),
            ),
            Err(e) => spec_sanitize(toks_view(data@)) == Err::<Seq<TokV>, Seq<char>>(e@),
        },
{
    let ghost ts = toks_view(data@);
    if data.len() <= 1 {
        return Ok(data);
    }
    let mut i: usize = 0;
    while i < data.len()
        invariant
            i <= data@.len(),
            2 <= data@.len(),
            ts == toks_view(data@),
            forall|j: int| 0 <= j < i ==> !(#[trigger] ts[j] is Invalid),
        decreases data@.len() - i,
    {
        if data[i].get_type() == TokenType::Invalid {
            proof {
                assert(ts[i as int] is Invalid);
            }
            return Err(String::from_str("Stream contains invalid tokens"));
        }
        i = i + 1;
    }
    let mut out: Vec<Token> = Vec::new();
    out.push(data[0].clone());
    proof {
        assert(toks_view(out@) =~= spec_sanitized_upto(ts, 1));
    }
    let mut i: usize = 1;
    while i < data.len()
        invariant
            1 <= i <= data@.len(),
            2 <= data@.len(),
            ts == toks_view(data@),
            toks_view(out@) == spec_sanitized_upto(ts, i as int),
        decreases data@.len() - i,
    {
        let ghost before = toks_view(out@);
        let cur = data[i].get_type();
        let prev = data[i - 1].get_type();
        let operand_pair = (cur == TokenType::Number || cur == TokenType::Literal) && (prev
            == TokenType::Number || prev == TokenType::Literal);
        let guarded = if i >= 2 {
            match data[i - 2].as_op_type() {
                Some(o) => o.is_forward(),
                None => false,
            }
        } else {
            false
        };
        if operand_pair && !guarded {
            out.push(Token::Op(OpType::Mul));
        }
        out.push(data[i].clone());
        proof {
            if operand_pair && !guarded {
                assert(toks_view(out@) =~= before + seq![TokV::Op(OpType::Mul)] + seq![
                    ts[i as int],
                ]);
            } else {
                assert(toks_view(out@) =~= before + Seq::empty() + seq![ts[i as int]]);
            }
            assert(toks_view(out@) == spec_sanitized_upto(ts, i + 1));
        }
        i = i + 1;
    }
    Ok(out)
}

/// The message for a stray invalid token.
pub open spec fn msg_invalid() -> Seq<char> {
    "Stream contains invalid tokens"@
}

/// The message for an empty stream.
pub open spec fn msg_empty() -> Seq<char> {
    "Stream empty"@
}

/// The message for a single token with no numeric value.
pub open spec fn msg_failed() -> Seq<char> {
    "Failed to parse stream."@
}

/// The message for a non-numeric token where a number is required.
pub open spec fn msg_number_expected() -> Seq<char> {
    "Number expected."@
}

/// The message for an operator missing its trailing operand.
pub open spec fn msg_expected_at(i: int) -> Seq<char> {
    "Expected token at: "@ + crate::rational::dec_digits(i as nat)
}

/// The message for a literal that can no longer be bound.
pub open spec fn msg_unknown_literal(name: Seq<char>) -> Seq<char> {
    "Unknown literal: \""@ + name + "\""@
}

/// The message for a forward operator that would have to rebind into a
/// tighter tree.
pub open spec fn msg_unsupported() -> Seq<char> {
    "Unsupported operator combination"@
}

/// The trailing operand `off` tokens ahead: its number, or the error the
/// builder reports.
pub open spec fn next_number(data: Seq<TokV>, i: int, off: int) -> Result<Rat, Seq<char>> {
    if i + off >= data.len() {
        Err(msg_expected_at(i + off))
    } else {
        match spec_as_nr(data[i + off]) {
            Some(x) => Ok(x),
            None => Err(msg_number_expected()),
        }
    }
}

/// The builder's single forward pass, from token `i` onward.  `prev` is the
/// token before `i`, `skip` counts tokens already claimed as operands, and
/// `ret` is the tree built so far.  Each step mirrors one decision of the
/// builder: skipped tokens only advance; an operator either takes its
/// trailing operands (forward), or combines the current tree or previous
/// token with the next one, descending into the tree's right child when the
/// new operator binds tighter; a binding sign binds the preceding literal to
/// the following value; a bound literal replaces the tree with its value; an
/// unbound literal at the end is an error.
pub open spec fn spec_parse_loop(
    data: Seq<TokV>,
    tbl: Map<Seq<char>, Rat>,
    i: int,
    prev: TokV,
    skip: int,
    ret: OpV,
) -> Result<(OpV, Map<Seq<char>, Rat>), (Seq<char>, Map<Seq<char>, Rat>)>
    decreases data.len() - i,
{
    if i >= data.len() {
        Ok((ret, tbl))
    } else {
        let t = data[i];
        if skip > 0 {
            spec_parse_loop(data, tbl, i + 1, t, skip - 1, ret)
        } else {
            match t {
                TokV::Op(o) => {
                    let reverse = spec_tree_order(ret) < o.spec_order() && spec_tree_order(ret)
                        != 0;
                    if o.spec_is_forward() {
                        if reverse {
                            Err((msg_unsupported(), tbl))
                        } else if o is Root {
                            match next_number(data, i, 1) {
                                Ok(x) => spec_parse_loop(
                                    data,
                                    tbl,
                                    i + 1,
                                    t,
                                    o.spec_consume_count(),
                                    spec_from_type(o, OpV::Number(x), OpV::Number(Rat { p: 0, q: 1 })),
                                ),
                                Err(e) => Err((e, tbl)),
                            }
                        } else {
                            match next_number(data, i, 1) {
                                Ok(x) => match next_number(data, i, 2) {
                                    Ok(y) => spec_parse_loop(
                                        data,
                                        tbl,
                                        i + 1,
                                        t,
                                        o.spec_consume_count(),
                                        spec_from_type(o, OpV::Number(x), OpV::Number(y)),
                                    ),
                                    Err(e) => Err((e, tbl)),
                                },
                                Err(e) => Err((e, tbl)),
                            }
                        }
                    } else {
                        let prev_opnd: Result<OpV, Seq<char>> = if ret != OpV::Number(
                            Rat { p: 0, q: 1 },
                        ) {
                            Ok(ret)
                        } else {
                            match spec_as_nr(prev) {
                                Some(x) => Ok(OpV::Number(x)),
                                None => Err(msg_number_expected()),
                            }
                        };
                        match prev_opnd {
                            Err(e) => Err((e, tbl)),
                            Ok(pv) => {
                                if reverse {
                                    match spec_get_y(pv) {
                                        Some(y) => match next_number(data, i, 1) {
                                            Ok(x) => spec_parse_loop(
                                                data,
                                                tbl,
                                                i + 1,
                                                t,
                                                o.spec_consume_count() - 1,
                                                spec_change_y(
                                                    pv,
                                                    spec_from_type(o, y, OpV::Number(x)),
                                                ),
                                            ),
                                            Err(e) => Err((e, tbl)),
                                        },
                                        None => spec_parse_loop(
                                            data,
                                            tbl,
                                            i + 1,
                                            t,
                                            o.spec_consume_count() - 1,
                                            ret,
                                        ),
                                    }
                                } else {
                                    match next_number(data, i, 1) {
                                        Ok(x) => spec_parse_loop(
                                            data,
                                            tbl,
                                            i + 1,
                                            t,
                                            o.spec_consume_count() - 1,
                                            spec_from_type(o, pv, OpV::Number(x)),
                                        ),
                                        Err(e) => Err((e, tbl)),
                                    }
                                }
                            },
                        }
                    }
                },
                TokV::Eq => match prev {
                    TokV::Literal(pname) => {
                        if i + 1 >= data.len() {
                            Err((msg_expected_at(i + 1), tbl))
                        } else {
                            match data[i + 1] {
                                TokV::Literal(l2) => {
                                    if tbl.contains_key(lower_seq(l2)) {
                                        spec_parse_loop(
                                            data,
                                            tbl.insert(lower_seq(pname), tbl[lower_seq(l2)]),
                                            i + 1,
                                            t,
                                            0,
                                            OpV::Number(tbl[lower_seq(l2)]),
                                        )
                                    } else {
                                        spec_parse_loop(data, tbl, i + 1, t, 0, ret)
                                    }
                                },
                                TokV::Number(x) => spec_parse_loop(
                                    data,
                                    tbl.insert(lower_seq(pname), x),
                                    i + 1,
                                    t,
                                    0,
                                    OpV::Number(x),
                                ),
                                _ => spec_parse_loop(data, tbl, i + 1, t, 0, ret),
                            }
                        }
                    },
                    _ => spec_parse_loop(data, tbl, i + 1, t, 0, ret),
                },
                TokV::Literal(name) => {
                    if tbl.contains_key(lower_seq(name)) {
                        spec_parse_loop(
                            data,
                            tbl,
                            i + 1,
                            TokV::Number(tbl[lower_seq(name)]),
                            0,
                            OpV::Number(tbl[lower_seq(name)]),
                        )
                    } else if i + 1 > data.len() - 1 {
                        Err((msg_unknown_literal(name), tbl))
                    } else {
                        spec_parse_loop(data, tbl, i + 1, t, 0, ret)
                    }
                },
                _ => spec_parse_loop(data, tbl, i + 1, t, 0, ret),
            }
        }
    }
}

/// Every literal bound in the table, replaced by its value up front.
pub open spec fn spec_substituted(ts: Seq<TokV>, tbl: Map<Seq<char>, Rat>) -> Seq<TokV> {
    ts.map_values(
        |t: TokV|
            match t {
                TokV::Literal(name) => if tbl.contains_key(lower_seq(name)) {
                    TokV::Number(tbl[lower_seq(name)])
                } else {
                    t
                },
                _ => t,
            },
    )
}

/// What building yields: invalid tokens are refused; after proactive
/// substitution, an empty stream and a lone non-number fail, a lone number is
/// its own tree, and any longer stream runs through the forward pass.
pub open spec fn spec_parse(ts: Seq<TokV>, tbl: Map<Seq<char>, Rat>) -> Result<
    (OpV, Map<Seq<char>, Rat>),
    (Seq<char>, Map<Seq<char>, Rat>),
> {
    if has_invalid(ts) {
        Err((msg_invalid(), tbl))
    } else {
        let data = spec_substituted(ts, tbl);
        if data.len() == 0 {
            Err((msg_empty(), tbl))
        } else if data.len() == 1 {
            match data[0] {
                TokV::Number(x) => Ok((OpV::Number(x), tbl)),
                TokV::Literal(name) => Err((msg_unknown_literal(name), tbl)),
                _ => Err((msg_failed(), tbl)),
            }
        } else {
            spec_parse_loop(data, tbl, 0, TokV::Invalid, 0, OpV::Number(Rat { p: 0, q: 1 }))
        }
    }
}

/// The trailing operand `off` tokens ahead; see `next_number`.
fn next_number_exec(data: &Vec<Token>, i: usize, off: usize) -> (r: Result<Rational, String>)
    requires
        i < data@.len(),
        off <= 2,
    ensures
        match r {
            Ok(x) => next_number(toks_view(data@), i as int, off as int) == Ok::<Rat, Seq<char>>(
                x@,
            ),
            Err(e) => next_number(toks_view(data@), i as int, off as int) == Err::<
                Rat,
                Seq<char>,
            >(e@),
        },
{
    if off >= data.len() - i {
        let mut m = String::from_str("Expected token at: ");
        let d = crate::rational::dec_string((i as u128) + (off as u128));
        m.append(d.as_str());
        Err(m)
    } else {
        proof {
            assert(toks_view(data@)[i + off] == data@[i + off]@);
        }
        match data[i + off].as_nr() {
            Some(x) => Ok(x),
            None => Err(String::from_str("Number expected.")),
        }
    }
}

/// Builds the expression tree in one forward pass; see `spec_parse`.
pub fn parse_to_operations(data: Vec<Token>, known_literals: &mut KnownLiterals) -> (r: Result<
    Op,
    String,
>)
    ensures
        match r {
            Ok(op) => spec_parse(toks_view(data@), old(known_literals)@) == Ok::<
                (OpV, Map<Seq<char>, Rat>),
                (Seq<char>, Map<Seq<char>, Rat>),
            >((op@, final(known_literals)@)),
            Err(e) => spec_parse(toks_view(data@), old(known_literals)@) == Err::<
                (OpV, Map<Seq<char>, Rat>),
                (Seq<char>, Map<Seq<char>, Rat>),
            >((e@, final(known_literals)@)),
        },
{
    let ghost ts = toks_view(data@);
    let ghost tbl0 = known_literals@;
    let mut i: usize = 0;
    while i < data.len()
        invariant
            i <= data@.len(),
            ts == toks_view(data@),
            tbl0 == known_literals@,
            forall|j: int| 0 <= j < i ==> !(#[trigger] ts[j] is Invalid),
        decreases data@.len() - i,
    {
        if data[i].get_type() == TokenType::Invalid {
            proof {
                assert(ts[i as int] is Invalid);
            }
            return Err(String::from_str("Stream contains invalid tokens"));
        }
        i = i + 1;
    }
    let mut sub: Vec<Token> = Vec::new();
    let mut i: usize = 0;
    while i < data.len()
        invariant
            i <= data@.len(),
            sub@.len() == i,
            ts == toks_view(data@),
            tbl0 == known_literals@,
            forall|j: int|
                0 <= j < i ==> (#[trigger] sub@[j])@ == spec_substituted(ts, tbl0)[j],
        decreases data@.len() - i,
    {
        proof {
            assert(ts[i as int] == data@[i as int]@);
        }
        let t = match &data[i] {
            Token::Literal(name) => match known_literals.get(name.as_str()) {
                Some(v) => Token::Number(v),
                None => data[i].clone(),
            },
            _ => data[i].clone(),
        };
        sub.push(t);
        i = i + 1;
    }
    let ghost subv = spec_substituted(ts, tbl0);
    proof {
        assert(toks_view(sub@) =~= subv);
    }
    if sub.len() == 0 {
        return Err(String::from_str("Stream empty"));
    }
    if sub.len() == 1 {
        proof {
            assert(subv[0] == sub@[0]@);
        }
        match &sub[0] {
            Token::Number(x) => {
                return Ok(Op::Number(*x));
            },
            Token::Literal(name) => {
                let mut m = String::from_str("Unknown literal: \"");
                m.append(name.as_str());
                m.append("\"");
                return Err(m);
            },
            _ => {
                return Err(String::from_str("Failed to parse stream."));
            },
        }
    }
    let ghost goal = spec_parse_loop(subv, tbl0, 0, TokV::Invalid, 0, OpV::Number(Rat { p: 0, q: 1 }));
    let mut prev_token = Token::Invalid;
    let mut skip: usize = 0;
    let mut ret = Op::Number(Rational::zero());
    let mut i: usize = 0;
    while i < sub.len()
        invariant
            i <= sub@.len(),
            2 <= sub@.len(),
            subv == toks_view(sub@),
            goal == spec_parse_loop(
                subv,
                known_literals@,
                i as int,
                prev_token@,
                skip as int,
                ret@,
            ),
            goal == spec_parse(ts, tbl0),
            ts == toks_view(data@),
            tbl0 == old(known_literals)@,
            skip <= 2,
        decreases sub@.len() - i,
    {
        proof {
            assert(subv[i as int] == sub@[i as int]@);
        }
        if skip > 0 {
            skip = skip - 1;
            prev_token = sub[i].clone();
        } else if let Some(op_type) = sub[i].as_op_type() {
            let reverse = ret.get_order() < op_type.get_order() && ret.get_order() != 0;
            if op_type.is_forward() {
                if reverse {
                    return Err(String::from_str("Unsupported operator combination"));
                }
                if matches!(op_type, OpType::Root) {
                    match next_number_exec(&sub, i, 1) {
                        Ok(x) => {
                            ret = Op::from_type(op_type, Some(Box::new(Op::Number(x))), None);
                            skip = 1;
                        },
                        Err(e) => {
                            return Err(e);
                        },
                    }
                } else {
                    match next_number_exec(&sub, i, 1) {
                        Ok(x) => match next_number_exec(&sub, i, 2) {
                            Ok(y) => {
                                ret = Op::from_type(
                                    op_type,
                                    Some(Box::new(Op::Number(x))),
                                    Some(Box::new(Op::Number(y))),
                                );
                                skip = 2;
                            },
                            Err(e) => {
                                return Err(e);
                            },
                        },
                        Err(e) => {
                            return Err(e);
                        },
                    }
                }
            } else {
                let prev_opnd: Op = if !ret.is_zero_number() {
                    ret.clone()
                } else {
                    match prev_token.as_nr() {
                        Some(x) => Op::Number(x),
                        None => {
                            return Err(String::from_str("Number expected."));
                        },
                    }
                };
                if reverse {
                    match prev_opnd.get_y() {
                        Some(y) => match next_number_exec(&sub, i, 1) {
                            Ok(x) => {
                                let mut nt = prev_opnd;
                                nt.change_y(
                                    Box::new(
                                        Op::from_type(op_type, Some(y), Some(Box::new(Op::Number(x)))),
                                    ),
                                );
                                ret = nt;
                                skip = 1;
                            },
                            Err(e) => {
                                return Err(e);
                            },
                        },
                        None => {
                            skip = 1;
                        },
                    }
                } else {
                    match next_number_exec(&sub, i, 1) {
                        Ok(x) => {
                            ret = Op::from_type(
                                op_type,
                                Some(Box::new(prev_opnd)),
                                Some(Box::new(Op::Number(x))),
                            );
                            skip = 1;
                        },
                        Err(e) => {
                            return Err(e);
                        },
                    }
                }
            }
            prev_token = sub[i].clone();
        } else if sub[i].get_type() == TokenType::Eq {
            let pname_opt: Option<String> = match &prev_token {
                Token::Literal(s) => Some(s.clone()),
                _ => None,
            };
            if let Some(pname) = pname_opt {
                if i + 1 >= sub.len() {
                    let mut m = String::from_str("Expected token at: ");
                    let d = crate::rational::dec_string((i as u128) + 1);
                    m.append(d.as_str());
                    return Err(m);
                }
                proof {
                    assert(subv[i + 1] == sub@[i + 1]@);
                }
                match &sub[i + 1] {
                    Token::Literal(l2) => {
                        match known_literals.get(l2.as_str()) {
                            Some(v) => {
                                ret = Op::Number(v);
                                known_literals.insert(pname.as_str(), v);
                            },
                            None => {},
                        }
                    },
                    Token::Number(x) => {
                        ret = Op::Number(*x);
                        known_literals.insert(pname.as_str(), *x);
                    },
                    _ => {},
                }
            }
            prev_token = sub[i].clone();
        } else {
            let lit_opt: Option<String> = match &sub[i] {
                Token::Literal(s) => Some(s.clone()),
                _ => None,
            };
            if let Some(lit) = lit_opt {
                match known_literals.get(lit.as_str()) {
                    Some(v) => {
                        prev_token = Token::Number(v);
                        ret = Op::Number(v);
                    },
                    None => {
                        if i + 1 > sub.len() - 1 {
                            let mut m = String::from_str("Unknown literal: \"");
                            m.append(lit.as_str());
                            m.append("\"");
                            return Err(m);
                        }
                        prev_token = sub[i].clone();
                    },
                }
            } else {
                prev_token = sub[i].clone();
            }
        }
        i = i + 1;
    }
    Ok(ret)
}

/// What a full parse yields: the stream sanitized, built and evaluated, with
/// the table as the builder leaves it; errors also carry the table, which
/// keeps any binding made before the failure.
pub open spec fn spec_full_parse(ts: Seq<TokV>, tbl: Map<Seq<char>, Rat>) -> Result<
    (Rat, Map<Seq<char>, Rat>),
    (Seq<char>, Map<Seq<char>, Rat>),
> {
    match spec_sanitize(ts) {
        Ok(clean) => match spec_parse(clean, tbl) {
            Ok(p) => Ok((eval_op(p.0), p.1)),
            Err(e) => Err(e),
        },
        Err(e) => Err((e, tbl)),
    }
}

/// Token streams that parse and evaluate to one exact fraction.
pub trait Parse {
    /// The tokens the stream carries.
    spec fn parse_tokens(&self) -> Seq<TokV>;

    /// Sanitizes, builds and evaluates the stream; see `spec_full_parse`.
    fn parse(self, known_literals: &mut KnownLiterals) -> (r: Result<Rational, String>) where
        Self: Sized
        ensures
            match r {
                Ok(v) => spec_full_parse(self.parse_tokens(), old(known_literals)@) == Ok::<
                    (Rat, Map<Seq<char>, Rat>),
                    (Seq<char>, Map<Seq<char>, Rat>),
                >((v@, final(known_literals)@)),
                Err(e) => spec_full_parse(self.parse_tokens(), old(known_literals)@) == Err::<
                    (Rat, Map<Seq<char>, Rat>),
                    (Seq<char>, Map<Seq<char>, Rat>),
                >((e@, final(known_literals)@)),
            },
    ;
}

impl Parse for Vec<Token> {
    open spec fn parse_tokens(&self) -> Seq<TokV> {
        toks_view(self@)
    }

    fn parse(self, known_literals: &mut KnownLiterals) -> (r: Result<Rational, String>) {
        match sanitase(self) {
            Ok(clean) => match parse_to_operations(clean, known_literals) {
                Ok(tree) => Ok(tree.apply()),
                Err(e) => Err(e),
            },
            Err(e) => Err(e),
        }
    }
}

impl Parse for Vec<(String, Token)> {
    open spec fn parse_tokens(&self) -> Seq<TokV> {
        self@.map_values(|p: (String, Token)| p.1@)
    }

    fn parse(self, known_literals: &mut KnownLiterals) -> (r: Result<Rational, String>) {
        let mut toks: Vec<Token> = Vec::new();
        let mut i: usize = 0;
        while i < self.len()
            invariant
                i <= self@.len(),
                toks@.len() == i,
                forall|j: int| 0 <= j < i ==> (#[trigger] toks@[j])@ == self@[j].1@,
            decreases self@.len() - i,
        {
            toks.push(self[i].1.clone());
            i = i + 1;
        }
        proof {
            assert(toks_view(toks@) =~= self@.map_values(|p: (String, Token)| p.1@));
        }
        match sanitase(toks) {
            Ok(clean) => match parse_to_operations(clean, known_literals) {
                Ok(tree) => Ok(tree.apply()),
                Err(e) => Err(e),
            },
            Err(e) => Err(e),
        }
    }
}

} // verus!
