//! Walking a parse tree and accumulating the three coefficients.
//!
//! Every quadratic-tagged node adds its value to `a`, every linear one
//! to `b`, every constant one to `c`; any other node passes the walk on
//! to its children. The accumulation is exact decimal arithmetic, so
//! the result is the precise sum of all term values in the tree.

use vstd::prelude::*;

use crate::grammar::is_num_char;
use crate::grammar::is_sign;
use crate::grammar::is_space;
use crate::grammar::lemma_num_run_end;
use crate::grammar::lemma_space_run_end;
use crate::grammar::matches_term_kind;
use crate::grammar::matches_unsigned_number;
use crate::grammar::num_run_end;
use crate::grammar::signed_core;
use crate::grammar::space_run_end;
use crate::grammar::term_core;
use crate::grammar::term_span;
use crate::grammar::ParseNode;
use crate::grammar::Rule;
use crate::terms::ends_with;
use crate::terms::lemma_strip_spaces_all;
use crate::terms::lemma_strip_spaces_concat;
use crate::terms::lemma_strip_spaces_none;
use crate::terms::parse_const;
use crate::terms::parse_term;
use crate::terms::pow10;
use crate::terms::split_sign;
use crate::terms::strip_spaces;
use crate::terms::strip_unit;
use crate::terms::term_core_text;
use crate::terms::term_value;
use crate::terms::unit_suffix;
use crate::terms::value_fits;
use crate::terms::Decimal;
use crate::terms::ParserError;
use crate::terms::Unit;

verus! {

pub proof fn lemma_pow10_pos(n: nat)
    ensures
        pow10(n) >= 1,
    decreases n,
{
    if n > 0 {
        lemma_pow10_pos((n - 1) as nat);
    }
}

pub proof fn lemma_pow10_adds(a: nat, b: nat)
    ensures
        pow10(a + b) == pow10(a) * pow10(b),
    decreases a,
{
    if a == 0 {
        assert(pow10(b) == 1 * pow10(b));
    } else {
        lemma_pow10_adds((a - 1) as nat, b);
        assert(pow10((a - 1) as nat + b) == pow10((a - 1) as nat) * pow10(b));
        assert(pow10(a + b) == 10 * (pow10((a - 1) as nat) * pow10(b)));
        assert(10 * (pow10((a - 1) as nat) * pow10(b)) == (10 * pow10((a - 1) as nat)) * pow10(b))
            by (nonlinear_arith);
    }
}

/// Scaling by a power of ten never moves a value toward zero.
proof fn lemma_scale_up_away(y: int, t: nat)
    ensures
        y >= 0 ==> y * pow10(t) >= y,
        y < 0 ==> y * pow10(t) <= y,
    decreases t,
{
    if t == 0 {
        assert(y * 1 == y);
    } else {
        lemma_scale_up_away(y, (t - 1) as nat);
        lemma_pow10_pos((t - 1) as nat);
        let z = y * pow10((t - 1) as nat);
        assert(y * pow10(t) == z * 10) by (nonlinear_arith)
            requires
                pow10(t) == 10 * pow10((t - 1) as nat),
                z == y * pow10((t - 1) as nat),
        ;
        if y >= 0 {
            assert(z >= 0) by (nonlinear_arith)
                requires
                    y >= 0,
                    pow10((t - 1) as nat) >= 1,
                    z == y * pow10((t - 1) as nat),
            ;
        }
    }
}

/// The exact decimal view of a `Decimal`.
pub open spec fn dec_v(d: Decimal) -> (int, nat) {
    (d.num as int, d.scale as nat)
}

/// Exact addition of two decimal values: raise both to the larger
/// scale and add the mantissas.
pub open spec fn dec_add_v(a: (int, nat), b: (int, nat)) -> (int, nat) {
    let m = if a.1 >= b.1 {
        a.1
    } else {
        b.1
    };
    (a.0 * pow10((m - a.1) as nat) + b.0 * pow10((m - b.1) as nat), m)
}

/// Exact addition does not depend on the order of its arguments.
pub proof fn lemma_dec_add_comm(a: (int, nat), b: (int, nat))
    ensures
        dec_add_v(a, b) == dec_add_v(b, a),
{
}

/// `dec_add_v` is addition of rationals: cross-multiplied, the sum's
/// mantissa over its scale equals `a.0/10^a.1 + b.0/10^b.1`.
pub proof fn lemma_dec_add_value(a: (int, nat), b: (int, nat))
    ensures
        dec_add_v(a, b).0 * pow10(a.1) * pow10(b.1) == (a.0 * pow10(b.1) + b.0 * pow10(a.1))
            * pow10(dec_add_v(a, b).1),
{
    let m = dec_add_v(a, b).1;
    let da = (m - a.1) as nat;
    let db = (m - b.1) as nat;
    lemma_pow10_adds(da, a.1);
    lemma_pow10_adds(db, b.1);
    assert(pow10(da) * pow10(a.1) == pow10(m));
    assert(pow10(db) * pow10(b.1) == pow10(m));
    let t1 = a.0 * pow10(da);
    let t2 = b.0 * pow10(db);
    assert(t1 * pow10(a.1) * pow10(b.1) == a.0 * pow10(b.1) * pow10(m)) by (nonlinear_arith)
        requires
            t1 == a.0 * pow10(da),
            pow10(da) * pow10(a.1) == pow10(m),
    ;
    assert(t2 * pow10(a.1) * pow10(b.1) == b.0 * pow10(a.1) * pow10(m)) by (nonlinear_arith)
        requires
            t2 == b.0 * pow10(db),
            pow10(db) * pow10(b.1) == pow10(m),
    ;
    assert((t1 + t2) * pow10(a.1) * pow10(b.1) == t1 * pow10(a.1) * pow10(b.1) + t2 * pow10(a.1)
        * pow10(b.1)) by (nonlinear_arith);
    assert((a.0 * pow10(b.1) + b.0 * pow10(a.1)) * pow10(m) == a.0 * pow10(b.1) * pow10(m) + b.0
        * pow10(a.1) * pow10(m)) by (nonlinear_arith);
}

/// Whether the exact sum of two decimal values stays inside the range
/// the executable `Decimal` can hold.
pub open spec fn dec_add_fits(a: (int, nat), b: (int, nat)) -> bool {
    let m = if a.1 >= b.1 {
        a.1
    } else {
        b.1
    };
    let n1 = a.0 * pow10((m - a.1) as nat);
    let n2 = b.0 * pow10((m - b.1) as nat);
    &&& i128::MIN as int <= n1 <= i128::MAX as int
    &&& i128::MIN as int <= n2 <= i128::MAX as int
    &&& i128::MIN as int <= n1 + n2 <= i128::MAX as int
}

/// Multiply `x` by `10^d`, or report that the result leaves the range.
pub(crate) fn scale_up(x: i128, d: u32) -> (r: Option<i128>)
    ensures
        match r {
            Some(v) => v as int == x as int * pow10(d as nat),
            None => x as int * pow10(d as nat) > i128::MAX as int || x as int * pow10(d as nat)
                < i128::MIN as int,
        },
{
    if x == 0 {
        proof {
            lemma_pow10_pos(d as nat);
        }
        return Some(0);
    }
    let mut cur = x;
    let mut j: u32 = 0;
    assert(pow10(0) == 1);
    assert(x as int * pow10(0) == x as int) by (nonlinear_arith)
        requires
            pow10(0) == 1,
    ;
    while j < d
        invariant
            j <= d,
            x != 0,
            cur as int == x as int * pow10(j as nat),
        decreases d - j,
    {
        let next = cur.checked_mul(10);
        proof {
            assert(pow10(j as nat + 1) == 10 * pow10(j as nat));
            assert(x as int * pow10(j as nat + 1) == (x as int * pow10(j as nat)) * 10)
                by (nonlinear_arith)
                requires
                    pow10(j as nat + 1) == 10 * pow10(j as nat),
            ;
        }
        match next {
            Some(v) => {
                cur = v;
            },
            None => {
                // Scaling further only moves the value further out.
                proof {
                    let part = x as int * pow10(j as nat + 1);
                    let restpow = ((d - j) as nat - 1) as nat;
                    lemma_pow10_adds(j as nat + 1, restpow);
                    assert(x as int * pow10(d as nat) == part * pow10(restpow))
                        by (nonlinear_arith)
                        requires
                            pow10(d as nat) == pow10(j as nat + 1) * pow10(restpow),
                            part == x as int * pow10(j as nat + 1),
                    ;
                    lemma_scale_up_away(part, restpow);
                }
                return None;
            },
        }
        j = j + 1;
    }
    Some(cur)
}

/// Exact addition of two decimals, or `None` when the sum leaves the
/// representable range.
pub fn dec_add(a: Decimal, b: Decimal) -> (r: Option<Decimal>)
    ensures
        r is Some <==> dec_add_fits(dec_v(a), dec_v(b)),
        match r {
            Some(d) => dec_v(d) == dec_add_v(dec_v(a), dec_v(b)),
            None => true,
        },
{
    let m = if a.scale >= b.scale {
        a.scale
    } else {
        b.scale
    };
    let n1 = match scale_up(a.num, m - a.scale) {
        Some(v) => v,
        None => {
            return None;
        },
    };
    let n2 = match scale_up(b.num, m - b.scale) {
        Some(v) => v,
        None => {
            return None;
        },
    };
    match n1.checked_add(n2) {
        Some(s) => Some(Decimal { num: s, scale: m }),
        None => None,
    }
}

/// Which unit suffix a term rule carries.
pub open spec fn unit_of(r: Rule) -> Unit {
    match r {
        Rule::quad_term => Unit::Quad,
        Rule::linear_term => Unit::Linear,
        _ => Unit::Bare,
    }
}

/// Why a walk over a parse tree stops early.
pub enum WalkErr {
    /// Some term text has a malformed numeric part.
    Bad,
    /// Some value or partial sum leaves the representable range.
    Big,
}

pub open spec fn triple_v(t: (Decimal, Decimal, Decimal)) -> ((int, nat), (int, nat), (int, nat)) {
    (dec_v(t.0), dec_v(t.1), dec_v(t.2))
}

/// The offending text a failing term node reports: a constant carries
/// its whole cleaned text, sign included; the other kinds carry the
/// numeric remainder left after the sign and the unit suffix.
pub open spec fn node_err_payload(n: ParseNode) -> Seq<u8> {
    if n.rule == Rule::constant_term {
        strip_spaces(n.text@)
    } else {
        term_core_text(n.text@, unit_of(n.rule))
    }
}

/// The exact outcome of walking one node with a running total: the new
/// total, or the first failure with the text it reports. A node that
/// is not itself a term sums its subtree from zero and then merges
/// that sum into the running total, so a failure below leaves the
/// total untouched.
pub open spec fn walk(n: ParseNode, acc: ((int, nat), (int, nat), (int, nat))) -> Result<
    ((int, nat), (int, nat), (int, nat)),
    (WalkErr, Seq<u8>),
>
    decreases n,
{
    if n.rule == Rule::quad_term || n.rule == Rule::linear_term || n.rule == Rule::constant_term {
        match term_value(n.text@, unit_of(n.rule)) {
            Option::None => Result::Err((WalkErr::Bad, node_err_payload(n))),
            Option::Some(v) => {
                if !value_fits(v) {
                    Result::Err((WalkErr::Big, node_err_payload(n)))
                } else {
                    let slot = if n.rule == Rule::quad_term {
                        acc.0
                    } else if n.rule == Rule::linear_term {
                        acc.1
                    } else {
                        acc.2
                    };
                    if !dec_add_fits(slot, v) {
                        Result::Err((WalkErr::Big, n.text@))
                    } else {
                        let ns = dec_add_v(slot, v);
                        if n.rule == Rule::quad_term {
                            Result::Ok((ns, acc.1, acc.2))
                        } else if n.rule == Rule::linear_term {
                            Result::Ok((acc.0, ns, acc.2))
                        } else {
                            Result::Ok((acc.0, acc.1, ns))
                        }
                    }
                }
            },
        }
    } else {
        match walk_seq(n.children@, ((0, 0), (0, 0), (0, 0))) {
            Result::Err(e) => Result::Err(e),
            Result::Ok(sub) => {
                if !dec_add_fits(acc.0, sub.0) {
                    Result::Err((WalkErr::Big, n.text@))
                } else if !dec_add_fits(acc.1, sub.1) {
                    Result::Err((WalkErr::Big, n.text@))
                } else if !dec_add_fits(acc.2, sub.2) {
                    Result::Err((WalkErr::Big, n.text@))
                } else {
                    Result::Ok(
                        (dec_add_v(acc.0, sub.0), dec_add_v(acc.1, sub.1), dec_add_v(acc.2, sub.2)),
                    )
                }
            },
        }
    }
}

/// Walk a row of sibling nodes left to right, threading the total.
pub open spec fn walk_seq(cs: Seq<ParseNode>, acc: ((int, nat), (int, nat), (int, nat))) -> Result<
    ((int, nat), (int, nat), (int, nat)),
    (WalkErr, Seq<u8>),
>
    decreases cs,
{
    if cs.len() == 0 {
        Result::Ok(acc)
    } else {
        match walk(cs[0], acc) {
            Result::Ok(a2) => walk_seq(cs.skip(1), a2),
            Result::Err(e) => Result::Err(e),
        }
    }
}

/// The walk result matches an executable outcome, payload included.
pub open spec fn walk_outcome_ok(
    n: ParseNode,
    acc0: ((int, nat), (int, nat), (int, nat)),
    acc1: ((int, nat), (int, nat), (int, nat)),
    r: Result<(), ParserError>,
) -> bool {
    match r {
        Ok(_) => walk(n, acc0) == Result::<_, (WalkErr, Seq<u8>)>::Ok(acc1),
        Err(ParserError::ParseNumber { input }) => walk(n, acc0) == Result::<
            ((int, nat), (int, nat), (int, nat)),
            (WalkErr, Seq<u8>),
        >::Err((WalkErr::Bad, input@)),
        Err(ParserError::NumberTooLarge { input }) => walk(n, acc0) == Result::<
            ((int, nat), (int, nat), (int, nat)),
            (WalkErr, Seq<u8>),
        >::Err((WalkErr::Big, input@)),
        Err(ParserError::InvalidTermFormat { .. }) => false,
    }
}

/// Add one node's contribution to the running coefficient totals. On
/// an error the totals are left exactly as they were: a subtree is
/// summed on its own and merged only when the whole of it succeeded.
pub fn process_pair(pair: &ParseNode, coeff: &mut (Decimal, Decimal, Decimal)) -> (r: Result<
    (),
    ParserError,
>)
    ensures
        walk_outcome_ok(*pair, triple_v(*old(coeff)), triple_v(*final(coeff)), r),
        r is Err ==> *final(coeff) == *old(coeff),
    decreases *pair,
{
    let is_quad = matches!(pair.rule, Rule::quad_term);
    let is_lin = matches!(pair.rule, Rule::linear_term);
    let is_const = matches!(pair.rule, Rule::constant_term);
    if is_quad || is_lin || is_const {
        let parsed = if is_quad {
            parse_term(pair.text.as_slice(), Unit::Quad)
        } else if is_lin {
            parse_term(pair.text.as_slice(), Unit::Linear)
        } else {
            parse_const(pair.text.as_slice())
        };
        let v = match parsed {
            Ok(v) => v,
            Err(e) => {
                return Err(e);
            },
        };
        let slot = if is_quad {
            coeff.0
        } else if is_lin {
            coeff.1
        } else {
            coeff.2
        };
        match dec_add(slot, v) {
            Some(ns) => {
                if is_quad {
                    coeff.0 = ns;
                } else if is_lin {
                    coeff.1 = ns;
                } else {
                    coeff.2 = ns;
                }
                Ok(())
            },
            None => {
                let t = vstd::slice::slice_to_vec(pair.text.as_slice());
                Err(ParserError::NumberTooLarge { input: t })
            },
        }
    } else {
        // Sum the subtree from zero; the caller's totals stay untouched
        // until the whole subtree has succeeded.
        let mut sub = (
            Decimal { num: 0, scale: 0 },
            Decimal { num: 0, scale: 0 },
            Decimal { num: 0, scale: 0 },
        );
        let ghost zero3: ((int, nat), (int, nat), (int, nat)) = ((0, 0), (0, 0), (0, 0));
        assert(triple_v(sub) == zero3);
        let n = pair.children.len();
        let mut i: usize = 0;
        proof {
            assert(pair.children@.skip(0) =~= pair.children@);
        }
        while i < n
            invariant
                i <= n == pair.children@.len(),
                zero3 == (((0int, 0nat), (0int, 0nat), (0int, 0nat))),
                !(pair.rule == Rule::quad_term || pair.rule == Rule::linear_term || pair.rule
                    == Rule::constant_term),
                *coeff == *old(coeff),
                walk_seq(pair.children@, zero3) == walk_seq(
                    pair.children@.skip(i as int),
                    triple_v(sub),
                ),
            decreases n - i,
        {
            let ghost cs = pair.children@;
            let ghost cur = triple_v(sub);
            proof {
                assert(cs.skip(i as int)[0] == cs[i as int]);
                assert(cs.skip(i as int).skip(1) =~= cs.skip(i as int + 1));
            }
            match process_pair(&pair.children[i], &mut sub) {
                Ok(_) => {
                    proof {
                        assert(walk(cs[i as int], cur) == Result::<_, (WalkErr, Seq<u8>)>::Ok(
                            triple_v(sub),
                        ));
                        assert(walk_seq(cs.skip(i as int), cur) == walk_seq(
                            cs.skip(i as int + 1),
                            triple_v(sub),
                        ));
                    }
                },
                Err(e) => {
                    proof {
                        match &e {
                            ParserError::ParseNumber { input } => {
                                assert(walk_seq(cs.skip(i as int), cur) == Result::<
                                    ((int, nat), (int, nat), (int, nat)),
                                    (WalkErr, Seq<u8>),
                                >::Err((WalkErr::Bad, input@)));
                            },
                            ParserError::NumberTooLarge { input } => {
                                assert(walk_seq(cs.skip(i as int), cur) == Result::<
                                    ((int, nat), (int, nat), (int, nat)),
                                    (WalkErr, Seq<u8>),
                                >::Err((WalkErr::Big, input@)));
                            },
                            ParserError::InvalidTermFormat { .. } => {
                                assert(false);
                            },
                        }
                    }
                    return Err(e);
                },
            }
            i = i + 1;
        }
        proof {
            assert(pair.children@.skip(n as int).len() == 0);
            assert(walk_seq(pair.children@, zero3) == Result::<_, (WalkErr, Seq<u8>)>::Ok(
                triple_v(sub),
            ));
        }
        // Merge the subtree's sums into the caller's totals; assign
        // only once all three additions are known to fit.
        let na = match dec_add(coeff.0, sub.0) {
            Some(v) => v,
            None => {
                let t = vstd::slice::slice_to_vec(pair.text.as_slice());
                return Err(ParserError::NumberTooLarge { input: t });
            },
        };
        let nb = match dec_add(coeff.1, sub.1) {
            Some(v) => v,
            None => {
                let t = vstd::slice::slice_to_vec(pair.text.as_slice());
                return Err(ParserError::NumberTooLarge { input: t });
            },
        };
        let nc = match dec_add(coeff.2, sub.2) {
            Some(v) => v,
            None => {
                let t = vstd::slice::slice_to_vec(pair.text.as_slice());
                return Err(ParserError::NumberTooLarge { input: t });
            },
        };
        coeff.0 = na;
        coeff.1 = nb;
        coeff.2 = nc;
        Ok(())
    }
}

/// The spaces of a scanned run strip to nothing.
proof fn lemma_strip_run(t: Seq<u8>, a: int, b: int)
    requires
        0 <= a <= b <= t.len(),
        forall|x: int| a <= x < b ==> is_space(#[trigger] t[x]),
    ensures
        strip_spaces(t.subrange(a, b)) == Seq::<u8>::empty(),
{
    let sub = t.subrange(a, b);
    assert forall|x: int| 0 <= x < sub.len() implies is_space(#[trigger] sub[x]) by {
        assert(sub[x] == t[a + x]);
    }
    lemma_strip_spaces_all(sub);
}

/// A run without spaces strips to itself.
proof fn lemma_strip_keep(t: Seq<u8>, a: int, b: int)
    requires
        0 <= a <= b <= t.len(),
        forall|x: int| a <= x < b ==> !is_space(#[trigger] t[x]),
    ensures
        strip_spaces(t.subrange(a, b)) == t.subrange(a, b),
{
    let sub = t.subrange(a, b);
    assert forall|x: int| 0 <= x < sub.len() implies !is_space(#[trigger] sub[x]) by {
        assert(sub[x] == t[a + x]);
    }
    lemma_strip_spaces_none(sub);
}

/// Split a strip over a cut point.
proof fn lemma_strip_cut(t: Seq<u8>, a: int, m: int, b: int)
    requires
        0 <= a <= m <= b <= t.len(),
    ensures
        strip_spaces(t.subrange(a, b)) == strip_spaces(t.subrange(a, m)) + strip_spaces(
            t.subrange(m, b),
        ),
{
    assert(t.subrange(a, b) =~= t.subrange(a, m) + t.subrange(m, b));
    lemma_strip_spaces_concat(t.subrange(a, m), t.subrange(m, b));
}

/// The constant-term case of grammar-and-value-parser agreement.
#[verifier::rlimit(100)]
#[verifier::spinoff_prover]
proof fn lemma_term_kind_value_const(t: Seq<u8>, k: Rule)
    requires
        matches_term_kind(t, k),
        k == Rule::constant_term,
    ensures
        term_value(t, unit_of(k)) is Some,
{
    let j = space_run_end(t, 0);
    lemma_space_run_end(t, 0);
    let e = match term_span(t) {
        Some((k2, j2, e)) => e,
        None => 0,
    };
    assert(signed_core(t, j) == Some((k, e)));
    assert(space_run_end(t, e) == t.len());
    let has_sign = j < t.len() && is_sign(t[j]);
    let i0 = if has_sign {
        space_run_end(t, j + 1)
    } else {
        j
    };
    if has_sign {
        lemma_space_run_end(t, j + 1);
    }
    assert(term_core(t, i0) == Some((k, e)));
    let ne = num_run_end(t, i0);
    lemma_num_run_end(t, i0);
    let has_num = ne > i0;
    let p = if has_num {
        space_run_end(t, ne)
    } else {
        i0
    };
    if has_num {
        lemma_space_run_end(t, ne);
    }
    let has_star = has_num && p < t.len() && t[p] == 42;
    let q = if has_star {
        space_run_end(t, p + 1)
    } else {
        p
    };
    if has_star {
        lemma_space_run_end(t, p + 1);
    }
    let unum = t.subrange(i0, ne);
    if has_num {
        assert(matches_unsigned_number(unum));
    }
    // Bounds of the pieces: the constant is the number itself.
    assert(e == ne && has_num && !has_star);
    assert(0 <= e <= t.len());
    lemma_space_run_end(t, e);
    // Assemble the cleaned text from its pieces.
    let w = strip_spaces(t);
    assert(t.subrange(0, t.len() as int) =~= t);
    lemma_strip_cut(t, 0, j, t.len() as int);
    lemma_strip_run(t, 0, j);
    lemma_strip_cut(t, j, e, t.len() as int);
    lemma_strip_run(t, e, t.len() as int);
    assert(w =~= strip_spaces(t.subrange(j, e)));
    let cstrip = strip_spaces(t.subrange(i0, e));
    if has_sign {
        lemma_strip_cut(t, j, j + 1, e);
        assert(t.subrange(j, j + 1) =~= seq![t[j]]);
        lemma_strip_keep(t, j, j + 1);
        lemma_strip_cut(t, j + 1, i0, e);
        lemma_strip_run(t, j + 1, i0);
        assert(w =~= seq![t[j]] + cstrip);
    } else {
        assert(w =~= cstrip);
    }
    // The cleaned core: number, star, and unit, with no spaces left.
    {
        assert forall|x: int| i0 <= x < ne implies !is_space(#[trigger] t[x]) by {
            assert(is_num_char(t[x]));
        }
        lemma_strip_keep(t, i0, ne);
        assert(cstrip == unum);
    }
    // The sign split hands the core on unchanged.
    let body = split_sign(w).1;
    if has_sign {
        assert(w[0] == t[j] && (t[j] == 43 || t[j] == 45));
        assert(body =~= cstrip);
    } else {
        if cstrip.len() > 0 {
            if has_num {
                assert(cstrip[0] == unum[0] && is_num_char(unum[0]));
            } else {
                assert(cstrip[0] == 120);
            }
            assert(!(w[0] == 43 || w[0] == 45));
        }
        assert(body =~= cstrip);
    }
    // Strip the unit and land on the bare number (or on nothing, for a
    // coefficient of one).
    let u = unit_of(k);
    assert(strip_unit(body, u) == body);
    assert(body.len() > 0);
    // A well-formed number remains.
    let core = strip_unit(body, u);
    assert(core =~= unum);
    assert(matches_unsigned_number(core));
    assert(term_value(t, u) is Some);
}

/// The quadratic- and linear-term case of the same agreement.
#[verifier::rlimit(100)]
#[verifier::spinoff_prover]
proof fn lemma_term_kind_value_x(t: Seq<u8>, k: Rule)
    requires
        matches_term_kind(t, k),
        k == Rule::quad_term || k == Rule::linear_term,
    ensures
        term_value(t, unit_of(k)) is Some,
{
    let j = space_run_end(t, 0);
    lemma_space_run_end(t, 0);
    let e = match term_span(t) {
        Some((k2, j2, e)) => e,
        None => 0,
    };
    assert(signed_core(t, j) == Some((k, e)));
    assert(space_run_end(t, e) == t.len());
    let has_sign = j < t.len() && is_sign(t[j]);
    let i0 = if has_sign {
        space_run_end(t, j + 1)
    } else {
        j
    };
    if has_sign {
        lemma_space_run_end(t, j + 1);
    }
    assert(term_core(t, i0) == Some((k, e)));
    let ne = num_run_end(t, i0);
    lemma_num_run_end(t, i0);
    let has_num = ne > i0;
    let p = if has_num {
        space_run_end(t, ne)
    } else {
        i0
    };
    if has_num {
        lemma_space_run_end(t, ne);
    }
    let has_star = has_num && p < t.len() && t[p] == 42;
    let q = if has_star {
        space_run_end(t, p + 1)
    } else {
        p
    };
    if has_star {
        lemma_space_run_end(t, p + 1);
    }
    let unum = t.subrange(i0, ne);
    if has_num {
        assert(matches_unsigned_number(unum));
    }
    // Bounds of the pieces, by the kind of the term.
    assert(q < e <= t.len() && t[q] == 120);
    assert(i0 <= ne <= p <= q);
    if k == Rule::quad_term {
        assert(e == q + 3 && t[q + 1] == 94 && t[q + 2] == 50);
    } else {
        assert(e == q + 1);
    }
    assert(0 <= e <= t.len());
    lemma_space_run_end(t, e);
    // Assemble the cleaned text from its pieces.
    let w = strip_spaces(t);
    assert(t.subrange(0, t.len() as int) =~= t);
    lemma_strip_cut(t, 0, j, t.len() as int);
    lemma_strip_run(t, 0, j);
    lemma_strip_cut(t, j, e, t.len() as int);
    lemma_strip_run(t, e, t.len() as int);
    assert(w =~= strip_spaces(t.subrange(j, e)));
    let cstrip = strip_spaces(t.subrange(i0, e));
    if has_sign {
        lemma_strip_cut(t, j, j + 1, e);
        assert(t.subrange(j, j + 1) =~= seq![t[j]]);
        lemma_strip_keep(t, j, j + 1);
        lemma_strip_cut(t, j + 1, i0, e);
        lemma_strip_run(t, j + 1, i0);
        assert(w =~= seq![t[j]] + cstrip);
    } else {
        assert(w =~= cstrip);
    }
    // The cleaned core: number, star, and unit, with no spaces left.
    let xpart = t.subrange(q, e);
    {
        lemma_strip_cut(t, i0, ne, e);
        assert forall|x: int| i0 <= x < ne implies !is_space(#[trigger] t[x]) by {
            assert(is_num_char(t[x]));
        }
        lemma_strip_keep(t, i0, ne);
        lemma_strip_cut(t, ne, p, e);
        lemma_strip_run(t, ne, p);
        if has_star {
            lemma_strip_cut(t, p, p + 1, e);
            assert(t.subrange(p, p + 1) =~= seq![t[p]]);
            lemma_strip_keep(t, p, p + 1);
            lemma_strip_cut(t, p + 1, q, e);
            lemma_strip_run(t, p + 1, q);
            lemma_strip_keep(t, q, e);
            assert(cstrip =~= unum + (seq![42u8] + xpart));
        } else {
            assert(p == q);
            lemma_strip_keep(t, q, e);
            assert(cstrip =~= unum + xpart);
        }
    }
    // The sign split hands the core on unchanged.
    let body = split_sign(w).1;
    if has_sign {
        assert(w[0] == t[j] && (t[j] == 43 || t[j] == 45));
        assert(body =~= cstrip);
    } else {
        if cstrip.len() > 0 {
            if has_num {
                assert(cstrip[0] == unum[0] && is_num_char(unum[0]));
            } else {
                assert(cstrip[0] == 120);
            }
            assert(!(w[0] == 43 || w[0] == 45));
        }
        assert(body =~= cstrip);
    }
    // Strip the unit and land on the bare number (or on nothing, for a
    // coefficient of one).
    let u = unit_of(k);
    let sfx = unit_suffix(u);
    let star = seq![42u8] + sfx;
    {
        if k == Rule::quad_term {
            assert(xpart =~= seq![120u8, 94u8, 50u8]);
            assert(sfx =~= xpart);
        } else {
            assert(xpart =~= seq![120u8]);
            assert(sfx =~= xpart);
        }
        if has_star {
            assert(body =~= unum + star);
            assert(body.skip(body.len() - star.len()) =~= star);
            assert(ends_with(body, star));
            assert(strip_unit(body, u) =~= unum);
        } else {
            assert(body =~= unum + sfx);
            if ends_with(body, star) {
                crate::terms::lemma_ends_with_index(body, star, 0);
                assert(body[body.len() - star.len()] == 42);
                if has_num {
                    assert(body[body.len() - star.len()] == unum[unum.len() - 1]);
                    assert(is_num_char(unum[unum.len() - 1]));
                } else {
                    assert(body =~= sfx);
                }
                assert(false);
            }
            assert(body.skip(body.len() - sfx.len()) =~= sfx);
            assert(ends_with(body, sfx));
            assert(strip_unit(body, u) =~= unum);
        }
    }
    // Either a bare unit (magnitude one) or a well-formed number.
    let core = strip_unit(body, u);
    if core.len() == 0 {
        assert(unit_suffix(u).len() > 0);
        assert(term_value(t, u) is Some);
    } else {
        assert(core =~= unum);
        assert(matches_unsigned_number(core));
        assert(term_value(t, u) is Some);
    }
}

/// Grammar and value parser agree: the exact text of any term the
/// grammar accepts converts to a value.
pub proof fn lemma_term_kind_value(t: Seq<u8>, k: Rule)
    requires
        matches_term_kind(t, k),
        k == Rule::quad_term || k == Rule::linear_term || k == Rule::constant_term,
    ensures
        term_value(t, unit_of(k)) is Some,
{
    if k == Rule::constant_term {
        lemma_term_kind_value_const(t, k);
    } else {
        lemma_term_kind_value_x(t, k);
    }
}

/// Every term node in the tree carries text that the grammar accepts
/// for its rule tag. Trees built by `Grammar::parse` have this shape.
pub open spec fn tree_terms_ok(n: ParseNode) -> bool
    decreases n,
{
    if n.rule == Rule::quad_term || n.rule == Rule::linear_term || n.rule == Rule::constant_term {
        matches_term_kind(n.text@, n.rule)
    } else {
        forest_terms_ok(n.children@)
    }
}

pub open spec fn forest_terms_ok(cs: Seq<ParseNode>) -> bool
    decreases cs,
{
    if cs.len() == 0 {
        true
    } else {
        tree_terms_ok(cs[0]) && forest_terms_ok(cs.skip(1))
    }
}

/// Numeric-shape consistency: walking a tree whose term texts all come
/// from the grammar never finds a malformed number, whatever the
/// running total is.
pub proof fn lemma_walk_no_malformed(n: ParseNode, acc: ((int, nat), (int, nat), (int, nat)))
    requires
        tree_terms_ok(n),
    ensures
        match walk(n, acc) {
            Result::Err(e) => e.0 != WalkErr::Bad,
            _ => true,
        },
    decreases n,
{
    if n.rule == Rule::quad_term || n.rule == Rule::linear_term || n.rule == Rule::constant_term {
        lemma_term_kind_value(n.text@, n.rule);
    } else {
        lemma_walk_seq_no_malformed(n.children@, ((0, 0), (0, 0), (0, 0)));
    }
}

pub proof fn lemma_walk_seq_no_malformed(
    cs: Seq<ParseNode>,
    acc: ((int, nat), (int, nat), (int, nat)),
)
    requires
        forest_terms_ok(cs),
    ensures
        match walk_seq(cs, acc) {
            Result::Err(e) => e.0 != WalkErr::Bad,
            _ => true,
        },
    decreases cs,
{
    if cs.len() > 0 {
        lemma_walk_no_malformed(cs[0], acc);
        match walk(cs[0], acc) {
            Result::Ok(a2) => {
                lemma_walk_seq_no_malformed(cs.skip(1), a2);
            },
            Result::Err(e) => {},
        }
    }
}

proof fn lemma_forest_terms_all(cs: Seq<ParseNode>)
    requires
        forall|i: int| 0 <= i < cs.len() ==> tree_terms_ok(#[trigger] cs[i]),
    ensures
        forest_terms_ok(cs),
    decreases cs.len(),
{
    if cs.len() > 0 {
        assert(forall|i: int|
            0 <= i < cs.skip(1).len() ==> tree_terms_ok(#[trigger] cs.skip(1)[i]));
        lemma_forest_terms_all(cs.skip(1));
    }
}

/// A parsed equation node is a tree whose term texts the grammar
/// vouches for.
pub proof fn lemma_equation_tree_ok(n: ParseNode)
    requires
        crate::grammar::equation_node_ok(n),
    ensures
        tree_terms_ok(n),
{
    assert forall|i: int| 0 <= i < n.children@.len() implies tree_terms_ok(
        #[trigger] n.children@[i],
    ) by {
        assert(crate::grammar::term_node_ok(n.children@[i]));
    }
    lemma_forest_terms_all(n.children@);
}

/// A parsed file node is such a tree as well.
pub proof fn lemma_file_tree_ok(n: ParseNode)
    requires
        crate::grammar::file_node_ok(n),
    ensures
        tree_terms_ok(n),
{
    assert forall|i: int| 0 <= i < n.children@.len() implies tree_terms_ok(
        #[trigger] n.children@[i],
    ) by {
        assert(crate::grammar::equation_node_ok(n.children@[i]));
        lemma_equation_tree_ok(n.children@[i]);
    }
    lemma_forest_terms_all(n.children@);
}

/// Numeric-shape consistency, end to end: walking a parse tree that
/// `Grammar::parse` built for an equation never finds a malformed
/// number, whatever the running total — the grammar only matches
/// numbers the value parser converts.
pub proof fn lemma_equation_extract_no_malformed(
    n: ParseNode,
    acc: ((int, nat), (int, nat), (int, nat)),
)
    requires
        crate::grammar::equation_node_ok(n),
    ensures
        match walk(n, acc) {
            Result::Err(e) => e.0 != WalkErr::Bad,
            _ => true,
        },
{
    lemma_equation_tree_ok(n);
    lemma_walk_no_malformed(n, acc);
}

/// The same consistency for a whole parsed file.
pub proof fn lemma_file_extract_no_malformed(
    n: ParseNode,
    acc: ((int, nat), (int, nat), (int, nat)),
)
    requires
        crate::grammar::file_node_ok(n),
    ensures
        match walk(n, acc) {
            Result::Err(e) => e.0 != WalkErr::Bad,
            _ => true,
        },
{
    lemma_file_tree_ok(n);
    lemma_walk_no_malformed(n, acc);
}

/// Walk a whole parse tree and hand back the accumulated coefficient
/// triple `(a, b, c)`: the exact sums of the quadratic, linear, and
/// constant term values found anywhere in the tree. On a tree built by
/// the grammar the only possible failure is a value too large to hold.
pub fn extract_coeff(pairs: &ParseNode) -> (r: Result<(Decimal, Decimal, Decimal), ParserError>)
    ensures
        match r {
            Ok(t) => walk(*pairs, ((0, 0), (0, 0), (0, 0))) == Result::<
                _,
                (WalkErr, Seq<u8>),
            >::Ok(triple_v(t)),
            Err(ParserError::ParseNumber { input }) => walk(*pairs, ((0, 0), (0, 0), (0, 0)))
                == Result::<((int, nat), (int, nat), (int, nat)), (WalkErr, Seq<u8>)>::Err(
                (WalkErr::Bad, input@),
            ),
            Err(ParserError::NumberTooLarge { input }) => walk(*pairs, ((0, 0), (0, 0), (0, 0)))
                == Result::<((int, nat), (int, nat), (int, nat)), (WalkErr, Seq<u8>)>::Err(
                (WalkErr::Big, input@),
            ),
            Err(ParserError::InvalidTermFormat { .. }) => false,
        },
        tree_terms_ok(*pairs) ==> !(r matches Err(ParserError::ParseNumber { .. })),
{
    proof {
        if tree_terms_ok(*pairs) {
            lemma_walk_no_malformed(*pairs, ((0, 0), (0, 0), (0, 0)));
        }
    }
    let mut coeff = (
        Decimal { num: 0, scale: 0 },
        Decimal { num: 0, scale: 0 },
        Decimal { num: 0, scale: 0 },
    );
    match process_pair(pairs, &mut coeff) {
        Ok(_) => Ok(coeff),
        Err(e) => Err(e),
    }
}

} // verus!
