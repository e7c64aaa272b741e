//! Turning the matched text of one term into its exact signed value.
//!
//! A term value is a decimal `num / 10^scale`, held exactly. The
//! conversion mirrors the shape the grammar accepts: spaces are
//! dropped, one leading sign is read, the unit (`*x^2`, `x^2`, `*x`,
//! `x`) is stripped, and the remaining digits become the mantissa. A
//! term that is nothing but a sign and its unit has magnitude one.

use vstd::prelude::*;

use crate::grammar::check_unsigned_number;
use crate::grammar::is_digit;
use crate::grammar::is_num_char;
use crate::grammar::is_space;
use crate::grammar::matches_unsigned_number;

verus! {

/// The unit suffix a term carries: `x^2`, `x`, or none for constants.
#[derive(Clone, Copy, Debug, PartialEq, Eq, Structural)]
pub enum Unit {
    Quad,
    Linear,
    Bare,
}

/// An exact decimal value `num / 10^scale`.
#[derive(Clone, Copy, Debug, PartialEq, Eq, Structural)]
pub struct Decimal {
    pub num: i128,
    pub scale: u32,
}

/// A term whose text cannot be converted to a value.
#[derive(Debug)]
pub enum ParserError {
    /// The numeric part of the text is not a plain decimal number.
    ParseNumber { input: Vec<u8> },
    /// The number is well formed but too large to hold exactly.
    NumberTooLarge { input: Vec<u8> },
    /// A term shape the extractor does not recognize.
    InvalidTermFormat { term: Vec<u8> },
}

pub open spec fn pow10(n: nat) -> nat
    decreases n,
{
    if n == 0 {
        1
    } else {
        10 * pow10((n - 1) as nat)
    }
}

/// `s` with every space removed.
pub open spec fn strip_spaces(s: Seq<u8>) -> Seq<u8>
    decreases s.len(),
{
    if s.len() == 0 {
        Seq::empty()
    } else if is_space(s[0]) {
        strip_spaces(s.skip(1))
    } else {
        seq![s[0]] + strip_spaces(s.skip(1))
    }
}

/// `s` with every dot removed.
pub open spec fn strip_dot(s: Seq<u8>) -> Seq<u8>
    decreases s.len(),
{
    if s.len() == 0 {
        Seq::empty()
    } else if s[0] == 46 {
        strip_dot(s.skip(1))
    } else {
        seq![s[0]] + strip_dot(s.skip(1))
    }
}

/// The natural number written by a sequence of digit characters.
pub open spec fn digits_to_nat(d: Seq<u8>) -> nat
    decreases d.len(),
{
    if d.len() == 0 {
        0
    } else {
        digits_to_nat(d.drop_last()) * 10 + (if is_digit(d.last()) {
            (d.last() - 48) as nat
        } else {
            0
        })
    }
}

/// How many digits stand after the first dot of `u`; zero with no dot.
pub open spec fn scale_of(u: Seq<u8>) -> nat
    decreases u.len(),
{
    if u.len() == 0 {
        0
    } else if u[0] == 46 {
        (u.len() - 1) as nat
    } else {
        scale_of(u.skip(1))
    }
}

/// The mantissa of an unsigned number: its digits with the dot dropped.
pub open spec fn unum_mant(u: Seq<u8>) -> nat {
    digits_to_nat(strip_dot(u))
}

/// Split one optional leading sign off `u`: the sign as `1` or `-1`,
/// and the rest.
pub open spec fn split_sign(u: Seq<u8>) -> (int, Seq<u8>) {
    if u.len() > 0 && u[0] == 43 {
        (1, u.skip(1))
    } else if u.len() > 0 && u[0] == 45 {
        (-1, u.skip(1))
    } else {
        (1, u)
    }
}

pub open spec fn unit_suffix(u: Unit) -> Seq<u8> {
    match u {
        Unit::Quad => seq![120u8, 94u8, 50u8],
        Unit::Linear => seq![120u8],
        Unit::Bare => Seq::empty(),
    }
}

pub open spec fn ends_with(s: Seq<u8>, t: Seq<u8>) -> bool {
    s.len() >= t.len() && s.skip(s.len() - t.len()) == t
}

/// Strip the unit from the end of a term body: first the starred form,
/// then the bare form, else leave the body unchanged.
pub open spec fn strip_unit(body: Seq<u8>, u: Unit) -> Seq<u8> {
    let sfx = unit_suffix(u);
    let star = seq![42u8] + sfx;
    if sfx.len() > 0 && ends_with(body, star) {
        body.take(body.len() - star.len())
    } else if sfx.len() > 0 && ends_with(body, sfx) {
        body.take(body.len() - sfx.len())
    } else {
        body
    }
}

/// The exact value of a term's text: its signed mantissa and scale, or
/// `None` when the numeric part is not a plain decimal number.
pub open spec fn term_value(t: Seq<u8>, u: Unit) -> Option<(int, nat)> {
    let w = strip_spaces(t);
    let sg = split_sign(w).0;
    let body = split_sign(w).1;
    let core = strip_unit(body, u);
    if core.len() == 0 {
        if unit_suffix(u).len() > 0 {
            Some((sg, 0))
        } else {
            None
        }
    } else if matches_unsigned_number(core) {
        Some((sg * unum_mant(core), scale_of(core)))
    } else {
        None
    }
}

/// A value that the executable `Decimal` can hold.
pub open spec fn value_fits(v: (int, nat)) -> bool {
    &&& -(i128::MAX as int) <= v.0 <= i128::MAX as int
    &&& v.1 <= u32::MAX as nat
}

/// A digit string never shrinks in value when more characters follow.
proof fn lemma_digits_prefix_le(a: Seq<u8>, b: Seq<u8>)
    ensures
        digits_to_nat(a) <= digits_to_nat(a + b),
    decreases b.len(),
{
    if b.len() == 0 {
        assert(a + b =~= a);
    } else {
        lemma_digits_prefix_le(a, b.drop_last());
        assert((a + b).drop_last() =~= a + b.drop_last());
        assert(digits_to_nat(a + b) >= digits_to_nat((a + b).drop_last()));
    }
}

/// `scale_of` counts the characters after the first dot.
proof fn lemma_scale_of_pos(core: Seq<u8>, p: int)
    requires
        0 <= p < core.len(),
        core[p] == 46,
        forall|k: int| 0 <= k < p ==> core[k] != 46,
    ensures
        scale_of(core) == core.len() - 1 - p,
    decreases p,
{
    if p > 0 {
        lemma_scale_of_pos(core.skip(1), p - 1);
    }
}

/// Without a dot the scale is zero.
proof fn lemma_scale_of_none(core: Seq<u8>)
    requires
        forall|k: int| 0 <= k < core.len() ==> core[k] != 46,
    ensures
        scale_of(core) == 0,
    decreases core.len(),
{
    if core.len() > 0 {
        lemma_scale_of_none(core.skip(1));
    }
}

fn remove_spaces(s: &[u8]) -> (r: Vec<u8>)
    ensures
        r@ == strip_spaces(s@),
{
    let mut out: Vec<u8> = Vec::new();
    let mut i: usize = 0;
    proof {
        assert(s@.skip(0) =~= s@);
    }
    while i < s.len()
        invariant
            i <= s@.len(),
            strip_spaces(s@) == out@ + strip_spaces(s@.skip(i as int)),
        decreases s@.len() - i,
    {
        proof {
            assert(s@.skip(i as int).skip(1) =~= s@.skip(i as int + 1));
        }
        let ghost rest = s@.skip(i as int);
        let c = s[i];
        assert(rest[0] == c);
        if c != 32 {
            let ghost old_out = out@;
            out.push(c);
            proof {
                assert(strip_spaces(rest) == seq![c] + strip_spaces(s@.skip(i as int + 1)));
                assert(old_out + strip_spaces(rest) =~= out@ + strip_spaces(s@.skip(i as int + 1)));
            }
        }
        i = i + 1;
    }
    proof {
        assert(strip_spaces(s@.skip(s@.len() as int)) =~= Seq::<u8>::empty());
        assert(out@ + Seq::<u8>::empty() =~= out@);
    }
    out
}

/// Indexing into a matched tail.
pub proof fn lemma_ends_with_index(s: Seq<u8>, t: Seq<u8>, k: int)
    requires
        ends_with(s, t),
        0 <= k < t.len(),
    ensures
        s[s.len() - t.len() + k] == t[k],
{
    assert(s.skip(s.len() - t.len())[k] == s[s.len() - t.len() + k]);
}

/// Find where the numeric core of the cleaned term text `u` ends,
/// after the unit suffix for `unit` has been stripped from its tail.
fn core_end_of(u: &Vec<u8>, start: usize, unit: Unit) -> (r: usize)
    requires
        start <= u@.len(),
    ensures
        start <= r <= u@.len(),
        u@.subrange(start as int, r as int) == strip_unit(u@.skip(start as int), unit),
{
    let n = u.len();
    let ghost body = u@.skip(start as int);
    let ghost star = seq![42u8] + unit_suffix(unit);
    let r = match unit {
        Unit::Quad => {
            if n - start >= 4 && u[n - 4] == 42 && u[n - 3] == 120 && u[n - 2] == 94 && u[n - 1]
                == 50 {
                proof {
                    assert(body.skip(body.len() - 4) =~= star);
                }
                n - 4
            } else if n - start >= 3 && u[n - 3] == 120 && u[n - 2] == 94 && u[n - 1] == 50 {
                proof {
                    assert(star =~= seq![42u8, 120u8, 94u8, 50u8]);
                    if ends_with(body, star) {
                        lemma_ends_with_index(body, star, 0);
                        assert(u@[n - 4] == body[body.len() - 4]);
                    }
                    assert(body.skip(body.len() - 3) =~= unit_suffix(unit));
                }
                n - 3
            } else {
                proof {
                    assert(star =~= seq![42u8, 120u8, 94u8, 50u8]);
                    if ends_with(body, star) {
                        lemma_ends_with_index(body, star, 0);
                        lemma_ends_with_index(body, star, 1);
                        lemma_ends_with_index(body, star, 2);
                        lemma_ends_with_index(body, star, 3);
                        assert(u@[n - 4] == body[body.len() - 4]);
                        assert(u@[n - 3] == body[body.len() - 3]);
                        assert(u@[n - 2] == body[body.len() - 2]);
                        assert(u@[n - 1] == body[body.len() - 1]);
                    }
                    if ends_with(body, unit_suffix(unit)) {
                        lemma_ends_with_index(body, unit_suffix(unit), 0);
                        lemma_ends_with_index(body, unit_suffix(unit), 1);
                        lemma_ends_with_index(body, unit_suffix(unit), 2);
                        assert(u@[n - 3] == body[body.len() - 3]);
                        assert(u@[n - 2] == body[body.len() - 2]);
                        assert(u@[n - 1] == body[body.len() - 1]);
                    }
                }
                n
            }
        },
        Unit::Linear => {
            if n - start >= 2 && u[n - 2] == 42 && u[n - 1] == 120 {
                proof {
                    assert(body.skip(body.len() - 2) =~= star);
                }
                n - 2
            } else if n - start >= 1 && u[n - 1] == 120 {
                proof {
                    assert(star =~= seq![42u8, 120u8]);
                    if ends_with(body, star) {
                        lemma_ends_with_index(body, star, 0);
                        assert(u@[n - 2] == body[body.len() - 2]);
                    }
                    assert(body.skip(body.len() - 1) =~= unit_suffix(unit));
                }
                n - 1
            } else {
                proof {
                    assert(star =~= seq![42u8, 120u8]);
                    if ends_with(body, star) {
                        lemma_ends_with_index(body, star, 0);
                        lemma_ends_with_index(body, star, 1);
                        assert(u@[n - 2] == body[body.len() - 2]);
                        assert(u@[n - 1] == body[body.len() - 1]);
                    }
                    if ends_with(body, unit_suffix(unit)) {
                        lemma_ends_with_index(body, unit_suffix(unit), 0);
                        assert(u@[n - 1] == body[body.len() - 1]);
                    }
                }
                n
            }
        },
        Unit::Bare => n,
    };
    proof {
        assert(u@.subrange(start as int, r as int) =~= strip_unit(body, unit));
    }
    r
}

/// The numeric remainder of a term's text: spaces dropped, one sign
/// consumed, the unit suffix stripped. This is what the errors of
/// `parse_term` carry as the offending substring.
pub open spec fn term_core_text(t: Seq<u8>, u: Unit) -> Seq<u8> {
    strip_unit(split_sign(strip_spaces(t)).1, u)
}

/// What `parse_term` answers for a term text and unit: the exact value
/// when it fits, and which error otherwise, carrying the offending
/// numeric remainder.
pub open spec fn parse_outcome_ok(t: Seq<u8>, u: Unit, r: Result<Decimal, ParserError>) -> bool {
    match r {
        Ok(d) => match term_value(t, u) {
            Some(v) => d.num as int == v.0 && d.scale as nat == v.1 && value_fits(v),
            None => false,
        },
        Err(ParserError::ParseNumber { input }) => term_value(t, u) is None && input@
            == term_core_text(t, u),
        Err(ParserError::NumberTooLarge { input }) => (match term_value(t, u) {
            Some(v) => !value_fits(v),
            None => false,
        }) && input@ == term_core_text(t, u),
        Err(ParserError::InvalidTermFormat { .. }) => false,
    }
}

/// What `parse_const` answers: as `parse_term` with no unit, but its
/// errors carry the whole cleaned text, sign included.
pub open spec fn parse_const_outcome_ok(t: Seq<u8>, r: Result<Decimal, ParserError>) -> bool {
    match r {
        Ok(d) => match term_value(t, Unit::Bare) {
            Some(v) => d.num as int == v.0 && d.scale as nat == v.1 && value_fits(v),
            None => false,
        },
        Err(ParserError::ParseNumber { input }) => term_value(t, Unit::Bare) is None && input@
            == strip_spaces(t),
        Err(ParserError::NumberTooLarge { input }) => (match term_value(t, Unit::Bare) {
            Some(v) => !value_fits(v),
            None => false,
        }) && input@ == strip_spaces(t),
        Err(ParserError::InvalidTermFormat { .. }) => false,
    }
}

/// Convert one term's matched text into its exact signed value,
/// stripping spaces, one leading sign, and the unit suffix. A term
/// that is only a sign and its unit has magnitude one.
#[verifier::rlimit(60)]
pub fn parse_term(s: &[u8], unit: Unit) -> (r: Result<Decimal, ParserError>)
    ensures
        parse_outcome_ok(s@, unit, r),
        r is Ok <==> (term_value(s@, unit) matches Some(v) && value_fits(v)),
{
    let w = remove_spaces(s);
    let neg: bool;
    let start: usize;
    if w.len() > 0 && w[0] == 43 {
        neg = false;
        start = 1;
    } else if w.len() > 0 && w[0] == 45 {
        neg = true;
        start = 1;
    } else {
        neg = false;
        start = 0;
    }
    let ghost sg: int = if neg {
        -1
    } else {
        1
    };
    let ghost body = split_sign(w@).1;
    proof {
        assert(split_sign(w@).0 == sg);
        assert(w@.skip(start as int) =~= body);
    }
    let core_end = core_end_of(&w, start, unit);
    let ghost core = strip_unit(body, unit);
    assert(w@.subrange(start as int, core_end as int) == core);
    if core_end == start {
        // Nothing left: a bare sign with its unit means magnitude one;
        // a constant with no digits is malformed.
        match unit {
            Unit::Bare => {
                let empty: Vec<u8> = Vec::new();
                proof {
                    assert(empty@ =~= core);
                }
                return Err(ParserError::ParseNumber { input: empty });
            },
            _ => {
                let one: i128 = if neg {
                    -1
                } else {
                    1
                };
                return Ok(Decimal { num: one, scale: 0 });
            },
        }
    }
    if !check_unsigned_number(w.as_slice(), start, core_end) {
        let bad = vstd::slice::slice_to_vec(
            vstd::slice::slice_subrange(w.as_slice(), start, core_end),
        );
        return Err(ParserError::ParseNumber { input: bad });
    }
    // The scale: how many digits stand after the dot, if there is one.
    let mut dotpos: usize = core_end;
    let mut j: usize = start;
    while j < core_end
        invariant
            start <= j <= core_end <= w@.len(),
            dotpos == core_end || (start <= dotpos < j && w@[dotpos as int] == 46),
            forall|k: int|
                start <= k < j && (dotpos == core_end || k < dotpos) ==> w@[k] != 46,
        decreases core_end - j,
    {
        if w[j] == 46 && dotpos == core_end {
            dotpos = j;
        }
        j = j + 1;
    }
    proof {
        if dotpos < core_end {
            assert forall|k: int| 0 <= k < dotpos - start implies core[k] != 46 by {
                assert(core[k] == w@[start + k]);
            }
            assert(core[dotpos - start] == w@[dotpos as int]);
            lemma_scale_of_pos(core, dotpos as int - start as int);
        } else {
            assert forall|k: int| 0 <= k < core.len() implies core[k] != 46 by {
                assert(core[k] == w@[start + k]);
            }
            lemma_scale_of_none(core);
        }
    }
    let scale_usize: usize = if dotpos < core_end {
        core_end - 1 - dotpos
    } else {
        0
    };
    assert(scale_usize as nat == scale_of(core));
    if scale_usize > u32::MAX as usize {
        let bad = vstd::slice::slice_to_vec(
            vstd::slice::slice_subrange(w.as_slice(), start, core_end),
        );
        return Err(ParserError::NumberTooLarge { input: bad });
    }
    let scale: u32 = scale_usize as u32;
    // The mantissa: the digits with the dot dropped, read left to
    // right, with every step checked against the exact range.
    let mut mant: i128 = 0;
    let ghost mut dseq: Seq<u8> = Seq::empty();
    let mut i: usize = start;
    proof {
        assert(core.skip(0) =~= core);
    }
    while i < core_end
        invariant
            start <= i <= core_end <= w@.len(),
            core == w@.subrange(start as int, core_end as int),
            matches_unsigned_number(core),
            strip_dot(core) == dseq + strip_dot(core.skip(i as int - start as int)),
            mant as int == digits_to_nat(dseq),
            0 <= mant,
            w@ == strip_spaces(s@),
            split_sign(w@).0 == sg,
            split_sign(w@).1 == body,
            core == strip_unit(body, unit),
            core.len() > 0,
            sg == 1 || sg == -1,
        decreases core_end - i,
    {
        let ghost off = i as int - start as int;
        let ghost rest = core.skip(off);
        proof {
            assert(rest[0] == core[off]);
            assert(core[off] == w@[i as int]);
            assert(core.skip(off).skip(1) =~= core.skip(off + 1));
            assert(is_num_char(core[off]));
        }
        let c = w[i];
        if c == 46 {
            proof {
                assert(strip_dot(rest) == strip_dot(core.skip(off + 1)));
            }
        } else {
            assert(is_digit(c));
            let d = (c - 48) as i128;
            let ghost old_dseq = dseq;
            let ghost old_mant = mant as int;
            let step = match mant.checked_mul(10) {
                Some(m) => m.checked_add(d),
                None => None,
            };
            proof {
                dseq = dseq.push(c);
                assert(dseq.drop_last() =~= old_dseq);
                assert(digits_to_nat(dseq) == old_mant * 10 + (c - 48));
                assert(strip_dot(rest) == seq![c] + strip_dot(core.skip(off + 1)));
                assert(old_dseq + (seq![c] + strip_dot(core.skip(off + 1))) =~= dseq + strip_dot(
                    core.skip(off + 1),
                ));
            }
            match step {
                Some(m) => {
                    mant = m;
                },
                None => {
                    // The digits already read exceed the exact range,
                    // so the whole mantissa does too.
                    proof {
                        assert(digits_to_nat(dseq) > i128::MAX as int);
                        lemma_digits_prefix_le(dseq, strip_dot(core.skip(off + 1)));
                        assert(dseq + strip_dot(core.skip(off + 1)) =~= strip_dot(core));
                        assert(unum_mant(core) > i128::MAX as int);
                        let v = (sg * unum_mant(core), scale_of(core));
                        assert(strip_spaces(s@) == w@);
                        assert(split_sign(w@).0 == sg);
                        assert(split_sign(w@).1 == body);
                        assert(core == strip_unit(body, unit));
                        assert(core.len() > 0);
                        assert(matches_unsigned_number(core));
                        assert(term_value(s@, unit) == Some(v));
                        let m = unum_mant(core) as int;
                        assert(v.0 == sg * m);
                        assert(sg == 1 || sg == -1);
                        assert(sg * m == if sg == 1 { m } else { -m }) by (nonlinear_arith)
                            requires sg == 1 || sg == -1,
                        ;
                        assert(!value_fits(v));
                    }
                    let bad = vstd::slice::slice_to_vec(
                        vstd::slice::slice_subrange(w.as_slice(), start, core_end),
                    );
                    return Err(ParserError::NumberTooLarge { input: bad });
                },
            }
        }
        i = i + 1;
    }
    proof {
        assert(core.skip(core.len() as int) =~= Seq::<u8>::empty());
        assert(dseq + Seq::<u8>::empty() =~= dseq);
        assert(mant as int == unum_mant(core));
    }
    let num: i128 = if neg {
        -mant
    } else {
        mant
    };
    Ok(Decimal { num, scale })
}

pub proof fn lemma_strip_spaces_concat(a: Seq<u8>, b: Seq<u8>)
    ensures
        strip_spaces(a + b) == strip_spaces(a) + strip_spaces(b),
    decreases a.len(),
{
    if a.len() == 0 {
        assert(a + b =~= b);
        assert(strip_spaces(a) + strip_spaces(b) =~= strip_spaces(b));
    } else {
        assert((a + b)[0] == a[0]);
        assert((a + b).skip(1) =~= a.skip(1) + b);
        lemma_strip_spaces_concat(a.skip(1), b);
        if is_space(a[0]) {
        } else {
            assert(seq![a[0]] + (strip_spaces(a.skip(1)) + strip_spaces(b)) =~= (seq![a[0]]
                + strip_spaces(a.skip(1))) + strip_spaces(b));
        }
    }
}

pub proof fn lemma_strip_spaces_all(a: Seq<u8>)
    requires
        forall|k: int| 0 <= k < a.len() ==> is_space(#[trigger] a[k]),
    ensures
        strip_spaces(a) == Seq::<u8>::empty(),
    decreases a.len(),
{
    if a.len() > 0 {
        assert(forall|k: int| 0 <= k < a.skip(1).len() ==> is_space(#[trigger] a.skip(1)[k]));
        lemma_strip_spaces_all(a.skip(1));
    }
}

pub proof fn lemma_strip_spaces_none(a: Seq<u8>)
    requires
        forall|k: int| 0 <= k < a.len() ==> !is_space(#[trigger] a[k]),
    ensures
        strip_spaces(a) == a,
    decreases a.len(),
{
    if a.len() > 0 {
        assert(forall|k: int| 0 <= k < a.skip(1).len() ==> !is_space(#[trigger] a.skip(1)[k]));
        lemma_strip_spaces_none(a.skip(1));
        assert(seq![a[0]] + a.skip(1) =~= a);
    }
}

/// Convert a constant term's text: no unit suffix to strip. Its
/// errors carry the whole cleaned text, sign included.
pub fn parse_const(s: &[u8]) -> (r: Result<Decimal, ParserError>)
    ensures
        parse_const_outcome_ok(s@, r),
        r is Ok <==> (term_value(s@, Unit::Bare) matches Some(v) && value_fits(v)),
{
    match parse_term(s, Unit::Bare) {
        Ok(d) => Ok(d),
        Err(ParserError::ParseNumber { .. }) => Err(
            ParserError::ParseNumber { input: remove_spaces(s) },
        ),
        Err(ParserError::NumberTooLarge { .. }) => Err(
            ParserError::NumberTooLarge { input: remove_spaces(s) },
        ),
        Err(e) => Err(e),
    }
}

} // verus!
