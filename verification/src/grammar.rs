//! The accepted textual surface of a quadratic equation, and a
//! recursive-descent parser for it.
//!
//! The grammar is defined by `spec` functions over byte sequences; the
//! executable parser returns `Ok` exactly on the inputs those functions
//! accept, and the parse tree it builds records, for every matched term,
//! the rule tag and the exact matched substring.

use vstd::prelude::*;

verus! {

/// Which grammar rule a parse node matched.
#[allow(non_camel_case_types)]
#[derive(Clone, Copy, Debug, PartialEq, Eq, Structural)]
pub enum Rule {
    /// A signed or unsigned decimal number such as `-3.5`.
    number,
    /// A quadratic term such as `2*x^2` or `-x^2`.
    quad_term,
    /// A linear term such as `3*x` or `x`.
    linear_term,
    /// A bare number used as a constant term.
    constant_term,
    /// Any one of the three term kinds.
    term,
    /// A full equation: a signed sum of terms, `=`, and the literal `0`.
    equation,
    /// Zero or more equation lines separated by line breaks.
    file,
}

pub open spec fn is_space(c: u8) -> bool {
    c == 32
}

pub open spec fn is_digit(c: u8) -> bool {
    48 <= c && c <= 57
}

pub open spec fn is_sign(c: u8) -> bool {
    c == 43 || c == 45
}

/// A character that may appear in an unsigned number: a digit or a dot.
pub open spec fn is_num_char(c: u8) -> bool {
    is_digit(c) || c == 46
}

/// First index at or after `i` that does not hold a space.
pub open spec fn space_run_end(s: Seq<u8>, i: int) -> int
    decreases s.len() - i when 0 <= i <= s.len()
{
    if i < s.len() && is_space(s[i]) {
        space_run_end(s, i + 1)
    } else {
        i
    }
}

/// First index at or after `i` that does not hold a digit or a dot.
pub open spec fn num_run_end(s: Seq<u8>, i: int) -> int
    decreases s.len() - i when 0 <= i <= s.len()
{
    if i < s.len() && is_num_char(s[i]) {
        num_run_end(s, i + 1)
    } else {
        i
    }
}

pub proof fn lemma_space_run_end(s: Seq<u8>, i: int)
    requires
        0 <= i <= s.len(),
    ensures
        i <= space_run_end(s, i) <= s.len(),
        forall|k: int| i <= k < space_run_end(s, i) ==> is_space(#[trigger] s[k]),
        space_run_end(s, i) < s.len() ==> !is_space(s[space_run_end(s, i)]),
    decreases s.len() - i,
{
    if i < s.len() && is_space(s[i]) {
        lemma_space_run_end(s, i + 1);
    }
}

pub proof fn lemma_num_run_end(s: Seq<u8>, i: int)
    requires
        0 <= i <= s.len(),
    ensures
        i <= num_run_end(s, i) <= s.len(),
        forall|k: int| i <= k < num_run_end(s, i) ==> is_num_char(#[trigger] s[k]),
        num_run_end(s, i) < s.len() ==> !is_num_char(s[num_run_end(s, i)]),
    decreases s.len() - i,
{
    if i < s.len() && is_num_char(s[i]) {
        lemma_num_run_end(s, i + 1);
    }
}

/// An unsigned number: at least one digit, at most one dot, no dot at
/// the end, and nothing but digits and dots.
pub open spec fn matches_unsigned_number(s: Seq<u8>) -> bool {
    &&& s.len() > 0
    &&& (forall|i: int| 0 <= i < s.len() ==> is_num_char(#[trigger] s[i]))
    &&& (forall|i: int, j: int|
        #![trigger s[i], s[j]]
        0 <= i < j < s.len() ==> !(s[i] == 46 && s[j] == 46))
    &&& s[s.len() - 1] != 46
}

/// The `number` rule: an optional sign, then an unsigned number.
pub open spec fn matches_number(s: Seq<u8>) -> bool {
    if s.len() > 0 && is_sign(s[0]) {
        matches_unsigned_number(s.subrange(1, s.len() as int))
    } else {
        matches_unsigned_number(s)
    }
}

/// Where a scan of an unsigned number gives up, carrying whether a
/// dot was already seen: the first byte that is not a digit or a dot,
/// a second dot, or a trailing dot; the length when nothing is wrong.
pub open spec fn unum_scan_pos(u: Seq<u8>, i: int, seen_dot: bool) -> int
    decreases u.len() - i when 0 <= i <= u.len()
{
    if i >= u.len() {
        if u.len() > 0 && u[u.len() - 1] == 46 {
            u.len() - 1
        } else {
            u.len() as int
        }
    } else if !is_num_char(u[i]) {
        i
    } else if u[i] == 46 && seen_dot {
        i
    } else {
        unum_scan_pos(u, i + 1, seen_dot || u[i] == 46)
    }
}

/// The offending byte of a text that is not an unsigned number.
pub open spec fn unum_err_pos(u: Seq<u8>) -> int {
    if u.len() == 0 {
        0
    } else {
        unum_scan_pos(u, 0, false)
    }
}

/// The offending byte of a text that does not match the number rule.
pub open spec fn number_err_pos(s: Seq<u8>) -> int {
    if s.len() > 0 && is_sign(s[0]) {
        1 + unum_err_pos(s.subrange(1, s.len() as int))
    } else {
        unum_err_pos(s)
    }
}

/// The body of a term starting at `i`, after any sign: an optional
/// number, an optional `*` (only after a number), spaces in between,
/// and then `x^2`, `x`, or nothing. Returns the rule tag of the term
/// and the index just past it, or `None` if no term starts at `i`.
pub open spec fn term_core(s: Seq<u8>, i: int) -> Option<(Rule, int)>
    recommends
        0 <= i <= s.len(),
{
    let ne = num_run_end(s, i);
    if ne > i && !matches_unsigned_number(s.subrange(i, ne)) {
        None
    } else {
        let p = if ne > i {
            space_run_end(s, ne)
        } else {
            i
        };
        let has_star = ne > i && p < s.len() && s[p] == 42;
        let q = if has_star {
            space_run_end(s, p + 1)
        } else {
            p
        };
        if q < s.len() && s[q] == 120 {
            if q + 1 < s.len() && s[q + 1] == 94 {
                if q + 2 < s.len() && s[q + 2] == 50 {
                    Some((Rule::quad_term, q + 3))
                } else {
                    None
                }
            } else {
                Some((Rule::linear_term, q + 1))
            }
        } else {
            if !has_star && ne > i {
                Some((Rule::constant_term, ne))
            } else {
                None
            }
        }
    }
}

/// A term with its optional leading sign, starting exactly at `i`.
pub open spec fn signed_core(s: Seq<u8>, i: int) -> Option<(Rule, int)>
    recommends
        0 <= i <= s.len(),
{
    if i < s.len() && is_sign(s[i]) {
        term_core(s, space_run_end(s, i + 1))
    } else {
        term_core(s, i)
    }
}

/// Where the scan of a term body starting at `i` gives up: inside a
/// malformed number, at a wrong exponent, or where `x` or a number was
/// needed and something else stood.
pub open spec fn core_err_pos(s: Seq<u8>, i: int) -> int
    recommends
        0 <= i <= s.len(),
{
    let ne = num_run_end(s, i);
    if ne > i && !matches_unsigned_number(s.subrange(i, ne)) {
        i + unum_err_pos(s.subrange(i, ne))
    } else {
        let p = if ne > i {
            space_run_end(s, ne)
        } else {
            i
        };
        let has_star = ne > i && p < s.len() && s[p] == 42;
        let q = if has_star {
            space_run_end(s, p + 1)
        } else {
            p
        };
        if q < s.len() && s[q] == 120 && q + 1 < s.len() && s[q + 1] == 94 {
            q + 2
        } else {
            q
        }
    }
}

/// Where the scan of a signed term starting at `i` gives up.
pub open spec fn signed_err_pos(s: Seq<u8>, i: int) -> int
    recommends
        0 <= i <= s.len(),
{
    if i < s.len() && is_sign(s[i]) {
        core_err_pos(s, space_run_end(s, i + 1))
    } else {
        core_err_pos(s, i)
    }
}

/// The span of the single term in `s`: its rule tag, its first index
/// (at the sign if there is one), and the index just past it.
pub open spec fn term_span(s: Seq<u8>) -> Option<(Rule, int, int)> {
    let j = space_run_end(s, 0);
    match signed_core(s, j) {
        Some((k, e)) => Some((k, j, e)),
        None => None,
    }
}

/// The whole of `s` is one term of kind `k`, up to surrounding spaces.
pub open spec fn matches_term_kind(s: Seq<u8>, k: Rule) -> bool {
    match term_span(s) {
        Some((k2, j, e)) => k2 == k && space_run_end(s, e) == s.len(),
        None => false,
    }
}

/// The whole of `s` is one term, of whichever kind.
pub open spec fn matches_term(s: Seq<u8>) -> bool {
    match term_span(s) {
        Some((k, j, e)) => space_run_end(s, e) == s.len(),
        None => false,
    }
}

/// The list of term spans of an equation's left-hand side, starting at
/// `i` (which must stand on the first term's sign or body). Every term
/// after the first must carry its own sign; two adjacent signs, or a
/// sign with no term after it, fail the whole scan.
pub open spec fn equation_terms(s: Seq<u8>, i: int) -> Option<(Seq<(Rule, int, int)>, int)>
    recommends
        0 <= i <= s.len(),
    decreases s.len() - i when 0 <= i <= s.len()
{
    match signed_core(s, i) {
        None => None,
        Some((k, e)) => {
            let j = space_run_end(s, e);
            if j < s.len() && is_sign(s[j]) {
                if i < j && j <= s.len() {
                    match equation_terms(s, j) {
                        None => None,
                        Some((rest, fin)) => Some((seq![(k, i, e)] + rest, fin)),
                    }
                } else {
                    None
                }
            } else {
                Some((seq![(k, i, e)], e))
            }
        },
    }
}

/// The term spans of a full equation `s`, or `None` if `s` is not an
/// equation. The right-hand side must be the literal `0`.
pub open spec fn equation_spans(s: Seq<u8>) -> Option<Seq<(Rule, int, int)>> {
    let j0 = space_run_end(s, 0);
    match equation_terms(s, j0) {
        None => None,
        Some((spans, e)) => {
            let p = space_run_end(s, e);
            if p < s.len() && s[p] == 61 {
                let q = space_run_end(s, p + 1);
                if q < s.len() && s[q] == 48 {
                    if space_run_end(s, q + 1) == s.len() {
                        Some(spans)
                    } else {
                        None
                    }
                } else {
                    None
                }
            } else {
                None
            }
        },
    }
}

pub open spec fn matches_equation(s: Seq<u8>) -> bool {
    equation_spans(s) is Some
}

/// First index at or after `i` that holds a line break, or the length.
pub open spec fn line_run_end(s: Seq<u8>, i: int) -> int
    decreases s.len() - i when 0 <= i <= s.len()
{
    if i < s.len() && s[i] != 10 {
        line_run_end(s, i + 1)
    } else {
        i
    }
}

/// Every line of `s` from `i` on is blank or a full equation.
pub open spec fn matches_file_from(s: Seq<u8>, i: int) -> bool
    decreases s.len() - i when 0 <= i <= s.len()
{
    if i >= s.len() {
        true
    } else {
        let e = line_run_end(s, i);
        let blank = space_run_end(s, i) == e;
        &&& blank || matches_equation(s.subrange(i, e))
        &&& if e < s.len() {
            if i <= e && e + 1 <= s.len() {
                matches_file_from(s, e + 1)
            } else {
                false
            }
        } else {
            true
        }
    }
}

pub open spec fn matches_file(s: Seq<u8>) -> bool {
    matches_file_from(s, 0)
}

/// The spans `(start, end)` of the non-blank lines of `s` from `i` on.
pub open spec fn file_eq_lines(s: Seq<u8>, i: int) -> Seq<(int, int)>
    decreases s.len() - i when 0 <= i <= s.len()
{
    if i >= s.len() {
        Seq::empty()
    } else {
        let e = line_run_end(s, i);
        let blank = space_run_end(s, i) == e;
        let here = if blank {
            Seq::<(int, int)>::empty()
        } else {
            seq![(i, e)]
        };
        if e < s.len() {
            if i <= e && e + 1 <= s.len() {
                here + file_eq_lines(s, e + 1)
            } else {
                here
            }
        } else {
            here
        }
    }
}

/// What `Grammar::parse` accepts for each rule, over the whole input.
pub open spec fn rule_matches(r: Rule, s: Seq<u8>) -> bool {
    match r {
        Rule::number => matches_number(s),
        Rule::quad_term => matches_term_kind(s, Rule::quad_term),
        Rule::linear_term => matches_term_kind(s, Rule::linear_term),
        Rule::constant_term => matches_term_kind(s, Rule::constant_term),
        Rule::term => matches_term(s),
        Rule::equation => matches_equation(s),
        Rule::file => matches_file(s),
    }
}

fn skip_spaces(s: &[u8], i: usize) -> (r: usize)
    requires
        i <= s@.len(),
    ensures
        r == space_run_end(s@, i as int),
        i <= r <= s@.len(),
{
    let mut j = i;
    while j < s.len() && s[j] == 32
        invariant
            i <= j <= s@.len(),
            space_run_end(s@, i as int) == space_run_end(s@, j as int),
        decreases s@.len() - j,
    {
        j = j + 1;
    }
    j
}

fn num_run(s: &[u8], i: usize) -> (r: usize)
    requires
        i <= s@.len(),
    ensures
        r == num_run_end(s@, i as int),
        i <= r <= s@.len(),
{
    let mut j = i;
    while j < s.len() && (s[j] == 46 || (48 <= s[j] && s[j] <= 57))
        invariant
            i <= j <= s@.len(),
            num_run_end(s@, i as int) == num_run_end(s@, j as int),
        decreases s@.len() - j,
    {
        j = j + 1;
    }
    j
}

/// Scan the bytes `[i, e)` of `s` as an unsigned number: `None` when
/// they match, else the absolute offset of the offending byte.
pub(crate) fn check_unsigned_pos(s: &[u8], i: usize, e: usize) -> (r: Option<usize>)
    requires
        i <= e <= s@.len(),
    ensures
        ({
            let sub = s@.subrange(i as int, e as int);
            match r {
                None => matches_unsigned_number(sub),
                Some(p) => !matches_unsigned_number(sub) && p as int == i + unum_err_pos(sub) && i
                    <= p <= e,
            }
        }),
{
    let ghost sub = s@.subrange(i as int, e as int);
    if e == i {
        return Some(i);
    }
    let mut j = i;
    let mut dot: usize = e;
    while j < e
        invariant
            i <= j <= e <= s@.len(),
            e > i,
            sub == s@.subrange(i as int, e as int),
            forall|k: int| i <= k < j ==> is_num_char(#[trigger] s@[k]),
            dot == e || (i <= dot < j && s@[dot as int] == 46),
            forall|k: int| i <= k < j && k != dot ==> #[trigger] s@[k] != 46,
            unum_scan_pos(sub, 0, false) == unum_scan_pos(sub, j - i, dot != e),
        decreases e - j,
    {
        let ch = s[j];
        proof {
            assert(sub[j - i] == ch);
        }
        if !(48 <= ch && ch <= 57) && ch != 46 {
            assert(!is_num_char(sub[j - i]));
            assert(unum_scan_pos(sub, j - i, dot != e) == j - i);
            return Some(j);
        }
        if ch == 46 {
            if dot != e {
                assert(sub[dot - i] == 46 && sub[j - i] == 46);
                assert(unum_scan_pos(sub, j - i, dot != e) == j - i);
                return Some(j);
            }
            dot = j;
        }
        j = j + 1;
    }
    if s[e - 1] == 46 {
        proof {
            assert(sub[sub.len() - 1] == 46);
            assert(unum_scan_pos(sub, e - i, dot != e) == sub.len() - 1);
        }
        return Some(e - 1);
    }
    proof {
        assert forall|k: int| 0 <= k < sub.len() implies is_num_char(#[trigger] sub[k]) by {
            assert(sub[k] == s@[i + k]);
        }
        assert forall|a: int, b: int|
            #![trigger sub[a], sub[b]]
            0 <= a < b < sub.len() implies !(sub[a] == 46 && sub[b] == 46) by {
            assert(sub[a] == s@[i + a] && sub[b] == s@[i + b]);
        }
        assert(sub[sub.len() - 1] != 46);
    }
    None
}

/// Decide `matches_unsigned_number` on the bytes `[i, e)` of `s`.
pub(crate) fn check_unsigned_number(s: &[u8], i: usize, e: usize) -> (r: bool)
    requires
        i <= e <= s@.len(),
    ensures
        r == matches_unsigned_number(s@.subrange(i as int, e as int)),
{
    match check_unsigned_pos(s, i, e) {
        None => true,
        Some(_) => false,
    }
}

/// Inside the window `[a, e)` of `s`, a space run behaves as in `s`,
/// cut off at the window's end.
pub proof fn lemma_space_run_window(s: Seq<u8>, a: int, e: int, i: int)
    requires
        0 <= a <= i <= e <= s.len(),
    ensures
        space_run_end(s.subrange(a, e), i - a) == if space_run_end(s, i) <= e {
            space_run_end(s, i) - a
        } else {
            e - a
        },
    decreases e - i,
{
    let t = s.subrange(a, e);
    lemma_space_run_end(s, i);
    if i == e {
        assert(space_run_end(t, i - a) == i - a);
    } else {
        assert(t[i - a] == s[i]);
        if is_space(s[i]) {
            lemma_space_run_window(s, a, e, i + 1);
        }
    }
}

/// Inside the window `[a, e)` of `s`, a digit-or-dot run behaves as in
/// `s`, cut off at the window's end.
pub proof fn lemma_num_run_window(s: Seq<u8>, a: int, e: int, i: int)
    requires
        0 <= a <= i <= e <= s.len(),
    ensures
        num_run_end(s.subrange(a, e), i - a) == if num_run_end(s, i) <= e {
            num_run_end(s, i) - a
        } else {
            e - a
        },
    decreases e - i,
{
    let t = s.subrange(a, e);
    lemma_num_run_end(s, i);
    if i == e {
        assert(num_run_end(t, i - a) == i - a);
    } else {
        assert(t[i - a] == s[i]);
        if is_num_char(s[i]) {
            lemma_num_run_window(s, a, e, i + 1);
        }
    }
}

/// A term body matched inside `s` matches again, with the same kind,
/// when its exact text `s[a..e]` is scanned on its own.
pub proof fn lemma_term_core_window(s: Seq<u8>, a: int, e: int, i: int, k: Rule)
    requires
        0 <= a <= i,
        i <= e <= s.len(),
        term_core(s, i) == Some((k, e)),
    ensures
        term_core(s.subrange(a, e), i - a) == Some((k, e - a)),
        i < e,
{
    let t = s.subrange(a, e);
    let ne = num_run_end(s, i);
    lemma_num_run_end(s, i);
    let p = if ne > i {
        space_run_end(s, ne)
    } else {
        i
    };
    if ne > i {
        lemma_space_run_end(s, ne);
    }
    let has_star = ne > i && p < s.len() && s[p] == 42;
    let q = if has_star {
        space_run_end(s, p + 1)
    } else {
        p
    };
    if has_star {
        lemma_space_run_end(s, p + 1);
    }
    // The scan positions that matter stay inside the window.
    if q < s.len() && s[q] == 120 {
        assert(ne <= p <= q < e);
    } else {
        assert(e == ne);
    }
    lemma_num_run_window(s, a, e, i);
    let ne_t = num_run_end(t, i - a);
    assert(ne_t == ne - a);
    if ne > i {
        assert(t.subrange(i - a, ne - a) =~= s.subrange(i, ne));
    }
    if q < s.len() && s[q] == 120 {
        // A quadratic or linear term: the coefficient, star, and `x`
        // sit strictly before `e`.
        if ne > i {
            lemma_space_run_window(s, a, e, ne);
            assert(p <= q < e);
        }
        let p_t = if ne_t > i - a {
            space_run_end(t, ne_t)
        } else {
            i - a
        };
        assert(p_t == p - a);
        if has_star {
            assert(t[p - a] == s[p]);
            lemma_space_run_window(s, a, e, p + 1);
        } else {
            if ne > i && p < e {
                assert(t[p - a] == s[p]);
            }
        }
        let has_star_t = ne_t > i - a && p_t < t.len() && t[p_t] == 42;
        assert(has_star_t == has_star);
        let q_t = if has_star_t {
            space_run_end(t, p_t + 1)
        } else {
            p_t
        };
        assert(q_t == q - a);
        assert(t[q - a] == s[q]);
        if q + 1 < s.len() && s[q + 1] == 94 {
            // Quadratic: `x^2` ends exactly at `e`.
            assert(q + 2 < s.len() && s[q + 2] == 50 && e == q + 3);
            assert(t[q + 1 - a] == s[q + 1] && t[q + 2 - a] == s[q + 2]);
        } else {
            // Linear: the term ends just past the `x`, so the window
            // ends there too and no `^` can follow inside it.
            assert(e == q + 1);
            assert(q_t + 1 == t.len());
        }
    } else {
        // A constant: the window ends at the number itself, so the
        // scan of the window finds neither star nor `x`.
        assert(!has_star && ne > i && e == ne);
        assert(ne_t == e - a == t.len());
        lemma_space_run_end(t, ne_t);
    }
}

/// A signed term matched inside `s` at `[a, e)` makes its exact text a
/// full standalone term of the same kind.
pub proof fn lemma_signed_span_standalone(s: Seq<u8>, a: int, e: int, k: Rule)
    requires
        0 <= a < e <= s.len(),
        signed_core(s, a) == Some((k, e)),
    ensures
        term_span(s.subrange(a, e)) == Some((k, 0int, e - a)),
        matches_term_kind(s.subrange(a, e), k),
        matches_term(s.subrange(a, e)),
{
    let t = s.subrange(a, e);
    assert(t[0] == s[a]);
    if is_sign(s[a]) {
        let i = space_run_end(s, a + 1);
        lemma_space_run_end(s, a + 1);
        lemma_term_core_window(s, a, e, i, k);
        assert(a + 1 <= e);
        lemma_space_run_window(s, a, e, a + 1);
        assert(space_run_end(t, 1) == i - a);
        assert(!is_space(t[0]));
        assert(space_run_end(t, 0) == 0);
        assert(signed_core(t, 0) == Some((k, e - a)));
    } else {
        // `term_core` matched directly at `a`, so `s[a]` is a digit, a
        // dot, or the letter `x`; never a space or a sign.
        let ne = num_run_end(s, a);
        lemma_num_run_end(s, a);
        if ne > a {
            assert(is_num_char(s[a]));
        } else {
            assert(term_core(s, a) == Some((k, e)));
            assert(s[a] == 120);
        }
        lemma_term_core_window(s, a, e, a, k);
        assert(!is_space(t[0]));
        assert(space_run_end(t, 0) == 0);
        assert(!is_sign(t[0]));
        assert(signed_core(t, 0) == Some((k, e - a)));
    }
    assert(space_run_end(t, e - a) == t.len());
}

/// Scan the term body starting at `i`, mirroring `term_core`; on
/// failure, hand back the offset where the scan gave up.
fn term_core_at(s: &[u8], i: usize) -> (r: Result<(Rule, usize), usize>)
    requires
        i <= s@.len(),
    ensures
        match r {
            Ok((k, e)) => term_core(s@, i as int) == Some((k, e as int)) && i < e <= s@.len(),
            Err(p) => term_core(s@, i as int) is None && p as int == core_err_pos(s@, i as int)
                && p <= s@.len(),
        },
{
    let ne = num_run(s, i);
    if ne > i {
        match check_unsigned_pos(s, i, ne) {
            None => {},
            Some(p) => {
                return Err(p);
            },
        }
    }
    let p = if ne > i {
        skip_spaces(s, ne)
    } else {
        i
    };
    let has_star = ne > i && p < s.len() && s[p] == 42;
    let q = if has_star {
        skip_spaces(s, p + 1)
    } else {
        p
    };
    if q < s.len() && s[q] == 120 {
        if q + 1 < s.len() && s[q + 1] == 94 {
            if q + 2 < s.len() && s[q + 2] == 50 {
                Ok((Rule::quad_term, q + 3))
            } else {
                Err(q + 2)
            }
        } else {
            Ok((Rule::linear_term, q + 1))
        }
    } else {
        if !has_star && ne > i {
            Ok((Rule::constant_term, ne))
        } else {
            Err(q)
        }
    }
}

/// Scan a term with its optional sign, mirroring `signed_core`.
fn signed_core_at(s: &[u8], i: usize) -> (r: Result<(Rule, usize), usize>)
    requires
        i <= s@.len(),
    ensures
        match r {
            Ok((k, e)) => signed_core(s@, i as int) == Some((k, e as int)) && i < e <= s@.len(),
            Err(p) => signed_core(s@, i as int) is None && p as int == signed_err_pos(
                s@,
                i as int,
            ) && p <= s@.len(),
        },
{
    if i < s.len() && (s[i] == 43 || s[i] == 45) {
        let j = skip_spaces(s, i + 1);
        term_core_at(s, j)
    } else {
        term_core_at(s, i)
    }
}

/// The input does not match the requested rule. `pos` is the byte
/// offset at which the scan gave up.
#[derive(Clone, Copy, Debug, PartialEq, Eq, Structural)]
pub struct SyntaxError {
    pub pos: usize,
}

/// A node of the parse tree: the rule it matched, the exact matched
/// text, and its child nodes in input order.
#[derive(Debug)]
pub struct ParseNode {
    pub rule: Rule,
    pub text: Vec<u8>,
    pub children: Vec<ParseNode>,
}

/// A leaf node for one term: its tag is one of the three term kinds
/// and its text is a full standalone term of that kind.
pub open spec fn term_node_ok(n: ParseNode) -> bool {
    &&& (n.rule == Rule::quad_term || n.rule == Rule::linear_term || n.rule
        == Rule::constant_term)
    &&& matches_term_kind(n.text@, n.rule)
    &&& n.children@.len() == 0
}

pub open spec fn eq_children_ok(cs: Seq<ParseNode>, s: Seq<u8>, spans: Seq<(Rule, int, int)>) -> bool {
    &&& cs.len() == spans.len()
    &&& forall|i: int|
        0 <= i < cs.len() ==> {
            &&& (#[trigger] cs[i]).rule == spans[i].0
            &&& cs[i].text@ == s.subrange(spans[i].1, spans[i].2)
            &&& term_node_ok(cs[i])
        }
}

/// An equation node: one child per term, in input order, each carrying
/// the exact text of its span.
pub open spec fn equation_node_ok(n: ParseNode) -> bool {
    &&& n.rule == Rule::equation
    &&& matches_equation(n.text@)
    &&& match equation_spans(n.text@) {
        Some(spans) => eq_children_ok(n.children@, n.text@, spans),
        None => false,
    }
}

/// A file node: one equation child per non-blank line, in input order.
pub open spec fn file_node_ok(n: ParseNode) -> bool {
    &&& n.rule == Rule::file
    &&& matches_file(n.text@)
    &&& {
        let lines = file_eq_lines(n.text@, 0);
        &&& n.children@.len() == lines.len()
        &&& forall|i: int|
            0 <= i < lines.len() ==> {
                &&& (#[trigger] n.children@[i]).text@ == n.text@.subrange(
                    lines[i].0,
                    lines[i].1,
                )
                &&& equation_node_ok(n.children@[i])
            }
    }
}

fn line_run(s: &[u8], i: usize) -> (r: usize)
    requires
        i <= s@.len(),
    ensures
        r == line_run_end(s@, i as int),
        i <= r <= s@.len(),
{
    let mut j = i;
    while j < s.len() && s[j] != 10
        invariant
            i <= j <= s@.len(),
            line_run_end(s@, i as int) == line_run_end(s@, j as int),
        decreases s@.len() - j,
    {
        j = j + 1;
    }
    j
}

/// Where the scan of an equation's term list starting at `i` gives up.
pub open spec fn eq_terms_err(s: Seq<u8>, i: int) -> int
    recommends
        0 <= i <= s.len(),
    decreases s.len() - i when 0 <= i <= s.len()
{
    match signed_core(s, i) {
        None => signed_err_pos(s, i),
        Some((k, e)) => {
            let j = space_run_end(s, e);
            if j < s.len() && is_sign(s[j]) {
                if i < j && j <= s.len() {
                    eq_terms_err(s, j)
                } else {
                    e
                }
            } else {
                e
            }
        },
    }
}

/// Where the scan of a whole equation gives up: inside a term, or at
/// the equals sign, the zero, or trailing text that should not be
/// there.
pub open spec fn equation_err_pos(s: Seq<u8>) -> int {
    let j0 = space_run_end(s, 0);
    match equation_terms(s, j0) {
        None => eq_terms_err(s, j0),
        Some((spans, e)) => {
            let p = space_run_end(s, e);
            if p < s.len() && s[p] == 61 {
                let q = space_run_end(s, p + 1);
                if q < s.len() && s[q] == 48 {
                    space_run_end(s, q + 1)
                } else {
                    q
                }
            } else {
                p
            }
        },
    }
}

fn parse_equation_slice(s: &[u8]) -> (r: Result<ParseNode, SyntaxError>)
    ensures
        match r {
            Ok(node) => matches_equation(s@) && node.text@ == s@ && equation_node_ok(node),
            Err(e) => !matches_equation(s@) && e.pos as int == equation_err_pos(s@) && e.pos
                <= s@.len(),
        },
{
    let j0 = skip_spaces(s, 0);
    let mut children: Vec<ParseNode> = Vec::new();
    let ghost mut spans_done: Seq<(Rule, int, int)> = Seq::empty();
    let mut cur = j0;
    loop
        invariant
            j0 == space_run_end(s@, 0),
            j0 <= cur <= s@.len(),
            match equation_terms(s@, cur as int) {
                Some((rest, fin)) => equation_terms(s@, j0 as int) == Some(
                    (spans_done + rest, fin),
                ),
                None => equation_terms(s@, j0 as int) is None,
            },
            equation_terms(s@, cur as int) is None ==> eq_terms_err(s@, j0 as int)
                == eq_terms_err(s@, cur as int),
            eq_children_ok(children@, s@, spans_done),
        decreases s@.len() - cur,
    {
        match signed_core_at(s, cur) {
            Err(p) => {
                return Err(SyntaxError { pos: p });
            },
            Ok((k, e)) => {
                let sub = vstd::slice::slice_subrange(s, cur, e);
                let text = vstd::slice::slice_to_vec(sub);
                proof {
                    lemma_signed_span_standalone(s@, cur as int, e as int, k);
                }
                let node = ParseNode { rule: k, text, children: Vec::new() };
                assert(term_node_ok(node));
                children.push(node);
                let ghost old_spans = spans_done;
                let ghost span = (k, cur as int, e as int);
                proof {
                    spans_done = spans_done + seq![span];
                }
                let j = skip_spaces(s, e);
                if j < s.len() && (s[j] == 43 || s[j] == 45) {
                    proof {
                        let old_cur = cur as int;
                        match equation_terms(s@, j as int) {
                            Some((rest, fin)) => {
                                assert(equation_terms(s@, old_cur) == Some(
                                    (seq![span] + rest, fin),
                                ));
                                assert(old_spans + (seq![span] + rest) =~= spans_done + rest);
                            },
                            None => {
                                assert(equation_terms(s@, old_cur) is None);
                            },
                        }
                    }
                    cur = j;
                } else {
                    assert(equation_terms(s@, cur as int) == Some((seq![span], e as int)));
                    assert(old_spans + seq![span] =~= spans_done);
                    assert(equation_terms(s@, j0 as int) == Some((spans_done, e as int)));
                    let p = j;
                    if p < s.len() && s[p] == 61 {
                        let q = skip_spaces(s, p + 1);
                        if q < s.len() && s[q] == 48 {
                            let fin = skip_spaces(s, q + 1);
                            if fin == s.len() {
                                let text_all = vstd::slice::slice_to_vec(s);
                                assert(equation_spans(s@) == Some(spans_done));
                                return Ok(
                                    ParseNode { rule: Rule::equation, text: text_all, children },
                                );
                            }
                            return Err(SyntaxError { pos: fin });
                        }
                        return Err(SyntaxError { pos: q });
                    }
                    return Err(SyntaxError { pos: p });
                }
            },
        }
    }
}

/// Where the scan of a file gives up: inside the first non-blank line
/// that is not an equation.
pub open spec fn file_err_pos(s: Seq<u8>, i: int) -> int
    recommends
        0 <= i <= s.len(),
    decreases s.len() - i when 0 <= i <= s.len()
{
    if i >= s.len() {
        0
    } else {
        let e = line_run_end(s, i);
        let blank = space_run_end(s, i) == e;
        if !blank && !matches_equation(s.subrange(i, e)) {
            i + equation_err_pos(s.subrange(i, e))
        } else {
            if e < s.len() {
                if i <= e && e + 1 <= s.len() {
                    file_err_pos(s, e + 1)
                } else {
                    0
                }
            } else {
                0
            }
        }
    }
}

fn parse_file_slice(s: &[u8]) -> (r: Result<ParseNode, SyntaxError>)
    ensures
        match r {
            Ok(node) => matches_file(s@) && node.text@ == s@ && file_node_ok(node),
            Err(e) => !matches_file(s@) && e.pos as int == file_err_pos(s@, 0) && e.pos
                <= s@.len(),
        },
{
    let mut children: Vec<ParseNode> = Vec::new();
    let ghost mut lines_done: Seq<(int, int)> = Seq::empty();
    let mut i: usize = 0;
    while i < s.len()
        invariant
            i <= s@.len(),
            matches_file(s@) == matches_file_from(s@, i as int),
            file_err_pos(s@, 0) == file_err_pos(s@, i as int),
            matches_file_from(s@, i as int) ==> file_eq_lines(s@, 0) == lines_done
                + file_eq_lines(s@, i as int),
            children@.len() == lines_done.len(),
            forall|j: int|
                0 <= j < lines_done.len() ==> {
                    &&& (#[trigger] children@[j]).text@ == s@.subrange(
                        lines_done[j].0,
                        lines_done[j].1,
                    )
                    &&& equation_node_ok(children@[j])
                },
        decreases s@.len() - i,
    {
        let e = line_run(s, i);
        let b = skip_spaces(s, i);
        proof {
            lemma_space_run_end(s@, i as int);
        }
        if b == e {
            // A blank line: no child node.
        } else {
            let line_slice = vstd::slice::slice_subrange(s, i, e);
            let line = vstd::slice::slice_to_vec(line_slice);
            match parse_equation_slice(line.as_slice()) {
                Ok(eq_node) => {
                    children.push(eq_node);
                    proof {
                        lines_done = lines_done + seq![(i as int, e as int)];
                    }
                },
                Err(err) => {
                    return Err(SyntaxError { pos: i + err.pos });
                },
            }
        }
        if e < s.len() {
            i = e + 1;
        } else {
            i = e;
        }
    }
    let text_all = vstd::slice::slice_to_vec(s);
    return Ok(ParseNode { rule: Rule::file, text: text_all, children });
}

/// Where matching a whole input against a term rule gives up: inside
/// the term, at trailing text, or (for a term of the wrong kind) at
/// the term's start.
pub open spec fn term_rule_err_pos(s: Seq<u8>, rule: Rule) -> int {
    let j = space_run_end(s, 0);
    match signed_core(s, j) {
        None => signed_err_pos(s, j),
        Some((k, e)) => {
            let t = space_run_end(s, e);
            if t != s.len() {
                t
            } else {
                j
            }
        },
    }
}

/// The offending byte offset when `parse` rejects an input.
pub open spec fn parse_err_pos(rule: Rule, s: Seq<u8>) -> int {
    match rule {
        Rule::number => number_err_pos(s),
        Rule::quad_term | Rule::linear_term | Rule::constant_term | Rule::term => term_rule_err_pos(
            s,
            rule,
        ),
        Rule::equation => equation_err_pos(s),
        Rule::file => file_err_pos(s, 0),
    }
}

/// What the node handed back for each rule looks like.
pub open spec fn parse_node_ok(rule: Rule, node: ParseNode, s: Seq<u8>) -> bool {
    &&& node.text@ == s
    &&& match rule {
        Rule::number => node.rule == Rule::number && node.children@.len() == 0,
        Rule::quad_term | Rule::linear_term | Rule::constant_term => term_node_ok(node)
            && node.rule == rule,
        Rule::term => term_node_ok(node),
        Rule::equation => equation_node_ok(node),
        Rule::file => file_node_ok(node),
    }
}

/// Idempotence of term matching: the exact text of any term node of a
/// well-formed equation node matches the term rule again on its own,
/// with the same rule tag — so re-parsing it gives an identical node.
pub proof fn lemma_term_reparse(n: ParseNode, i: int)
    requires
        equation_node_ok(n),
        0 <= i < n.children@.len(),
    ensures
        matches_term(n.children@[i].text@),
        matches_term_kind(n.children@[i].text@, n.children@[i].rule),
        forall|k: Rule| matches_term_kind(n.children@[i].text@, k) ==> k == n.children@[i].rule,
{
    assert(term_node_ok(n.children@[i]));
}

/// The grammar: matches a whole input against one rule.
pub struct Grammar;

impl Grammar {
    /// Match all of `input` against `rule` and hand back the parse
    /// tree, or a syntax error if the input does not fit the rule.
    pub fn parse(rule: Rule, input: &[u8]) -> (r: Result<ParseNode, SyntaxError>)
        ensures
            r is Ok <==> rule_matches(rule, input@),
            match r {
                Ok(node) => parse_node_ok(rule, node, input@),
                Err(e) => e.pos as int == parse_err_pos(rule, input@) && e.pos <= input@.len(),
            },
    {
        match rule {
            Rule::number => {
                assert(input@.subrange(0, input@.len() as int) =~= input@);
                let bad = if input.len() > 0 && (input[0] == 43 || input[0] == 45) {
                    check_unsigned_pos(input, 1, input.len())
                } else {
                    check_unsigned_pos(input, 0, input.len())
                };
                match bad {
                    None => {
                        let text = vstd::slice::slice_to_vec(input);
                        Ok(ParseNode { rule: Rule::number, text, children: Vec::new() })
                    },
                    Some(p) => Err(SyntaxError { pos: p }),
                }
            },
            Rule::quad_term | Rule::linear_term | Rule::constant_term | Rule::term => {
                let j = skip_spaces(input, 0);
                match signed_core_at(input, j) {
                    Ok((k, e)) => {
                        let t = skip_spaces(input, e);
                        if t != input.len() {
                            return Err(SyntaxError { pos: t });
                        }
                        let kind_ok = match rule {
                            Rule::term => true,
                            _ => k == rule,
                        };
                        if kind_ok {
                            let text = vstd::slice::slice_to_vec(input);
                            Ok(ParseNode { rule: k, text, children: Vec::new() })
                        } else {
                            Err(SyntaxError { pos: j })
                        }
                    },
                    Err(p) => Err(SyntaxError { pos: p }),
                }
            },
            Rule::equation => parse_equation_slice(input),
            Rule::file => parse_file_slice(input),
        }
    }
}

} // verus!

