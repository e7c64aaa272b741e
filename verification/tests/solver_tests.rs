use quadratic_equation_parser::extract_coeff;
use quadratic_equation_parser::linear_root;
use quadratic_equation_parser::process_pair;
use quadratic_equation_parser::ParseNode;
use quadratic_equation_parser::parse_const;
use quadratic_equation_parser::parse_term;
use quadratic_equation_parser::solve;
use quadratic_equation_parser::Decimal;
use quadratic_equation_parser::Grammar;
use quadratic_equation_parser::ParserError;
use quadratic_equation_parser::Rule;
use quadratic_equation_parser::Solution;
use quadratic_equation_parser::SolveError;
use quadratic_equation_parser::Unit;

fn dec(num: i128, scale: u32) -> Decimal {
    Decimal { num, scale }
}

fn to_f64(d: &Decimal) -> f64 {
    d.num as f64 / 10f64.powi(d.scale as i32)
}

fn roots_of(sol: &Solution) -> (f64, f64) {
    match sol {
        Solution::RealRoots { neg_b, disc, two_a } => {
            let nb = to_f64(neg_b);
            let sq = to_f64(disc).sqrt();
            let ta = to_f64(two_a);
            ((nb + sq) / ta, (nb - sq) / ta)
        }
        _ => panic!("expected real roots"),
    }
}

#[test]
fn test_solve_two_roots() {
    // x^2 - 3x + 2 = 0 has the roots {2, 1}.
    let sol = solve(&dec(1, 0), &dec(-3, 0), &dec(2, 0)).unwrap();
    let (x1, x2) = roots_of(&sol);
    let mut pair = [x1, x2];
    pair.sort_by(|p, q| p.partial_cmp(q).unwrap());
    assert_eq!(pair, [1.0, 2.0]);
}

#[test]
fn test_solve_no_real_roots() {
    // x^2 + 1 = 0: the discriminant is -4.
    let sol = solve(&dec(1, 0), &dec(0, 0), &dec(1, 0)).unwrap();
    assert!(matches!(sol, Solution::NoRealRoots));
}

#[test]
fn test_solve_degenerate_linear_fallback() {
    // 2x - 4 = 0 is not quadratic; the linear fallback gives x = 2.
    let sol = solve(&dec(0, 0), &dec(2, 0), &dec(-4, 0)).unwrap();
    assert!(matches!(sol, Solution::Degenerate));
    let root = linear_root(&dec(2, 0), &dec(-4, 0)).unwrap().unwrap();
    assert_eq!(root.num as f64 / root.den as f64, 2.0);
}

#[test]
fn test_linear_root_none_when_b_zero() {
    let root = linear_root(&dec(0, 0), &dec(-4, 0)).unwrap();
    assert!(root.is_none());
}

#[test]
fn test_equation_to_roots() {
    // The full pipeline: text, coefficients, roots.
    let tree = Grammar::parse(Rule::equation, "x^2+3x+2=0".as_bytes()).unwrap();
    let (a, b, c) = extract_coeff(&tree).unwrap();
    assert_eq!(to_f64(&a), 1.0);
    assert_eq!(to_f64(&b), 3.0);
    assert_eq!(to_f64(&c), 2.0);
    let sol = solve(&a, &b, &c).unwrap();
    let (x1, x2) = roots_of(&sol);
    let mut pair = [x1, x2];
    pair.sort_by(|p, q| p.partial_cmp(q).unwrap());
    assert_eq!(pair, [-2.0, -1.0]);
}

#[test]
fn test_invalid_inputs_fail_grammar() {
    let invalid = ["x^3+3x+2=0", "2y^2+3y+1=0", "x^2++3x=0", "x^2+3x=", "5=9"];
    for input in invalid {
        assert!(Grammar::parse(Rule::equation, input.as_bytes()).is_err());
    }
}

#[test]
fn test_term_reparse_identical() {
    // Re-parsing the exact text of a matched term node against the
    // term rule matches again, with the same tag and text.
    let tree = Grammar::parse(Rule::equation, "0.5*x^2 - 1.2*x + 3 = 0".as_bytes()).unwrap();
    assert_eq!(tree.children.len(), 3);
    for child in &tree.children {
        let again = Grammar::parse(Rule::term, &child.text).unwrap();
        assert_eq!(again.rule, child.rule);
        assert_eq!(again.text, child.text);
    }
}

#[test]
fn test_term_literals_roundtrip() {
    // Matching a valid term literal consumes exactly the full literal.
    let literals = ["x^2", "-3x^2", "2x", "5", "-1.5"];
    for input in literals {
        let node = Grammar::parse(Rule::term, input.as_bytes()).unwrap();
        assert_eq!(node.text, input.as_bytes());
    }
}

#[test]
fn test_extract_number_too_large() {
    let line = "99999999999999999999999999999999999999999*x^2+1=0";
    let tree = Grammar::parse(Rule::equation, line.as_bytes()).unwrap();
    let r = extract_coeff(&tree);
    assert!(matches!(r, Err(ParserError::NumberTooLarge { .. })));
}

#[test]
fn test_term_values_exact() {
    assert_eq!(parse_term("-3.5*x^2".as_bytes(), Unit::Quad).unwrap(), dec(-35, 1));
    assert_eq!(parse_term("x^2".as_bytes(), Unit::Quad).unwrap(), dec(1, 0));
    assert_eq!(parse_term("-x".as_bytes(), Unit::Linear).unwrap(), dec(-1, 0));
    assert_eq!(parse_term("+5*x".as_bytes(), Unit::Linear).unwrap(), dec(5, 0));
    assert_eq!(parse_term("2x".as_bytes(), Unit::Linear).unwrap(), dec(2, 0));
    assert_eq!(parse_const("  7  ".as_bytes()).unwrap(), dec(7, 0));
    assert_eq!(parse_const("- 0.25".as_bytes()).unwrap(), dec(-25, 2));
}

#[test]
fn test_term_value_errors() {
    let bad = parse_const("abc".as_bytes());
    assert!(matches!(bad, Err(ParserError::ParseNumber { .. })));
    let huge = "12345678901234567890123456789012345678901234567890";
    match parse_const(huge.as_bytes()) {
        Err(ParserError::NumberTooLarge { input }) => assert_eq!(input, huge.as_bytes()),
        other => panic!("expected a too-large error, got {:?}", other),
    }
}

#[test]
fn test_const_error_carries_cleaned_text() {
    // The constant parser's error carries the whole cleaned text,
    // sign included, as the offending substring.
    for text in ["2..45", "3.4.5", "--2", "8--e3"] {
        match parse_const(text.as_bytes()) {
            Err(ParserError::ParseNumber { input }) => assert_eq!(input, text.as_bytes()),
            other => panic!("expected a malformed-number error, got {:?}", other),
        }
    }
    match parse_const("- 2 . 3 .".as_bytes()) {
        Err(ParserError::ParseNumber { input }) => assert_eq!(input, "-2.3.".as_bytes()),
        other => panic!("expected a malformed-number error, got {:?}", other),
    }
}

#[test]
fn test_term_error_carries_remainder() {
    // The term parser's error carries the numeric remainder after the
    // sign and the unit suffix have been stripped.
    match parse_term("-2..45*x".as_bytes(), Unit::Linear) {
        Err(ParserError::ParseNumber { input }) => assert_eq!(input, "2..45".as_bytes()),
        other => panic!("expected a malformed-number error, got {:?}", other),
    }
}

#[test]
fn test_error_leaves_accumulator_unchanged() {
    // A tree whose second term is too large to hold: the error must
    // leave the caller's running totals exactly as they were.
    let good = ParseNode {
        rule: Rule::quad_term,
        text: "2*x^2".as_bytes().to_vec(),
        children: Vec::new(),
    };
    let huge = ParseNode {
        rule: Rule::quad_term,
        text: "99999999999999999999999999999999999999999*x^2".as_bytes().to_vec(),
        children: Vec::new(),
    };
    let parent = ParseNode {
        rule: Rule::equation,
        text: Vec::new(),
        children: vec![good, huge],
    };
    let mut coeff = (dec(7, 0), dec(8, 0), dec(9, 0));
    let r = process_pair(&parent, &mut coeff);
    assert!(matches!(r, Err(ParserError::NumberTooLarge { .. })));
    assert_eq!(coeff, (dec(7, 0), dec(8, 0), dec(9, 0)));
}

#[test]
fn test_syntax_error_positions() {
    // The syntax error names the byte where the scan gave up.
    let e = Grammar::parse(Rule::equation, "x^2++3*x=0".as_bytes()).unwrap_err();
    assert_eq!(e.pos, 4);
    let e = Grammar::parse(Rule::equation, "5=9".as_bytes()).unwrap_err();
    assert_eq!(e.pos, 2);
    let e = Grammar::parse(Rule::number, "3.4.5".as_bytes()).unwrap_err();
    assert_eq!(e.pos, 3);
    let e = Grammar::parse(Rule::number, "--2".as_bytes()).unwrap_err();
    assert_eq!(e.pos, 1);
    let e = Grammar::parse(Rule::equation, "x^3+1=0".as_bytes()).unwrap_err();
    assert_eq!(e.pos, 2);
}

#[test]
fn test_repeated_terms_sum() {
    // Repeated terms of one kind are summed, not overwritten.
    let tree = Grammar::parse(Rule::equation, "x^2+x^2+1=0".as_bytes()).unwrap();
    let (a, b, c) = extract_coeff(&tree).unwrap();
    assert_eq!(to_f64(&a), 2.0);
    assert_eq!(to_f64(&b), 0.0);
    assert_eq!(to_f64(&c), 1.0);
}

#[test]
fn test_file_extraction_sums_all_lines() {
    let tree = Grammar::parse(Rule::file, "x^2+1=0\n2*x^2-1=0\n".as_bytes()).unwrap();
    let (a, b, c) = extract_coeff(&tree).unwrap();
    assert_eq!(to_f64(&a), 3.0);
    assert_eq!(to_f64(&b), 0.0);
    assert_eq!(to_f64(&c), 0.0);
}

#[test]
fn test_file_blank_lines() {
    let tree = Grammar::parse(Rule::file, "x^2+1=0\n   \n\n2x-1=0\n".as_bytes()).unwrap();
    assert_eq!(tree.children.len(), 2);
}

#[test]
fn test_mixed_order_equation() {
    // Terms may come in any order; each lands in its own coefficient.
    let tree = Grammar::parse(Rule::equation, "x-2*x^2-7=0".as_bytes()).unwrap();
    let (a, b, c) = extract_coeff(&tree).unwrap();
    assert_eq!(to_f64(&a), -2.0);
    assert_eq!(to_f64(&b), 1.0);
    assert_eq!(to_f64(&c), -7.0);
}

#[test]
fn test_solve_too_large() {
    let sol = solve(&dec(1, 0), &dec(i128::MAX, 0), &dec(1, 0));
    assert_eq!(sol, Err(SolveError::TooLarge));
}

#[test]
fn test_double_root_exact() {
    // x^2 - 2x + 1 = 0: the discriminant is exactly zero.
    let sol = solve(&dec(1, 0), &dec(-2, 0), &dec(1, 0)).unwrap();
    match &sol {
        Solution::RealRoots { disc, .. } => assert_eq!(disc.num, 0),
        _ => panic!("expected real roots"),
    }
    let (x1, x2) = roots_of(&sol);
    assert_eq!(x1, 1.0);
    assert_eq!(x2, 1.0);
}

#[test]
fn test_fractional_coefficients_exact() {
    let tree = Grammar::parse(Rule::equation, "0.5*x^2 - 1.2*x + 3 = 0".as_bytes()).unwrap();
    let (a, b, c) = extract_coeff(&tree).unwrap();
    assert_eq!(a, dec(5, 1));
    assert_eq!(b, dec(-12, 1));
    assert_eq!(c, dec(3, 0));
}
