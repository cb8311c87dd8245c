use lambda_engine::combinators::{
    add_combinator, div_combinator, fac_combinator, iszero_combinator, mul_combinator,
    pred_combinator, sub_combinator,
};
use lambda_engine::decoding::{
    arithmetic_to_lambda, interpret_expr, response_terms, space_factorials, CompileError,
};
use lambda_engine::diagrams::{construct_diagram, diagram_of, Diagram, Direction, Line, Passthrough};
use lambda_engine::expr::{decode_id, ExprType, LambdaExpr};
use lambda_engine::numerals::{church, church_inner, unchurch};
use lambda_engine::reduction::{
    beta_reduce, beta_reduce_step, binders_in_range, has_redex, is_steppable, reduction_trace,
    substitute,
};

const BOUND: usize = 1_000_000;

fn parse(text: &str) -> Option<LambdaExpr> {
    interpret_expr(&text.to_string())
}

fn normal_value(input: &str) -> i32 {
    let mut t = arithmetic_to_lambda(&input.to_string()).unwrap();
    assert!(beta_reduce(&mut t, BOUND));
    unchurch(&t)
}

fn var(c: char) -> LambdaExpr {
    LambdaExpr::Var(c as usize)
}

fn abs(c: char, body: LambdaExpr) -> LambdaExpr {
    LambdaExpr::Abs(c as usize, Box::new(body))
}

fn app(f: LambdaExpr, a: LambdaExpr) -> LambdaExpr {
    LambdaExpr::App(Box::new(f), Box::new(a))
}

#[test]
fn identity_applied_to_identity_steps_once() {
    let mut t = parse("(λx.x)(λy.y)").unwrap();
    assert!(beta_reduce_step(&mut t));
    assert_eq!(t.to_string(), "λy.y");
    assert!(!beta_reduce_step(&mut t));
    assert_eq!(t.to_string(), "λy.y");
}

#[test]
fn one_plus_one_is_two() {
    assert_eq!(normal_value("1 + 1"), 2);
}

#[test]
fn two_plus_three_is_five() {
    assert_eq!(normal_value("2 + 3"), 5);
}

#[test]
fn six_minus_two_reduces_to_numeral_four() {
    let mut t = arithmetic_to_lambda(&"6 - 2".to_string()).unwrap();
    assert!(beta_reduce(&mut t, BOUND));
    assert_eq!(unchurch(&t), 4);
    // The numeral for four, its base variable one generation on.
    assert_eq!(t.to_string(), "λf.λx1.(f)((f)((f)((f)(x1))))");
}

#[test]
fn three_times_four_is_twelve() {
    assert_eq!(normal_value("3 * 4"), 12);
}

#[test]
fn factorial_of_five_is_one_hundred_twenty() {
    assert_eq!(normal_value("5 !"), 120);
}

#[test]
fn prefix_factorial_marker_compiles_alike() {
    let postfix = arithmetic_to_lambda(&"5 !".to_string()).unwrap();
    let prefix = arithmetic_to_lambda(&"! 5".to_string()).unwrap();
    assert!(postfix == prefix);
    assert!(postfix == app(fac_combinator(), church(5)));
}

#[test]
fn seven_divided_by_two_is_three() {
    assert_eq!(normal_value("7 / 2"), 3);
}

#[test]
fn operators_apply_from_the_right() {
    // `2 * 3 + 1` is `(2 * 3) + 1`: the rightmost pair is applied last.
    assert_eq!(normal_value("2 * 3 + 1"), 7);
    let t = arithmetic_to_lambda(&"2 * 3 + 1".to_string()).unwrap();
    let left = arithmetic_to_lambda(&"2 * 3".to_string()).unwrap();
    assert!(t == app(app(add_combinator(), left), church(1)));
}

#[test]
fn single_token_is_its_numeral() {
    let t = arithmetic_to_lambda(&"3".to_string()).unwrap();
    assert!(t == church(3));
    assert_eq!(t.to_string(), "λf.λx.(f)((f)((f)(x)))");
}

#[test]
fn unknown_operator_is_reported() {
    assert_eq!(
        arithmetic_to_lambda(&"2 % 3".to_string()).unwrap_err(),
        CompileError::UnknownOperator
    );
}

#[test]
fn bad_operands_are_reported() {
    assert_eq!(arithmetic_to_lambda(&"".to_string()).unwrap_err(), CompileError::BadOperand);
    assert_eq!(arithmetic_to_lambda(&"a + 1".to_string()).unwrap_err(), CompileError::BadOperand);
    assert_eq!(arithmetic_to_lambda(&"+ 1".to_string()).unwrap_err(), CompileError::BadOperand);
    assert_eq!(arithmetic_to_lambda(&"1 + x".to_string()).unwrap_err(), CompileError::BadOperand);
    assert_eq!(
        arithmetic_to_lambda(&"2147483648".to_string()).unwrap_err(),
        CompileError::BadOperand
    );
    // The operand is read before the operator: an empty operator token is unknown.
    assert_eq!(
        arithmetic_to_lambda(&"1  1".to_string()).unwrap_err(),
        CompileError::UnknownOperator
    );
}

#[test]
fn combinators_read_back_from_their_text() {
    let cases = [
        ("λm.λn.λf.λx.mf(nfx)", add_combinator()),
        ("λm.λn.λf.λx.m(nf)x", mul_combinator()),
        ("λn.λf.λx.n(λg.λh.h(gf))(λu.x)(λu.u)", pred_combinator()),
        ("λm.λn.n(λn.λf.λx.n(λg.λh.h(gf))(λu.x)(λu.u))m", sub_combinator()),
        ("λn.n(λx.(λa.λb.b))(λa.λb.a)", iszero_combinator()),
        ("(λn.((λf.(λx.xx)(λx.f(xx)))(λc.λn.λm.λf.λx.(λd.(λn.n(λx.(λa.λb.b))(λa.λb.a))d((λf.λx.x)fx)(f(cdmfx)))((λm.λn.n(λn.λf.λx.n(λg.λh.h(gf))(λu.x)(λu.u))m)nm)))((λn.λf.λx.f(nfx))n))", div_combinator()),
        ("(λx.(λy.x(yy))(λy.x(yy)))(λf.λn.((λn.n(λx.(λa.λb.b))(λa.λb.a))n)(λf.λx.(f)(x))((λm.λn.λf.λx.m(nf)x)n(f((λn.λf.λx.n(λg.λh.h(gf))(λu.x)(λu.u))n))))", fac_combinator()),
    ];
    for (text, term) in cases.iter() {
        let parsed = parse(text).unwrap();
        assert!(parsed == *term, "{}", text);
        let printed = term.to_string();
        assert!(parse(&printed).unwrap() == *term, "{}", printed);
    }
}

#[test]
fn compiled_terms_round_trip_through_text() {
    for input in ["0", "4", "2 + 3", "6 - 2", "3 * 4", "5 !", "7 / 2", "1 + 2 * 3 - 4 / 1"] {
        let t = arithmetic_to_lambda(&input.to_string()).unwrap();
        assert!(parse(&t.to_string()).unwrap() == t, "{}", input);
    }
}

#[test]
fn generations_round_trip_through_text() {
    let t = LambdaExpr::Abs(
        1120,
        Box::new(app(LambdaExpr::Var(1120), LambdaExpr::Var(12102))),
    );
    assert_eq!(t.to_string(), "λx1.(x1)(f12)");
    assert!(parse("λx1.(x1)(f12)").unwrap() == t);
    assert!(parse("x25").unwrap() == LambdaExpr::Var(25120));
    assert!(parse("ab1").unwrap() == app(var('a'), LambdaExpr::Var(1098)));
}

#[test]
fn malformed_text_is_not_a_term() {
    assert!(parse("").is_none());
    assert!(parse("(x").is_none());
    assert!(parse("x)").is_none());
    assert!(parse("()").is_none());
    assert!(parse("λx").is_none());
    assert!(parse("λ.x").is_none());
    assert!(parse("1").is_none());
    assert!(parse("x99999999999999999999999").is_none());
}

#[test]
fn parse_strips_one_redundant_pair() {
    assert!(parse("(x)").unwrap() == var('x'));
    // Only one redundant pair is dropped.
    assert!(parse("((x))").is_none());
    assert!(parse("(λx.x)").unwrap() == abs('x', var('x')));
    assert!(parse("xy").unwrap() == app(var('x'), var('y')));
    assert!(parse("xyz").unwrap() == app(app(var('x'), var('y')), var('z')));
    assert!(parse("x(yz)").unwrap() == app(var('x'), app(var('y'), var('z'))));
}

#[test]
fn decode_id_prints_generations() {
    assert_eq!(decode_id(120), "x");
    assert_eq!(decode_id(1120), "x1");
    assert_eq!(decode_id(12102), "f12");
    assert_eq!(decode_id(65), "A");
}

#[test]
fn church_numerals_decode_after_reduction() {
    for n in 0..30 {
        let mut t = church(n);
        assert!(!has_redex(&t));
        assert!(beta_reduce(&mut t, 0));
        assert!(t == church(n));
        assert_eq!(unchurch(&t), n);
    }
}

#[test]
fn church_numeral_shape() {
    assert_eq!(church(0).to_string(), "λf.λx.x");
    assert_eq!(church(2).to_string(), "λf.λx.(f)((f)(x))");
    assert!(church_inner(1) == app(var('f'), var('x')));
    assert_eq!(church(0).expr_type(), ExprType::Abs);
}

#[test]
fn unchurch_of_other_terms_does_not_fail() {
    assert_eq!(unchurch(&var('x')), 0);
    assert_eq!(unchurch(&abs('x', var('x'))), 0);
    assert_eq!(unchurch(&app(var('f'), app(var('f'), var('x')))), 2);
}

#[test]
fn fixed_point_is_stable() {
    let mut t = arithmetic_to_lambda(&"2 + 2".to_string()).unwrap();
    assert!(beta_reduce(&mut t, BOUND));
    let normal = t.clone();
    for _ in 0..3 {
        assert!(!beta_reduce_step(&mut t));
        assert!(t == normal);
    }
}

#[test]
fn bounded_reduction_reports_running_out() {
    let omega = parse("(λx.xx)(λx.xx)").unwrap();
    let mut t = omega.clone();
    assert!(!beta_reduce(&mut t, 50));
    assert!(reduction_trace(&omega, 50).is_none());
    let mut u = parse("(λx.x)(λy.y)").unwrap();
    assert!(!beta_reduce(&mut u, 0));
    assert!(beta_reduce(&mut u, 1));
}

#[test]
fn step_reduces_sibling_redexes_together() {
    let mut t = parse("((λx.x)(a))((λy.y)(b))").unwrap();
    assert!(beta_reduce_step(&mut t));
    assert_eq!(t.to_string(), "(a)(b)");
}

#[test]
fn trace_lists_every_term() {
    let t = parse("((λx.x)(λy.y))(λz.z)").unwrap();
    let trace = reduction_trace(&t, 10).unwrap();
    let texts: Vec<String> = trace.iter().map(|t| t.to_string()).collect();
    assert_eq!(texts, vec!["((λx.x)(λy.y))(λz.z)", "(λy.y)(λz.z)", "λz.z"]);
}

#[test]
fn substitute_renames_a_shadowing_binder() {
    let mut t = abs('x', var('x'));
    substitute(&mut t, 'x' as usize, var('y'));
    assert!(t == LambdaExpr::Abs(1120, Box::new(LambdaExpr::Var(1120))));
    let mut u = app(var('x'), abs('z', var('x')));
    substitute(&mut u, 'x' as usize, var('y'));
    assert!(u == app(var('y'), abs('z', var('y'))));
}

#[test]
fn shadowed_binder_moves_a_generation_on() {
    let mut t = parse("(λx.λx.x)(y)").unwrap();
    assert!(beta_reduce_step(&mut t));
    assert_eq!(t.to_string(), "λx1.x1");
    assert!(binders_in_range(&t));
}

#[test]
fn term_model_accessors() {
    let t = app(var('f'), abs('x', var('x')));
    assert_eq!(t.expr_type(), ExprType::App);
    assert_eq!(t.id(), None);
    let kids = t.children();
    assert_eq!(kids.len(), 2);
    assert!(kids[0] == var('f'));
    assert_eq!(kids[1].id(), Some('x' as usize));
    assert_eq!(kids[1].children().len(), 1);
    assert_eq!(var('q').children().len(), 0);
    assert!(t != var('f'));
}

fn extents(n: i32) -> ((i64, i64), (i64, i64)) {
    let d = construct_diagram(&church(n), &Passthrough::top());
    (d.rightmost(), d.bottommost())
}

#[test]
fn numeral_zero_diagram() {
    let d = construct_diagram(&church(0), &Passthrough::top());
    assert_eq!(d.lines.len(), 3);
    assert_eq!(d.lines[0].origin, (10, 10));
    assert_eq!(d.lines[0].length, 10);
    assert_eq!(d.lines[0].direction, Direction::Vertical);
    assert_eq!(d.lines[1].origin, (0, 10));
    assert_eq!(d.lines[1].length, 20);
    assert_eq!(d.lines[1].direction, Direction::Horizontal);
    assert_eq!(d.lines[2].origin, (0, 0));
    assert_eq!(d.lines[2].length, 20);
    assert_eq!(d.rightmost(), (20, 10));
    assert_eq!(d.bottommost(), (10, 20));
}

#[test]
fn application_diagram() {
    // λx.x x: two stalks joined by a crossbar below them.
    let d = construct_diagram(&abs('x', app(var('x'), var('x'))), &Passthrough::top());
    let lines: Vec<((i64, i64), i64, Direction)> =
        d.lines.iter().map(|l| (l.origin, l.length, l.direction)).collect();
    assert_eq!(
        lines,
        vec![
            ((10, 0), 10, Direction::Vertical),
            ((30, 0), 10, Direction::Vertical),
            ((10, 10), 20, Direction::Vertical),
            ((30, 10), 10, Direction::Vertical),
            ((10, 20), 20, Direction::Horizontal),
            ((0, 0), 40, Direction::Horizontal),
        ]
    );
}

#[test]
fn numeral_diagram_extents_grow() {
    let mut last = extents(0);
    for n in 1..12 {
        let now = extents(n);
        assert!(now.0 .0 >= last.0 .0);
        assert!(now.1 .1 >= last.1 .1);
        last = now;
    }
    assert!(last.0 .0 > extents(0).0 .0);
}

#[test]
fn diagram_editing() {
    let mut d = Diagram { lines: vec![] };
    assert_eq!(d.rightmost(), (0, 0));
    d.add_line(Line { origin: (1, 2), length: 3, direction: Direction::Horizontal });
    d.add_lines(vec![Line { origin: (0, 0), length: 5, direction: Direction::Vertical }]);
    assert_eq!(d.rightmost(), (4, 2));
    assert_eq!(d.bottommost(), (0, 5));
    d.shift((10, 1));
    assert_eq!(d.lines[0].origin, (11, 3));
    assert_eq!(d.lines[1].endpoint(), (10, 6));
    let other = Diagram { lines: vec![Line { origin: (0, 9), length: 1, direction: Direction::Vertical }] };
    d.merge(other);
    assert_eq!(d.lines.len(), 3);
    assert_eq!(d.bottommost(), (0, 10));
}

#[test]
fn response_text_is_spaced_and_reduced() {
    assert_eq!(space_factorials(&"3!".to_string()), "3 !");
    assert_eq!(space_factorials(&"2 + 3".to_string()), "2 + 3");
    let terms = response_terms(&"3!".to_string(), BOUND).unwrap().unwrap();
    assert!(terms[0] == arithmetic_to_lambda(&"3 !".to_string()).unwrap());
    assert_eq!(unchurch(terms.last().unwrap()), 6);
    assert_eq!(
        response_terms(&"two plus two".to_string(), BOUND).unwrap_err(),
        CompileError::BadOperand
    );
}

#[test]
fn small_terms_may_be_stepped() {
    assert!(is_steppable(&church(3)));
    assert!(!is_steppable(&LambdaExpr::Abs(usize::MAX - 1, Box::new(var('x')))));
    assert_eq!(church(2).size_capped(100), 7);
    assert_eq!(church(2).size_capped(5), 6);
}

#[test]
fn open_terms_have_no_diagram() {
    assert!(diagram_of(&var('x')).is_none());
    assert!(diagram_of(&abs('y', var('x'))).is_none());
    let d = diagram_of(&church(0)).unwrap();
    assert!(d.ends_in_range());
    assert_eq!(d.rightmost(), (20, 10));
    assert!(var('x').well_formed());
    assert!(!LambdaExpr::Var(5).well_formed());
}
