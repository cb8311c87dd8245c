use vstd::prelude::*;
use crate::expr::LambdaExpr;
use crate::reduction::{normal_form_within, step};

verus! {

/// Identity of the function variable `f` of a Church numeral.
pub const F_ID: usize = 102;

/// Identity of the base variable `x` of a Church numeral.
pub const X_ID: usize = 120;

/// `f (f (... x))` with `n` applications.
pub open spec fn church_body(n: nat) -> LambdaExpr
    decreases n,
{
    if n == 0 {
        LambdaExpr::Var(X_ID)
    } else {
        LambdaExpr::App(Box::new(LambdaExpr::Var(F_ID)), Box::new(church_body((n - 1) as nat)))
    }
}

/// The Church numeral `λf.λx.f (f (... x))`.
pub open spec fn church_numeral(n: nat) -> LambdaExpr {
    LambdaExpr::Abs(F_ID, Box::new(LambdaExpr::Abs(X_ID, Box::new(church_body(n)))))
}

/// The count that decoding a numeral reads: under an abstraction it skips to
/// the grandchild (the body of a second abstraction, or the function of an
/// application); an application adds one and goes on with its argument.
pub open spec fn church_count(t: LambdaExpr) -> nat
    decreases t,
{
    match t {
        LambdaExpr::Var(_) => 0,
        LambdaExpr::Abs(_, body) => match *body {
            LambdaExpr::Abs(_, inner) => church_count(*inner),
            LambdaExpr::App(f, _) => church_count(*f),
            LambdaExpr::Var(_) => 0,
        },
        LambdaExpr::App(_, a) => 1 + church_count(*a),
    }
}

proof fn lemma_church_body_normal(n: nat)
    ensures
        step(church_body(n)) == (church_body(n), false),
        church_count(church_body(n)) == n,
    decreases n,
{
    if n > 0 {
        lemma_church_body_normal((n - 1) as nat);
        let f = LambdaExpr::Var(F_ID);
        assert(step(f) == (f, false));
        assert(church_body(n) == LambdaExpr::App(Box::new(f), Box::new(church_body((n - 1) as nat))));
    }
}

/// A Church numeral is its own normal form, and decoding it gives back the
/// number: reducing and then decoding the numeral of `n` yields `n`.
pub proof fn lemma_church_round_trip(n: nat, fuel: nat)
    ensures
        step(church_numeral(n)) == (church_numeral(n), false),
        normal_form_within(church_numeral(n), fuel) == Some(church_numeral(n)),
        church_count(church_numeral(n)) == n,
{
    lemma_church_body_normal(n);
    let inner = LambdaExpr::Abs(X_ID, Box::new(church_body(n)));
    assert(step(inner) == (inner, false));
    assert(step(church_numeral(n)) == (church_numeral(n), false));
}

/// The body of a Church numeral: `n` applications of `f` to `x`.
pub fn church_inner(x: i32) -> (r: LambdaExpr)
    requires
        x >= 0,
    ensures
        r == church_body(x as nat),
    decreases x,
{
    if x == 0 {
        LambdaExpr::Var(X_ID)
    } else {
        LambdaExpr::App(Box::new(LambdaExpr::Var(F_ID)), Box::new(church_inner(x - 1)))
    }
}

/// The Church numeral of `x`.
pub fn church(x: i32) -> (r: LambdaExpr)
    requires
        x >= 0,
    ensures
        r == church_numeral(x as nat),
{
    LambdaExpr::Abs(F_ID, Box::new(LambdaExpr::Abs(X_ID, Box::new(church_inner(x)))))
}

/// Decodes a Church numeral in normal form; other terms give some count
/// without failing.  The count saturates at `i32::MAX`.
pub fn unchurch(x: &LambdaExpr) -> (r: i32)
    ensures
        r as int == if church_count(*x) <= i32::MAX { church_count(*x) as int } else { i32::MAX as int },
    decreases x,
{
    match x {
        LambdaExpr::Var(_) => 0,
        LambdaExpr::Abs(_, body) => match &**body {
            LambdaExpr::Abs(_, inner) => unchurch(&**inner),
            LambdaExpr::App(f, _) => unchurch(&**f),
            LambdaExpr::Var(_) => 0,
        },
        LambdaExpr::App(_, a) => {
            let v = unchurch(&**a);
            if v < i32::MAX {
                v + 1
            } else {
                v
            }
        },
    }
}

} // verus!
