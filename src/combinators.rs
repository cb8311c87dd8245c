//! The fixed combinators that arithmetic compiles to, each given by its
//! canonical text in a doc comment and built node by node.

use vstd::prelude::*;
use crate::expr::LambdaExpr;
use crate::numerals::{church, church_numeral};

verus! {

/// The variable named by a letter.
pub open spec fn mk_var(c: char) -> LambdaExpr {
    LambdaExpr::Var(c as usize)
}

/// The abstraction binding a letter.
pub open spec fn mk_abs(c: char, body: LambdaExpr) -> LambdaExpr {
    LambdaExpr::Abs(c as usize, Box::new(body))
}

/// The application of `f` to `a`.
pub open spec fn mk_app(f: LambdaExpr, a: LambdaExpr) -> LambdaExpr {
    LambdaExpr::App(Box::new(f), Box::new(a))
}

fn var(c: char) -> (r: LambdaExpr)
    requires
        'a' <= c <= 'z',
    ensures
        r == mk_var(c),
{
    LambdaExpr::Var(c as usize)
}

fn abs(c: char, body: LambdaExpr) -> (r: LambdaExpr)
    requires
        'a' <= c <= 'z',
    ensures
        r == mk_abs(c, body),
{
    LambdaExpr::Abs(c as usize, Box::new(body))
}

fn app(f: LambdaExpr, a: LambdaExpr) -> (r: LambdaExpr)
    ensures
        r == mk_app(f, a),
{
    LambdaExpr::App(Box::new(f), Box::new(a))
}

/// Addition: `λm.λn.λf.λx.mf(nfx)`.
pub open spec fn add_term() -> LambdaExpr {
    mk_abs(
        'm',
        mk_abs(
            'n',
            mk_abs(
                'f',
                mk_abs(
                    'x',
                    mk_app(
                        mk_app(mk_var('m'), mk_var('f')),
                        mk_app(mk_app(mk_var('n'), mk_var('f')), mk_var('x')),
                    ),
                ),
            ),
        ),
    )
}

/// Multiplication: `λm.λn.λf.λx.m(nf)x`.
pub open spec fn mul_term() -> LambdaExpr {
    mk_abs(
        'm',
        mk_abs(
            'n',
            mk_abs(
                'f',
                mk_abs(
                    'x',
                    mk_app(mk_app(mk_var('m'), mk_app(mk_var('n'), mk_var('f'))), mk_var('x')),
                ),
            ),
        ),
    )
}

/// Predecessor, through pairs: `λn.λf.λx.n(λg.λh.h(gf))(λu.x)(λu.u)`.
pub open spec fn pred_term() -> LambdaExpr {
    mk_abs(
        'n',
        mk_abs(
            'f',
            mk_abs(
                'x',
                mk_app(
                    mk_app(
                        mk_app(
                            mk_var('n'),
                            mk_abs(
                                'g',
                                mk_abs(
                                    'h',
                                    mk_app(mk_var('h'), mk_app(mk_var('g'), mk_var('f'))),
                                ),
                            ),
                        ),
                        mk_abs('u', mk_var('x')),
                    ),
                    mk_abs('u', mk_var('u')),
                ),
            ),
        ),
    )
}

/// Subtraction: the predecessor applied as often as the subtrahend says:
/// `λm.λn.n(PRED)m`.
pub open spec fn sub_term() -> LambdaExpr {
    mk_abs('m', mk_abs('n', mk_app(mk_app(mk_var('n'), pred_term()), mk_var('m'))))
}

/// Zero test: `λn.n(λx.(λa.λb.b))(λa.λb.a)`.
pub open spec fn iszero_term() -> LambdaExpr {
    mk_abs(
        'n',
        mk_app(
            mk_app(mk_var('n'), mk_abs('x', mk_abs('a', mk_abs('b', mk_var('b'))))),
            mk_abs('a', mk_abs('b', mk_var('a'))),
        ),
    )
}

/// Division: a fixed point that subtracts while the remainder is not zero:
/// `(λn.((λf.(λx.xx)(λx.f(xx)))(λc.λn.λm.λf.λx.(λd.ISZERO d((λf.λx.x)fx)(f(cdmfx)))(SUB n m)))((λn.λf.λx.f(nfx))n))`,
/// with `ISZERO` and `SUB` written out in full.
pub open spec fn div_term() -> LambdaExpr {
    mk_abs(
        'n',
        mk_app(
            mk_app(
                mk_abs(
                    'f',
                    mk_app(
                        mk_abs('x', mk_app(mk_var('x'), mk_var('x'))),
                        mk_abs('x', mk_app(mk_var('f'), mk_app(mk_var('x'), mk_var('x')))),
                    ),
                ),
                mk_abs(
                    'c',
                    mk_abs(
                        'n',
                        mk_abs(
                            'm',
                            mk_abs(
                                'f',
                                mk_abs(
                                    'x',
                                    mk_app(
                                        mk_abs(
                                            'd',
                                            mk_app(
                                                mk_app(
                                                    mk_app(iszero_term(), mk_var('d')),
                                                    mk_app(
                                                        mk_app(
                                                            mk_abs(
                                                                'f',
                                                                mk_abs('x', mk_var('x')),
                                                            ),
                                                            mk_var('f'),
                                                        ),
                                                        mk_var('x'),
                                                    ),
                                                ),
                                                mk_app(
                                                    mk_var('f'),
                                                    mk_app(
                                                        mk_app(
                                                            mk_app(
                                                                mk_app(mk_var('c'), mk_var('d')),
                                                                mk_var('m'),
                                                            ),
                                                            mk_var('f'),
                                                        ),
                                                        mk_var('x'),
                                                    ),
                                                ),
                                            ),
                                        ),
                                        mk_app(
                                            mk_app(
                                                mk_abs(
                                                    'm',
                                                    mk_abs(
                                                        'n',
                                                        mk_app(
                                                            mk_app(mk_var('n'), pred_term()),
                                                            mk_var('m'),
                                                        ),
                                                    ),
                                                ),
                                                mk_var('n'),
                                            ),
                                            mk_var('m'),
                                        ),
                                    ),
                                ),
                            ),
                        ),
                    ),
                ),
            ),
            mk_app(
                mk_abs(
                    'n',
                    mk_abs(
                        'f',
                        mk_abs(
                            'x',
                            mk_app(
                                mk_var('f'),
                                mk_app(mk_app(mk_var('n'), mk_var('f')), mk_var('x')),
                            ),
                        ),
                    ),
                ),
                mk_var('n'),
            ),
        ),
    )
}

/// Factorial: a fixed point over the zero test, multiplication and predecessor:
/// `(λx.(λy.x(yy))(λy.x(yy)))(λf.λn.((ISZERO)n)(λf.λx.(f)(x))((MUL)n(f((PRED)n))))`.
pub open spec fn fac_term() -> LambdaExpr {
    mk_app(
        mk_abs(
            'x',
            mk_app(
                mk_abs('y', mk_app(mk_var('x'), mk_app(mk_var('y'), mk_var('y')))),
                mk_abs('y', mk_app(mk_var('x'), mk_app(mk_var('y'), mk_var('y')))),
            ),
        ),
        mk_abs(
            'f',
            mk_abs(
                'n',
                mk_app(
                    mk_app(mk_app(iszero_term(), mk_var('n')), church_numeral(1)),
                    mk_app(
                        mk_app(mul_term(), mk_var('n')),
                        mk_app(mk_var('f'), mk_app(pred_term(), mk_var('n'))),
                    ),
                ),
            ),
        ),
    )
}

/// Builds `add_term()`.
pub fn add_combinator() -> (r: LambdaExpr)
    ensures
        r == add_term(),
{
    abs(
        'm',
        abs(
            'n',
            abs(
                'f',
                abs('x', app(app(var('m'), var('f')), app(app(var('n'), var('f')), var('x')))),
            ),
        ),
    )
}

/// Builds `mul_term()`.
pub fn mul_combinator() -> (r: LambdaExpr)
    ensures
        r == mul_term(),
{
    abs(
        'm',
        abs('n', abs('f', abs('x', app(app(var('m'), app(var('n'), var('f'))), var('x'))))),
    )
}

/// Builds `pred_term()`.
pub fn pred_combinator() -> (r: LambdaExpr)
    ensures
        r == pred_term(),
{
    abs(
        'n',
        abs(
            'f',
            abs(
                'x',
                app(
                    app(
                        app(
                            var('n'),
                            abs('g', abs('h', app(var('h'), app(var('g'), var('f'))))),
                        ),
                        abs('u', var('x')),
                    ),
                    abs('u', var('u')),
                ),
            ),
        ),
    )
}

/// Builds `sub_term()`.
pub fn sub_combinator() -> (r: LambdaExpr)
    ensures
        r == sub_term(),
{
    abs('m', abs('n', app(app(var('n'), pred_combinator()), var('m'))))
}

/// Builds `iszero_term()`.
pub fn iszero_combinator() -> (r: LambdaExpr)
    ensures
        r == iszero_term(),
{
    abs(
        'n',
        app(app(var('n'), abs('x', abs('a', abs('b', var('b'))))), abs('a', abs('b', var('a')))),
    )
}

/// Builds `div_term()`.
pub fn div_combinator() -> (r: LambdaExpr)
    ensures
        r == div_term(),
{
    abs(
        'n',
        app(
            app(
                abs(
                    'f',
                    app(
                        abs('x', app(var('x'), var('x'))),
                        abs('x', app(var('f'), app(var('x'), var('x')))),
                    ),
                ),
                abs(
                    'c',
                    abs(
                        'n',
                        abs(
                            'm',
                            abs(
                                'f',
                                abs(
                                    'x',
                                    app(
                                        abs(
                                            'd',
                                            app(
                                                app(
                                                    app(iszero_combinator(), var('d')),
                                                    app(
                                                        app(
                                                            abs('f', abs('x', var('x'))),
                                                            var('f'),
                                                        ),
                                                        var('x'),
                                                    ),
                                                ),
                                                app(
                                                    var('f'),
                                                    app(
                                                        app(
                                                            app(
                                                                app(var('c'), var('d')),
                                                                var('m'),
                                                            ),
                                                            var('f'),
                                                        ),
                                                        var('x'),
                                                    ),
                                                ),
                                            ),
                                        ),
                                        app(
                                            app(
                                                abs(
                                                    'm',
                                                    abs(
                                                        'n',
                                                        app(
                                                            app(var('n'), pred_combinator()),
                                                            var('m'),
                                                        ),
                                                    ),
                                                ),
                                                var('n'),
                                            ),
                                            var('m'),
                                        ),
                                    ),
                                ),
                            ),
                        ),
                    ),
                ),
            ),
            app(
                abs(
                    'n',
                    abs('f', abs('x', app(var('f'), app(app(var('n'), var('f')), var('x'))))),
                ),
                var('n'),
            ),
        ),
    )
}

/// Builds `fac_term()`.
pub fn fac_combinator() -> (r: LambdaExpr)
    ensures
        r == fac_term(),
{
    app(
        abs(
            'x',
            app(
                abs('y', app(var('x'), app(var('y'), var('y')))),
                abs('y', app(var('x'), app(var('y'), var('y')))),
            ),
        ),
        abs(
            'f',
            abs(
                'n',
                app(
                    app(app(iszero_combinator(), var('n')), church(1)),
                    app(
                        app(mul_combinator(), var('n')),
                        app(var('f'), app(pred_combinator(), var('n'))),
                    ),
                ),
            ),
        ),
    )
}

} // verus!
