use vstd::prelude::*;
use crate::expr::{valid_id, LambdaExpr, ID_STRIDE};

verus! {

/// Largest binder identity that a substitution may push one generation on.
pub const BINDER_LIMIT: usize = usize::MAX - ID_STRIDE;

/// Largest term, in nodes, that a bounded reduction takes a step on.
pub const TERM_SIZE_LIMIT: u64 = 50_000_000;

/// A term on which a bounded reduction may take a step: no binder would be
/// pushed past `BINDER_LIMIT` and the term has not outgrown
/// `TERM_SIZE_LIMIT`.
pub open spec fn steppable(t: LambdaExpr) -> bool {
    binders_within(t, BINDER_LIMIT as int) && t.size() <= TERM_SIZE_LIMIT
}

/// Every binder identity in `t` is at most `limit`.
pub open spec fn binders_within(t: LambdaExpr, limit: int) -> bool
    decreases t,
{
    match t {
        LambdaExpr::Var(_) => true,
        LambdaExpr::Abs(id, body) => id <= limit && binders_within(*body, limit),
        LambdaExpr::App(f, a) => binders_within(*f, limit) && binders_within(*a, limit),
    }
}

/// Replaces the free occurrences of `from` in `t` by `to`.  A binder of
/// `from` itself moves one generation on, and its own occurrences with it,
/// so that nothing under it matches `from` any more.
pub open spec fn subst(t: LambdaExpr, from: usize, to: LambdaExpr) -> LambdaExpr
    decreases t,
{
    match t {
        LambdaExpr::Var(id) => if id == from {
            to
        } else {
            t
        },
        LambdaExpr::Abs(id, body) => if id == from {
            LambdaExpr::Abs(
                (id + ID_STRIDE) as usize,
                Box::new(subst(*body, from, LambdaExpr::Var((from + ID_STRIDE) as usize))),
            )
        } else {
            LambdaExpr::Abs(id, Box::new(subst(*body, from, to)))
        },
        LambdaExpr::App(f, a) => LambdaExpr::App(
            Box::new(subst(*f, from, to)),
            Box::new(subst(*a, from, to)),
        ),
    }
}

/// One reduction step: a redex at the root is contracted; otherwise every
/// child takes a step of its own.  The flag tells whether anything changed.
pub open spec fn step(t: LambdaExpr) -> (LambdaExpr, bool)
    decreases t,
{
    match t {
        LambdaExpr::Var(_) => (t, false),
        LambdaExpr::Abs(id, body) => {
            let (b, p) = step(*body);
            (LambdaExpr::Abs(id, Box::new(b)), p)
        },
        LambdaExpr::App(f, a) => match *f {
            LambdaExpr::Abs(id, body) => (subst(*body, id, *a), true),
            _ => {
                let (f2, fun_moved) = step(*f);
                let (a2, arg_moved) = step(*a);
                (LambdaExpr::App(Box::new(f2), Box::new(a2)), fun_moved || arg_moved)
            },
        },
    }
}

/// The term after `n` steps.
pub open spec fn iterate(t: LambdaExpr, n: nat) -> LambdaExpr
    decreases n,
{
    if n == 0 {
        t
    } else {
        iterate(step(t).0, (n - 1) as nat)
    }
}

/// A step that makes no progress leaves the term as it is.
pub proof fn lemma_no_progress_fixed(t: LambdaExpr)
    ensures
        !step(t).1 ==> step(t).0 == t,
    decreases t,
{
    match t {
        LambdaExpr::Var(_) => {},
        LambdaExpr::Abs(_, body) => {
            lemma_no_progress_fixed(*body);
        },
        LambdaExpr::App(f, a) => {
            lemma_no_progress_fixed(*f);
            lemma_no_progress_fixed(*a);
        },
    }
}

/// Once repeated steps reach a term at which a step makes no progress, every
/// further step leaves that term unchanged and reports no progress again.
pub proof fn lemma_fixed_point_stays(t: LambdaExpr, n: nat, m: nat)
    requires
        !step(iterate(t, n)).1,
        n <= m,
    ensures
        iterate(t, m) == iterate(t, n),
        !step(iterate(t, m)).1,
    decreases m,
{
    if n < m {
        lemma_fixed_point_stays(t, n, (m - 1) as nat);
        lemma_iterate_last(t, (m - 1) as nat);
        lemma_no_progress_fixed(iterate(t, n));
    }
}

proof fn lemma_iterate_last(t: LambdaExpr, n: nat)
    ensures
        iterate(t, n + 1) == step(iterate(t, n)).0,
    decreases n,
{
    assert(iterate(t, n + 1) == iterate(step(t).0, n));
    if n > 0 {
        lemma_iterate_last(step(t).0, (n - 1) as nat);
        assert(iterate(t, n) == iterate(step(t).0, (n - 1) as nat));
    } else {
        assert(iterate(t, 0) == t);
        assert(iterate(step(t).0, 0) == step(t).0);
    }
}

/// The bounded reduction finds the first term of the sequence of steps at
/// which no step makes progress, and that term is a fixed point of `step`.
pub proof fn lemma_normal_form_is_fixed_point(t: LambdaExpr, fuel: nat)
    requires
        normal_form_within(t, fuel) is Some,
    ensures
        exists|n: nat|
            n <= fuel && normal_form_within(t, fuel) == Some(iterate(t, n)) && !step(
                #[trigger] iterate(t, n),
            ).1,
        step(normal_form_within(t, fuel)->0) == (normal_form_within(t, fuel)->0, false),
    decreases fuel,
{
    if !step(t).1 {
        assert(iterate(t, 0) == t);
        lemma_no_progress_fixed(t);
    } else {
        lemma_normal_form_is_fixed_point(step(t).0, (fuel - 1) as nat);
        let n = choose|n: nat|
            n <= fuel - 1 && normal_form_within(step(t).0, (fuel - 1) as nat) == Some(
                iterate(step(t).0, n),
            ) && !step(#[trigger] iterate(step(t).0, n)).1;
        assert(iterate(t, n + 1) == iterate(step(t).0, n));
    }
}

proof fn lemma_subst_wf(t: LambdaExpr, from: usize, to: LambdaExpr)
    requires
        t.wf(),
        to.wf(),
        valid_id(from),
        from <= BINDER_LIMIT,
    ensures
        subst(t, from, to).wf(),
    decreases t,
{
    match t {
        LambdaExpr::Var(_) => {},
        LambdaExpr::Abs(id, body) => {
            if id == from {
                let moved = (from + ID_STRIDE) as usize;
                assert(moved as int % 1000 == from as int % 1000);
                lemma_subst_wf(*body, from, LambdaExpr::Var(moved));
            } else {
                lemma_subst_wf(*body, from, to);
            }
        },
        LambdaExpr::App(f, a) => {
            lemma_subst_wf(*f, from, to);
            lemma_subst_wf(*a, from, to);
        },
    }
}

/// A step keeps every identity's base a letter, so every term of a
/// reduction can be printed.
pub proof fn lemma_step_keeps_wf(t: LambdaExpr)
    requires
        t.wf(),
        binders_within(t, BINDER_LIMIT as int),
    ensures
        step(t).0.wf(),
    decreases t,
{
    match t {
        LambdaExpr::Var(_) => {},
        LambdaExpr::Abs(_, body) => {
            lemma_step_keeps_wf(*body);
        },
        LambdaExpr::App(f, a) => match *f {
            LambdaExpr::Abs(id, body) => {
                assert(LambdaExpr::Abs(id, body).wf());
                assert(binders_within(LambdaExpr::Abs(id, body), BINDER_LIMIT as int));
                lemma_subst_wf(*body, id, *a);
            },
            _ => {
                lemma_step_keeps_wf(*f);
                lemma_step_keeps_wf(*a);
            },
        },
    }
}

/// Every term of a bounded reduction of a well-formed term is well formed.
pub proof fn lemma_trace_wf(t: LambdaExpr, fuel: nat)
    requires
        t.wf(),
        trace_within(t, fuel) is Some,
    ensures
        forall|i: int|
            0 <= i < trace_within(t, fuel)->0.len() ==> (#[trigger] trace_within(t, fuel)->0[i]).wf(),
    decreases fuel,
{
    if step(t).1 {
        lemma_step_keeps_wf(t);
        lemma_trace_wf(step(t).0, (fuel - 1) as nat);
        let rest = trace_within(step(t).0, (fuel - 1) as nat)->0;
        assert forall|i: int| 0 <= i < trace_within(t, fuel)->0.len() implies (
        #[trigger] trace_within(t, fuel)->0[i]).wf() by {
            if i > 0 {
                assert(trace_within(t, fuel)->0[i] == rest[i - 1]);
            }
        }
    }
}

/// Replaces the free occurrences of `from` in `expr` by `to`.
pub fn substitute(expr: &mut LambdaExpr, from: usize, to: LambdaExpr)
    requires
        from <= BINDER_LIMIT,
    ensures
        *final(expr) == subst(*old(expr), from, to),
{
    substitute_with(expr, from, &to);
}

/// As `substitute`, copying `to` only where an occurrence is replaced.
fn substitute_with(expr: &mut LambdaExpr, from: usize, to: &LambdaExpr)
    requires
        from <= BINDER_LIMIT,
    ensures
        *final(expr) == subst(*old(expr), from, *to),
    decreases *old(expr),
{
    let hit = match &*expr {
        LambdaExpr::Var(id) => *id == from,
        _ => false,
    };
    if hit {
        *expr = to.clone();
        return;
    }
    match expr {
        LambdaExpr::Var(_) => {},
        LambdaExpr::Abs(id, body) => {
            if *id == from {
                *id = from + ID_STRIDE;
                let renamed = LambdaExpr::Var(from + ID_STRIDE);
                substitute_with(&mut **body, from, &renamed);
            } else {
                substitute_with(&mut **body, from, to);
            }
        },
        LambdaExpr::App(f, a) => {
            substitute_with(&mut **f, from, to);
            substitute_with(&mut **a, from, to);
        },
    }
}

/// The term reached from `t` in at most `fuel` steps at which no step makes
/// progress; none when the fuel runs out first, or when a term on the way is
/// not `steppable`.
pub open spec fn normal_form_within(t: LambdaExpr, fuel: nat) -> Option<LambdaExpr>
    decreases fuel,
{
    if !step(t).1 {
        Some(t)
    } else if fuel == 0 || !steppable(t) {
        None
    } else {
        normal_form_within(step(t).0, (fuel - 1) as nat)
    }
}

/// The terms met on the way to `normal_form_within(t, fuel)`, from `t` to
/// that normal form, one per step.
pub open spec fn trace_within(t: LambdaExpr, fuel: nat) -> Option<Seq<LambdaExpr>>
    decreases fuel,
{
    if !step(t).1 {
        Some(seq![t])
    } else if fuel == 0 || !steppable(t) {
        None
    } else {
        match trace_within(step(t).0, (fuel - 1) as nat) {
            Some(rest) => Some(seq![t] + rest),
            None => None,
        }
    }
}

/// Whether every binder identity is at most `BINDER_LIMIT`.
pub fn binders_in_range(t: &LambdaExpr) -> (r: bool)
    ensures
        r == binders_within(*t, BINDER_LIMIT as int),
    decreases t,
{
    match t {
        LambdaExpr::Var(_) => true,
        LambdaExpr::Abs(id, body) => *id <= BINDER_LIMIT && binders_in_range(&**body),
        LambdaExpr::App(f, a) => binders_in_range(&**f) && binders_in_range(&**a),
    }
}

/// Whether a bounded reduction may take a step on `t`.
pub fn is_steppable(t: &LambdaExpr) -> (r: bool)
    ensures
        r == steppable(*t),
{
    let (in_range, size) = measure(t);
    in_range && size <= TERM_SIZE_LIMIT
}

/// In one pass: whether the binders are within `BINDER_LIMIT`, and the size
/// capped at `TERM_SIZE_LIMIT + 1`.
fn measure(t: &LambdaExpr) -> (r: (bool, u64))
    ensures
        r.0 == binders_within(*t, BINDER_LIMIT as int),
        r.1 == if t.size() <= TERM_SIZE_LIMIT { t.size() } else { (TERM_SIZE_LIMIT + 1) as nat },
    decreases t,
{
    match t {
        LambdaExpr::Var(_) => (true, 1),
        LambdaExpr::Abs(id, body) => {
            let (ok, n) = measure(&**body);
            let n = 1 + n;
            (*id <= BINDER_LIMIT && ok, if n <= TERM_SIZE_LIMIT { n } else { TERM_SIZE_LIMIT + 1 })
        },
        LambdaExpr::App(f, a) => {
            let (ok_f, n_f) = measure(&**f);
            let (ok_a, n_a) = measure(&**a);
            let n = 1 + n_f + n_a;
            (ok_f && ok_a, if n <= TERM_SIZE_LIMIT { n } else { TERM_SIZE_LIMIT + 1 })
        },
    }
}

/// Whether a step would make progress: the term holds a redex.
pub fn has_redex(t: &LambdaExpr) -> (r: bool)
    ensures
        r == step(*t).1,
    decreases t,
{
    match t {
        LambdaExpr::Var(_) => false,
        LambdaExpr::Abs(_, body) => has_redex(&**body),
        LambdaExpr::App(f, a) => match &**f {
            LambdaExpr::Abs(_, _) => true,
            _ => {
                let in_fun = has_redex(&**f);
                let in_arg = has_redex(&**a);
                in_fun || in_arg
            },
        },
    }
}

/// Performs one step in place and tells whether anything changed.
pub fn beta_reduce_step(expr: &mut LambdaExpr) -> (progressed: bool)
    requires
        binders_within(*old(expr), BINDER_LIMIT as int),
    ensures
        (*final(expr), progressed) == step(*old(expr)),
    decreases *old(expr),
{
    let redex_id = match &*expr {
        LambdaExpr::App(f, _) => match &**f {
            LambdaExpr::Abs(id, _) => Some(*id),
            _ => None,
        },
        _ => None,
    };
    match redex_id {
        Some(id) => {
            let ghost g = *expr;
            proof {
                if let LambdaExpr::App(f, _) = g {
                    assert(binders_within(*f, BINDER_LIMIT as int));
                }
            }
            let mut taken = LambdaExpr::Var(0);
            core::mem::swap(expr, &mut taken);
            match taken {
                LambdaExpr::App(f, a) => match *f {
                    LambdaExpr::Abs(_, body) => {
                        let mut b = *body;
                        substitute_with(&mut b, id, &*a);
                        *expr = b;
                    },
                    _ => {},
                },
                _ => {},
            }
            true
        },
        None => match expr {
            LambdaExpr::Var(_) => false,
            LambdaExpr::Abs(_, body) => beta_reduce_step(&mut **body),
            LambdaExpr::App(f, a) => {
                let fun_moved = beta_reduce_step(&mut **f);
                let arg_moved = beta_reduce_step(&mut **a);
                fun_moved || arg_moved
            },
        },
    }
}

/// Steps `e` until no step makes progress, at most `max_steps` times.
/// Returns whether a normal form was reached; `e` is then that normal form.
pub fn beta_reduce(e: &mut LambdaExpr, max_steps: usize) -> (r: bool)
    ensures
        r == normal_form_within(*old(e), max_steps as nat) is Some,
        r ==> Some(*final(e)) == normal_form_within(*old(e), max_steps as nat),
{
    let mut fuel: usize = max_steps;
    loop
        invariant
            normal_form_within(*e, fuel as nat) == normal_form_within(*old(e), max_steps as nat),
        decreases fuel,
    {
        if fuel == 0 || !is_steppable(e) {
            return !has_redex(e);
        }
        let ghost before = *e;
        if !beta_reduce_step(e) {
            proof {
                lemma_no_progress_fixed(before);
            }
            return true;
        }
        fuel = fuel - 1;
    }
}

/// The terms from `expr` to its normal form, one per step, when the normal
/// form is reached within `max_steps` steps.
pub fn reduction_trace(expr: &LambdaExpr, max_steps: usize) -> (r: Option<Vec<LambdaExpr>>)
    ensures
        r is Some == trace_within(*expr, max_steps as nat) is Some,
        r is Some ==> Some(r->0@) == trace_within(*expr, max_steps as nat),
{
    let mut cur = expr.clone();
    let mut out: Vec<LambdaExpr> = Vec::new();
    let mut fuel: usize = max_steps;
    loop
        invariant
            trace_within(*expr, max_steps as nat) == (match trace_within(cur, fuel as nat) {
                Some(rest) => Some(out@ + rest),
                None => None::<Seq<LambdaExpr>>,
            }),
        decreases fuel,
    {
        if !has_redex(&cur) {
            let ghost before = out@;
            let ghost last = cur;
            out.push(cur);
            proof {
                assert(out@ =~= before + seq![last]);
            }
            return Some(out);
        }
        if fuel == 0 || !is_steppable(&cur) {
            return None;
        }
        let ghost before = out@;
        let ghost prev = cur;
        out.push(cur.clone());
        beta_reduce_step(&mut cur);
        fuel = fuel - 1;
        proof {
            assert(out@ =~= before + seq![prev]);
            let rest = trace_within(cur, fuel as nat);
            if rest is Some {
                assert(out@ + rest->0 =~= before + (seq![prev] + rest->0));
            }
        }
    }
}

} // verus!
