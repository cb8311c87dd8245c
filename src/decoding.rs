use vstd::prelude::*;
use crate::combinators::{
    add_combinator, add_term, div_combinator, div_term, fac_combinator, fac_term, iszero_term,
    mk_abs, mk_app, mk_var, mul_combinator, mul_term, pred_term, sub_combinator, sub_term,
};
use crate::expr::{
    decimal, digit_char, id_base, id_generation, id_text, is_digit, is_letter, push_char, valid_id,
    LambdaExpr, ID_STRIDE,
};
use crate::numerals::{church, church_body, church_numeral, F_ID, X_ID};
use crate::reduction::{lemma_trace_wf, reduction_trace, trace_within};

verus! {

/// Change of nesting depth caused by one character.
pub open spec fn paren_delta(c: char) -> int {
    if c == '(' {
        1
    } else if c == ')' {
        -1
    } else {
        0
    }
}

/// Number of `(` minus number of `)`.
pub open spec fn depth(s: Seq<char>) -> int
    decreases s.len(),
{
    if s.len() == 0 {
        0
    } else {
        depth(s.drop_last()) + paren_delta(s.last())
    }
}

/// The text opens with `(` and the depth returns to zero only at its end:
/// one redundant pair wraps all of it.
pub open spec fn strippable(s: Seq<char>) -> bool {
    &&& s.len() >= 2
    &&& s[0] == '('
    &&& forall|i: int| 1 <= i < s.len() ==> depth(#[trigger] s.take(i)) != 0
}

/// Value of a sequence of decimal digits (zero when empty).
pub open spec fn digits_value(d: Seq<char>) -> nat
    decreases d.len(),
{
    if d.len() == 0 {
        0
    } else {
        digits_value(d.drop_last()) * 10 + ((d.last() as int - 48) as nat)
    }
}

/// A letter followed by decimal digits.
pub open spec fn is_ident_token(t: Seq<char>) -> bool {
    &&& t.len() >= 1
    &&& is_letter(t[0])
    &&& forall|i: int| 1 <= i < t.len() ==> is_digit(#[trigger] t[i])
}

/// The identity value an identity token denotes.
pub open spec fn token_id(t: Seq<char>) -> int {
    t[0] as int + ID_STRIDE as int * digits_value(t.subrange(1, t.len() as int))
}

/// The identity of a token, when it is one and its value fits.
pub open spec fn parse_token(t: Seq<char>) -> Option<usize> {
    if is_ident_token(t) && token_id(t) <= usize::MAX {
        Some(token_id(t) as usize)
    } else {
        None
    }
}

/// Index of the first `.` at or after `i`, or the length when there is none.
pub open spec fn dot_index(s: Seq<char>, i: int) -> int
    decreases s.len() - i,
{
    if i >= s.len() {
        s.len() as int
    } else if s[i] == '.' {
        i
    } else {
        dot_index(s, i + 1)
    }
}

/// The term a text denotes.  Unbalanced parentheses give none; one
/// redundant outer pair is dropped; what remains is read by `parse_body`.
pub open spec fn parse(s: Seq<char>) -> Option<LambdaExpr>
    decreases s.len(), 2nat, 0int,
{
    if s.len() == 0 || depth(s) != 0 {
        None
    } else if strippable(s) {
        parse_body(s.subrange(1, s.len() - 1))
    } else {
        parse_body(s)
    }
}

/// A variable token, an abstraction `λ<token>.<body>`, or else an
/// application.
pub open spec fn parse_body(r: Seq<char>) -> Option<LambdaExpr>
    decreases r.len(), 1nat, 0int,
{
    if is_ident_token(r) {
        match parse_token(r) {
            Some(id) => Some(LambdaExpr::Var(id)),
            None => None,
        }
    } else if r.len() > 0 && r[0] == 'λ' {
        let j = dot_index(r, 1);
        if 1 <= j < r.len() {
            match parse_token(r.subrange(1, j)) {
                Some(id) => match parse(r.subrange(j + 1, r.len() as int)) {
                    Some(body) => Some(LambdaExpr::Abs(id, Box::new(body))),
                    None => None,
                },
                None => None,
            }
        } else {
            None
        }
    } else {
        parse_app(r, 1)
    }
}

/// An application read from `r`: the argument is the shortest suffix of
/// length at least `k` that parses, the function what stands before it.
pub open spec fn parse_app(r: Seq<char>, k: int) -> Option<LambdaExpr>
    decreases r.len(), 0nat, r.len() - k,
{
    if k < 1 || k >= r.len() {
        None
    } else {
        match parse(r.subrange(r.len() - k, r.len() as int)) {
            Some(arg) => match parse(r.subrange(0, r.len() - k)) {
                Some(fun) => Some(LambdaExpr::App(Box::new(fun), Box::new(arg))),
                None => None,
            },
            None => parse_app(r, k + 1),
        }
    }
}

proof fn lemma_digits_value_monotone(d: Seq<char>, i: int)
    requires
        0 <= i <= d.len(),
    ensures
        digits_value(d.take(i)) <= digits_value(d),
    decreases d.len(),
{
    if i < d.len() {
        assert(d.drop_last().take(i) =~= d.take(i));
        lemma_digits_value_monotone(d.drop_last(), i);
    } else {
        assert(d.take(i) =~= d);
    }
}

/// The identity of the token `s[a..b]`, when it is one and fits.
fn read_token(s: &Vec<char>, a: usize, b: usize) -> (r: Option<usize>)
    requires
        a <= b <= s@.len(),
    ensures
        r == parse_token(s@.subrange(a as int, b as int)),
{
    let ghost t = s@.subrange(a as int, b as int);
    if a == b {
        return None;
    }
    let first: char = s[a];
    if !(('A' <= first && first <= 'Z') || ('a' <= first && first <= 'z')) {
        return None;
    }
    let base = first as usize;
    let limit: usize = usize::MAX / ID_STRIDE;
    let mut g: usize = 0;
    let mut i: usize = a + 1;
    while i < b
        invariant
            a < i <= b <= s@.len(),
            t == s@.subrange(a as int, b as int),
            base == t[0] as int,
            is_letter(t[0]),
            g <= limit,
            limit == usize::MAX / ID_STRIDE,
            g == digits_value(t.subrange(1, i - a)),
            forall|j: int| 1 <= j < i - a ==> is_digit(#[trigger] t[j]),
        decreases b - i,
    {
        let digit: char = s[i];
        if digit < '0' || digit > '9' {
            assert(!is_digit(t[i - a]));
            return None;
        }
        let d = digit as u32;
        proof {
            assert(t.subrange(1, i - a + 1).drop_last() =~= t.subrange(1, i - a));
            assert(g * 10 + 9 <= usize::MAX) by (nonlinear_arith)
                requires
                    g <= limit,
                    limit == usize::MAX / 1000,
            ;
        }
        g = g * 10 + (d - 48) as usize;
        i = i + 1;
        if g > limit {
            proof {
                let tail = t.subrange(1, t.len() as int);
                assert(tail.take(i - a - 1) =~= t.subrange(1, i - a));
                if is_ident_token(t) {
                    lemma_digits_value_monotone(tail, i - a - 1);
                    let v = digits_value(tail);
                    assert(token_id(t) > usize::MAX) by (nonlinear_arith)
                        requires
                            token_id(t) == base + 1000 * v,
                            v >= g,
                            g > limit,
                            limit == usize::MAX / 1000,
                            base >= 0,
                    ;
                }
            }
            return None;
        }
    }
    proof {
        assert(t.subrange(1, i - a) =~= t.subrange(1, t.len() as int));
    }
    if g <= (usize::MAX - base) / ID_STRIDE {
        proof {
            assert(base + 1000 * g <= usize::MAX) by (nonlinear_arith)
                requires
                    g <= (usize::MAX - base) / 1000,
                    base <= 122,
            ;
        }
        Some(base + ID_STRIDE * g)
    } else {
        proof {
            assert(base + 1000 * g > usize::MAX) by (nonlinear_arith)
                requires
                    g > (usize::MAX - base) / 1000,
                    base <= 122,
            ;
        }
        None
    }
}

proof fn lemma_depth_concat(a: Seq<char>, b: Seq<char>)
    ensures
        depth(a + b) == depth(a) + depth(b),
    decreases b.len(),
{
    if b.len() == 0 {
        assert(a + b =~= a);
    } else {
        assert((a + b).drop_last() =~= a + b.drop_last());
        assert((a + b).last() == b.last());
        lemma_depth_concat(a, b.drop_last());
    }
}

/// No prefix closes more parentheses than it opens.
pub open spec fn prefixes_nonneg(s: Seq<char>) -> bool {
    forall|i: int| 0 <= i <= s.len() ==> depth(#[trigger] s.take(i)) >= 0
}

/// No parenthesis occurs.
pub open spec fn paren_free(s: Seq<char>) -> bool {
    forall|i: int| 0 <= i < s.len() ==> #[trigger] s[i] != '(' && s[i] != ')'
}

proof fn lemma_paren_free_depth(s: Seq<char>)
    requires
        paren_free(s),
    ensures
        depth(s) == 0,
        forall|i: int| 0 <= i <= s.len() ==> depth(#[trigger] s.take(i)) == 0,
    decreases s.len(),
{
    if s.len() > 0 {
        let d = s.drop_last();
        assert(paren_free(d)) by {
            assert forall|i: int| 0 <= i < d.len() implies #[trigger] d[i] != '(' && d[i] != ')' by {
                assert(d[i] == s[i]);
            }
        }
        lemma_paren_free_depth(d);
        assert(s.last() == s[s.len() - 1]);
        assert forall|i: int| 0 <= i <= s.len() implies depth(#[trigger] s.take(i)) == 0 by {
            if i < s.len() {
                assert(s.take(i) =~= d.take(i));
            } else {
                assert(s.take(i) =~= s);
            }
        }
    }
}

proof fn lemma_prefix_depth_concat(a: Seq<char>, b: Seq<char>, i: int)
    requires
        0 <= i <= a.len() + b.len(),
    ensures
        depth((a + b).take(i)) == if i <= a.len() {
            depth(a.take(i))
        } else {
            depth(a) + depth(b.take(i - a.len()))
        },
{
    if i <= a.len() {
        assert((a + b).take(i) =~= a.take(i));
    } else {
        assert((a + b).take(i) =~= a + b.take(i - a.len()));
        lemma_depth_concat(a, b.take(i - a.len()));
    }
}

proof fn lemma_nonneg_concat(a: Seq<char>, b: Seq<char>)
    requires
        prefixes_nonneg(a),
        prefixes_nonneg(b),
        depth(a) == 0,
    ensures
        prefixes_nonneg(a + b),
        depth(a + b) == depth(b),
{
    lemma_depth_concat(a, b);
    assert forall|i: int| 0 <= i <= (a + b).len() implies depth(#[trigger] (a + b).take(i)) >= 0 by {
        lemma_prefix_depth_concat(a, b, i);
    }
}

/// `(x)`.
pub open spec fn wrapped(x: Seq<char>) -> Seq<char> {
    seq!['('] + x + seq![')']
}

proof fn lemma_wrapped(x: Seq<char>)
    requires
        prefixes_nonneg(x),
        depth(x) == 0,
    ensures
        depth(wrapped(x)) == 0,
        prefixes_nonneg(wrapped(x)),
        strippable(wrapped(x)),
        wrapped(x).subrange(1, wrapped(x).len() - 1) =~= x,
        forall|k: int|
            1 <= k < wrapped(x).len() ==> parse(
                #[trigger] wrapped(x).subrange(wrapped(x).len() - k, wrapped(x).len() as int),
            ) is None,
{
    let w = wrapped(x);
    let open = seq!['('];
    let close = seq![')'];
    assert(depth(Seq::<char>::empty()) == 0);
    assert(depth(open) == 1) by {
        assert(open.drop_last() =~= Seq::<char>::empty());
        assert(open.last() == '(');
    }
    assert(depth(close) == -1) by {
        assert(close.drop_last() =~= Seq::<char>::empty());
        assert(close.last() == ')');
    }
    lemma_depth_concat(open, x);
    lemma_depth_concat(open + x, close);
    assert forall|i: int| 1 <= i < w.len() implies depth(#[trigger] w.take(i)) >= 1 by {
        assert(w.take(i) =~= open + x.take(i - 1));
        lemma_depth_concat(open, x.take(i - 1));
    }
    assert forall|i: int| 0 <= i <= w.len() implies depth(#[trigger] w.take(i)) >= 0 by {
        if i == 0 {
            assert(w.take(i) =~= Seq::<char>::empty());
        } else if i == w.len() {
            assert(w.take(i) =~= w);
        }
    }
    assert forall|k: int| 1 <= k < w.len() implies parse(
        #[trigger] w.subrange(w.len() - k, w.len() as int),
    ) is None by {
        let p = w.take(w.len() - k);
        let q = w.subrange(w.len() - k, w.len() as int);
        assert(w =~= p + q);
        lemma_depth_concat(p, q);
    }
}

proof fn lemma_decimal(n: nat)
    requires
        n >= 1,
    ensures
        decimal(n).len() >= 1,
        forall|i: int| 0 <= i < decimal(n).len() ==> is_digit(#[trigger] decimal(n)[i]),
        digits_value(decimal(n)) == n,
    decreases n,
{
    let d = (n % 10) as int;
    assert(is_digit(digit_char(d)) && digit_char(d) as int - 48 == d);
    if n >= 10 {
        lemma_decimal(n / 10);
        let s = decimal(n);
        assert(s.drop_last() =~= decimal(n / 10));
        assert(s.last() == digit_char(d));
        assert(digits_value(s) == digits_value(decimal(n / 10)) * 10 + d);
        assert((n / 10) * 10 + d == n);
        assert forall|i: int| 0 <= i < s.len() implies is_digit(#[trigger] s[i]) by {
            if i < s.len() - 1 {
                assert(s[i] == decimal(n / 10)[i]);
            }
        }
    } else {
        assert(decimal(n).drop_last() =~= Seq::<char>::empty());
        assert(digits_value(Seq::<char>::empty()) == 0);
        assert(decimal(n).last() == digit_char(d));
    }
}

proof fn lemma_id_text(id: usize)
    requires
        valid_id(id),
    ensures
        is_ident_token(id_text(id)),
        parse_token(id_text(id)) == Some(id),
        paren_free(id_text(id)),
        forall|i: int| 0 <= i < id_text(id).len() ==> #[trigger] id_text(id)[i] != '.',
        is_letter(id_text(id)[0]),
{
    let t = id_text(id);
    let c = id_base(id) as char;
    assert(c as int == id_base(id));
    assert(t[0] == c);
    let g = id_generation(id);
    assert(id as int == id_base(id) + 1000 * g);
    if g == 0 {
        assert(t.subrange(1, t.len() as int) =~= Seq::<char>::empty());
    } else {
        lemma_decimal(g as nat);
        assert(t.subrange(1, t.len() as int) =~= decimal(g as nat));
        assert forall|i: int| 1 <= i < t.len() implies is_digit(#[trigger] t[i]) by {
            assert(t[i] == decimal(g as nat)[i - 1]);
        }
    }
    assert forall|i: int| 0 <= i < t.len() implies #[trigger] t[i] != '(' && t[i] != ')' && t[i] != '.' by {
        if i > 0 {
            assert(is_digit(t[i]));
        }
    }
}

proof fn lemma_parse_app_skip(r: Seq<char>, k: int, m: int)
    requires
        1 <= k <= m < r.len(),
        forall|i: int| k <= i < m ==> parse(#[trigger] r.subrange(r.len() - i, r.len() as int)) is None,
    ensures
        parse_app(r, k) == parse_app(r, m),
    decreases m - k,
{
    if k < m {
        lemma_parse_app_skip(r, k + 1, m);
    }
}

proof fn lemma_dot_skip(r: Seq<char>, i: int, j: int)
    requires
        0 <= i <= j <= r.len(),
        forall|m: int| i <= m < j ==> #[trigger] r[m] != '.',
    ensures
        dot_index(r, i) == dot_index(r, j),
    decreases j - i,
{
    if i < j {
        lemma_dot_skip(r, i + 1, j);
    }
}

/// Reading back the printed form of a term gives the term itself.
pub proof fn lemma_parse_print(t: LambdaExpr)
    requires
        t.wf(),
    ensures
        parse(t.text()) == Some(t),
        parse_body(t.text()) == Some(t),
        depth(t.text()) == 0,
        prefixes_nonneg(t.text()),
        t.text().len() >= 1,
        !strippable(t.text()),
    decreases t,
{
    let s = t.text();
    match t {
        LambdaExpr::Var(id) => {
            lemma_id_text(id);
            lemma_paren_free_depth(s);
        },
        LambdaExpr::Abs(id, body) => {
            lemma_parse_print(*body);
            lemma_id_text(id);
            let it = id_text(id);
            let head = seq!['λ'] + it + seq!['.'];
            let b = body.text();
            assert(s =~= head + b);
            assert(paren_free(head)) by {
                assert forall|i: int| 0 <= i < head.len() implies #[trigger] head[i] != '(' && head[i] != ')' by {
                    if 0 < i < head.len() - 1 {
                        assert(head[i] == it[i - 1]);
                    }
                }
            }
            lemma_paren_free_depth(head);
            lemma_nonneg_concat(head, b);
            assert(!is_letter('λ'));
            assert(!is_ident_token(s));
            let j: int = 1 + it.len() as int;
            assert forall|m: int| 1 <= m < j implies #[trigger] s[m] != '.' by {
                assert(s[m] == it[m - 1]);
            }
            lemma_dot_skip(s, 1, j);
            assert(s[j] == '.');
            assert(dot_index(s, 1) == j);
            assert(s.subrange(1, j) =~= it);
            assert(s.subrange(j + 1, s.len() as int) =~= b);
        },
        LambdaExpr::App(f, a) => {
            lemma_parse_print(*f);
            lemma_parse_print(*a);
            let wf = wrapped(f.text());
            let wa = wrapped(a.text());
            assert(s =~= wf + wa);
            lemma_wrapped(f.text());
            lemma_wrapped(a.text());
            lemma_nonneg_concat(wf, wa);
            assert(s.take(wf.len() as int) =~= wf);
            assert(!strippable(s));
            assert(!is_ident_token(s));
            assert forall|i: int| 1 <= i < wa.len() implies parse(
                #[trigger] s.subrange(s.len() - i, s.len() as int),
            ) is None by {
                assert(s.subrange(s.len() - i, s.len() as int) =~= wa.subrange(wa.len() - i, wa.len() as int));
            }
            lemma_parse_app_skip(s, 1, wa.len() as int);
            assert(s.subrange(s.len() - wa.len(), s.len() as int) =~= wa);
            assert(s.subrange(0, s.len() - wa.len()) =~= wf);
            assert(parse(wa) == parse_body(a.text()));
            assert(parse(wf) == parse_body(f.text()));
        },
    }
}

proof fn lemma_church_wf(n: nat)
    ensures
        church_numeral(n).wf(),
{
    lemma_church_body_wf(n);
    assert(valid_id(F_ID));
    assert(valid_id(X_ID));
    let inner = LambdaExpr::Abs(X_ID, Box::new(church_body(n)));
    assert(inner.wf());
}

proof fn lemma_church_body_wf(n: nat)
    ensures
        church_body(n).wf(),
    decreases n,
{
    assert(id_base(F_ID) == 102);
    assert(valid_id(F_ID));
    assert(valid_id(X_ID));
    assert(LambdaExpr::Var(X_ID).wf());
    if n > 0 {
        lemma_church_body_wf((n - 1) as nat);
        assert(LambdaExpr::Var(F_ID).wf());
        assert(church_body(n) == LambdaExpr::App(
            Box::new(LambdaExpr::Var(F_ID)),
            Box::new(church_body((n - 1) as nat)),
        ));
    }
}

proof fn lemma_combinators_wf()
    ensures
        add_term().wf(),
        sub_term().wf(),
        mul_term().wf(),
        div_term().wf(),
        fac_term().wf(),
{
    broadcast use lemma_var_wf, lemma_abs_wf, lemma_app_wf;

    lemma_church_wf(1);
    assert(pred_term().wf());
    assert(iszero_term().wf());
    assert(mul_term().wf());
}

broadcast proof fn lemma_var_wf(c: char)
    requires
        'a' <= c <= 'z',
    ensures
        #[trigger] mk_var(c).wf(),
{
    assert(valid_id(c as usize));
}

broadcast proof fn lemma_abs_wf(c: char, b: LambdaExpr)
    requires
        'a' <= c <= 'z',
        b.wf(),
    ensures
        #[trigger] mk_abs(c, b).wf(),
{
    assert(valid_id(c as usize));
}

broadcast proof fn lemma_app_wf(f: LambdaExpr, a: LambdaExpr)
    requires
        f.wf(),
        a.wf(),
    ensures
        #[trigger] mk_app(f, a).wf(),
{
}

/// Every term the compiler returns is printed to a text that reads back
/// as the same term.
pub proof fn lemma_compile_round_trip(w: Seq<Seq<char>>)
    requires
        compile(w) is Ok,
    ensures
        compile(w)->Ok_0.wf(),
        parse(compile(w)->Ok_0.text()) == Some(compile(w)->Ok_0),
    decreases w.len(),
{
    broadcast use lemma_app_wf;

    lemma_combinators_wf();
    if w.len() > 1 {
        let last = w[w.len() - 1];
        let op = if last == seq!['!'] { last } else { w[w.len() - 2] };
        assert(operator_term(op)->0.wf());
        if op != seq!['!'] {
            lemma_compile_round_trip(w.take(w.len() - 2));
        }
        let operand = if last == seq!['!'] { w[w.len() - 2] } else { last };
        lemma_church_wf(operand_value(operand)->0);
    } else {
        let t = if w.len() == 1 { w[0] } else { Seq::empty() };
        lemma_church_wf(operand_value(t)->0);
    }
    lemma_parse_print(compile(w)->Ok_0);
}

/// Whether `s[a..b]` is an identity token.
fn is_token(s: &Vec<char>, a: usize, b: usize) -> (r: bool)
    requires
        a <= b <= s@.len(),
    ensures
        r == is_ident_token(s@.subrange(a as int, b as int)),
{
    let ghost t = s@.subrange(a as int, b as int);
    if a == b {
        return false;
    }
    let first: char = s[a];
    if !(('A' <= first && first <= 'Z') || ('a' <= first && first <= 'z')) {
        return false;
    }
    let mut i: usize = a + 1;
    while i < b
        invariant
            a < i <= b <= s@.len(),
            t == s@.subrange(a as int, b as int),
            forall|j: int| 1 <= j < i - a ==> is_digit(#[trigger] t[j]),
        decreases b - i,
    {
        let digit: char = s[i];
        if digit < '0' || digit > '9' {
            assert(!is_digit(t[i - a]));
            return false;
        }
        i = i + 1;
    }
    true
}

/// Whether `s[lo..hi]` opens as many parentheses as it closes.
fn is_balanced(s: &Vec<char>, lo: usize, hi: usize) -> (r: bool)
    requires
        lo <= hi <= s@.len(),
    ensures
        r == (depth(s@.subrange(lo as int, hi as int)) == 0),
{
    let mut opens: usize = 0;
    let mut closes: usize = 0;
    let mut i: usize = lo;
    while i < hi
        invariant
            lo <= i <= hi <= s@.len(),
            opens + closes <= i - lo,
            opens - closes == depth(s@.subrange(lo as int, i as int)),
        decreases hi - i,
    {
        proof {
            assert(s@.subrange(lo as int, i + 1).drop_last() =~= s@.subrange(lo as int, i as int));
        }
        if s[i] == '(' {
            opens = opens + 1;
        } else if s[i] == ')' {
            closes = closes + 1;
        }
        i = i + 1;
    }
    opens == closes
}

/// Whether one redundant pair of parentheses wraps all of `s[lo..hi]`.
fn is_strippable(s: &Vec<char>, lo: usize, hi: usize) -> (r: bool)
    requires
        lo <= hi <= s@.len(),
    ensures
        r == strippable(s@.subrange(lo as int, hi as int)),
{
    let ghost whole = s@.subrange(lo as int, hi as int);
    if hi - lo < 2 || s[lo] != '(' {
        return false;
    }
    let mut strip = true;
    let mut opens: usize = 0;
    let mut closes: usize = 0;
    let mut i: usize = lo;
    while i < hi - 1 && strip
        invariant
            lo <= i <= hi - 1,
            hi - lo >= 2,
            hi <= s@.len(),
            whole == s@.subrange(lo as int, hi as int),
            whole[0] == '(',
            opens + closes <= i - lo,
            opens - closes == depth(whole.take(i - lo)),
            strip ==> forall|m: int| 1 <= m <= i - lo ==> depth(#[trigger] whole.take(m)) != 0,
            !strip ==> exists|m: int| 1 <= m < whole.len() && depth(#[trigger] whole.take(m)) == 0,
        decreases hi - i,
    {
        proof {
            assert(whole.take(i - lo + 1).drop_last() =~= whole.take(i - lo));
        }
        if s[i] == '(' {
            opens = opens + 1;
        } else if s[i] == ')' {
            closes = closes + 1;
        }
        i = i + 1;
        if opens == closes {
            strip = false;
        }
    }
    strip
}

/// The term denoted by `s[lo..hi]`.
fn parse_range(s: &Vec<char>, lo: usize, hi: usize) -> (r: Option<LambdaExpr>)
    requires
        lo <= hi <= s@.len(),
    ensures
        r == parse(s@.subrange(lo as int, hi as int)),
    decreases hi - lo, 1nat,
{
    let ghost whole = s@.subrange(lo as int, hi as int);
    if lo == hi || !is_balanced(s, lo, hi) {
        return None;
    }
    let strip = is_strippable(s, lo, hi);
    let a: usize = if strip { lo + 1 } else { lo };
    let b: usize = if strip { hi - 1 } else { hi };
    let ghost r = s@.subrange(a as int, b as int);
    assert(r =~= (if strippable(whole) { whole.subrange(1, whole.len() - 1) } else { whole }));
    assert(parse(whole) == parse_body(r));
    let res = parse_body_range(s, a, b, hi - lo);
    res
}

/// The term that `parse_body` reads from `s[a..b]`.
fn parse_body_range(s: &Vec<char>, a: usize, b: usize, bound: usize) -> (r: Option<LambdaExpr>)
    requires
        a <= b <= s@.len(),
        b - a <= bound,
    ensures
        r == parse_body(s@.subrange(a as int, b as int)),
    decreases bound, 0nat,
{
    let ghost r = s@.subrange(a as int, b as int);
    if is_token(s, a, b) {
        match read_token(s, a, b) {
            Some(id) => Some(LambdaExpr::Var(id)),
            None => None,
        }
    } else if a < b && s[a] == 'λ' {
        let mut j: usize = a + 1;
        while j < b && s[j] != '.'
            invariant
                a < j <= b <= s@.len(),
                r == s@.subrange(a as int, b as int),
                dot_index(r, 1) == dot_index(r, j - a),
            decreases b - j,
        {
            j = j + 1;
        }
        if j < b {
            assert(r.subrange(1, j - a) =~= s@.subrange(a + 1, j as int));
            assert(r.subrange(j - a + 1, r.len() as int) =~= s@.subrange(j + 1, b as int));
            match read_token(s, a + 1, j) {
                Some(id) => match parse_range(s, j + 1, b) {
                    Some(body) => Some(LambdaExpr::Abs(id, Box::new(body))),
                    None => None,
                },
                None => None,
            }
        } else {
            None
        }
    } else {
        assert(parse_body(r) == parse_app(r, 1));
        let mut k: usize = 1;
        while k < b - a
            invariant
                parse_body(r) == parse_app(r, 1),
                a <= b <= s@.len(),
                b - a <= bound,
                1 <= k,
                r == s@.subrange(a as int, b as int),
                parse_app(r, 1) == parse_app(r, k as int),
            decreases b - a - k,
        {
            assert(r.subrange(r.len() - k, r.len() as int) =~= s@.subrange(b - k, b as int));
            assert(r.subrange(0, r.len() - k) =~= s@.subrange(a as int, b - k));
            match parse_range(s, b - k, b) {
                Some(arg) => {
                    let res = match parse_range(s, a, b - k) {
                        Some(fun) => Some(LambdaExpr::App(Box::new(fun), Box::new(arg))),
                        None => None,
                    };
                    assert(res == parse_app(r, k as int));
                    return res;
                },
                None => {},
            }
            k = k + 1;
        }
        None
    }
}

/// Characters of a string, in order.
fn chars_of(input: &String) -> (r: Vec<char>)
    ensures
        r@ == input@,
{
    let text = input.as_str();
    let n = text.unicode_len();
    let mut out: Vec<char> = Vec::new();
    let mut i: usize = 0;
    while i < n
        invariant
            i <= n,
            n == input@.len(),
            text@ == input@,
            out@ == input@.take(i as int),
        decreases n - i,
    {
        out.push(text.get_char(i));
        i = i + 1;
        proof {
            assert(out@ =~= input@.take(i as int));
        }
    }
    assert(out@ =~= input@);
    out
}

/// Reads a term from its textual form; `None` when the text is not a term.
pub fn interpret_expr(input: &String) -> (r: Option<LambdaExpr>)
    ensures
        r == parse(input@),
{
    let chars = chars_of(input);
    assert(chars@.subrange(0, chars@.len() as int) =~= input@);
    parse_range(&chars, 0, chars.len())
}

/// Why an arithmetic token string has no term.
#[derive(Clone, Copy, Debug, PartialEq, Eq, Structural)]
pub enum CompileError {
    /// An operand is missing, or is not a decimal number that fits an `i32`.
    BadOperand,
    /// An operator token is none of `+ - * / !`.
    UnknownOperator,
}

/// Index of the first space at or after `i`, or the length when there is none.
pub open spec fn space_index(s: Seq<char>, i: int) -> int
    decreases s.len() - i,
{
    if i >= s.len() {
        s.len() as int
    } else if s[i] == ' ' {
        i
    } else {
        space_index(s, i + 1)
    }
}

/// The words of `s` between single spaces, empty ones included.
pub open spec fn split_words(s: Seq<char>) -> Seq<Seq<char>>
    decreases s.len(),
{
    let i = space_index(s, 0);
    if 0 <= i < s.len() {
        seq![s.take(i)] + split_words(s.skip(i + 1))
    } else {
        seq![s]
    }
}

/// The value of a non-empty run of decimal digits that fits an `i32`.
pub open spec fn operand_value(t: Seq<char>) -> Option<nat> {
    if t.len() >= 1 && (forall|i: int| 0 <= i < t.len() ==> is_digit(#[trigger] t[i]))
        && digits_value(t) <= i32::MAX {
        Some(digits_value(t))
    } else {
        None
    }
}

/// The combinator of an operator token.
pub open spec fn operator_term(op: Seq<char>) -> Option<LambdaExpr> {
    if op == seq!['+'] {
        Some(add_term())
    } else if op == seq!['-'] {
        Some(sub_term())
    } else if op == seq!['*'] {
        Some(mul_term())
    } else if op == seq!['/'] {
        Some(div_term())
    } else if op == seq!['!'] {
        Some(fac_term())
    } else {
        None
    }
}

/// The term of a token list, read from its right end: a single token is a
/// numeral; `... op n` applies the operator's combinator to the term of the
/// tokens before it and to the numeral of `n`; `n !` (and a `!` in operator
/// position) applies the factorial combinator to the numeral alone.
pub open spec fn compile(w: Seq<Seq<char>>) -> Result<LambdaExpr, CompileError>
    decreases w.len(),
{
    if w.len() <= 1 {
        let t = if w.len() == 1 { w[0] } else { Seq::empty() };
        match operand_value(t) {
            Some(n) => Ok(church_numeral(n)),
            None => Err(CompileError::BadOperand),
        }
    } else {
        let last = w[w.len() - 1];
        let postfix = last == seq!['!'];
        let operand = if postfix { w[w.len() - 2] } else { last };
        let op = if postfix { last } else { w[w.len() - 2] };
        match operand_value(operand) {
            None => Err(CompileError::BadOperand),
            Some(n) => match operator_term(op) {
                None => Err(CompileError::UnknownOperator),
                Some(c) => if op == seq!['!'] {
                    Ok(mk_app(c, church_numeral(n)))
                } else {
                    match compile(w.take(w.len() - 2)) {
                        Ok(left) => Ok(mk_app(mk_app(c, left), church_numeral(n))),
                        Err(e) => Err(e),
                    }
                },
            },
        }
    }
}

/// The character sequences of a list of words.
pub open spec fn words_view(v: Seq<Vec<char>>) -> Seq<Seq<char>> {
    v.map_values(|w: Vec<char>| w@)
}

/// The words of `s` between single spaces.
fn split_chars(s: &Vec<char>) -> (r: Vec<Vec<char>>)
    ensures
        words_view(r@) == split_words(s@),
{
    let mut words: Vec<Vec<char>> = Vec::new();
    let mut i: usize = 0;
    assert(words_view(words@) + split_words(s@.skip(0)) =~= split_words(s@)) by {
        assert(s@.skip(0) =~= s@);
        assert(words_view(words@) =~= Seq::<Seq<char>>::empty());
    }
    loop
        invariant
            i <= s@.len(),
            words_view(words@) + split_words(s@.skip(i as int)) == split_words(s@),
        decreases s@.len() - i,
    {
        let ghost rest = s@.skip(i as int);
        let mut word: Vec<char> = Vec::new();
        let mut j: usize = i;
        while j < s.len() && s[j] != ' '
            invariant
                i <= j <= s@.len(),
                rest == s@.skip(i as int),
                word@ == s@.subrange(i as int, j as int),
                space_index(rest, 0) == space_index(rest, j - i),
            decreases s@.len() - j,
        {
            word.push(s[j]);
            j = j + 1;
            proof {
                assert(word@ =~= s@.subrange(i as int, j as int));
            }
        }
        let ghost before = words@;
        assert(word@ =~= rest.take(j - i));
        words.push(word);
        assert(words_view(words@) =~= words_view(before).push(rest.take(j - i)));
        if j == s.len() {
            assert(split_words(rest) == seq![rest]);
            assert(rest.take(j - i) =~= rest);
            assert(words_view(words@) =~= words_view(before) + split_words(rest));
            return words;
        }
        assert(rest.skip(j - i + 1) =~= s@.skip(j + 1));
        assert(words_view(words@) + split_words(s@.skip(j + 1)) =~= words_view(before)
            + split_words(rest));
        i = j + 1;
    }
}

/// The value of a decimal operand token.
fn read_operand(t: &Vec<char>) -> (r: Option<i32>)
    ensures
        r == (match operand_value(t@) {
            Some(v) => Some(v as i32),
            None => None::<i32>,
        }),
{
    if t.len() == 0 {
        return None;
    }
    let mut v: i32 = 0;
    let mut i: usize = 0;
    while i < t.len()
        invariant
            i <= t@.len(),
            t@.len() >= 1,
            0 <= v,
            v == digits_value(t@.take(i as int)),
            forall|j: int| 0 <= j < i ==> is_digit(#[trigger] t@[j]),
        decreases t@.len() - i,
    {
        let c: char = t[i];
        if c < '0' || c > '9' {
            assert(!is_digit(t@[i as int]));
            return None;
        }
        let d = (c as u32 - 48) as i32;
        proof {
            assert(t@.take(i + 1).drop_last() =~= t@.take(i as int));
        }
        if v > (i32::MAX - d) / 10 {
            proof {
                assert(digits_value(t@.take(i + 1)) > i32::MAX) by (nonlinear_arith)
                    requires
                        digits_value(t@.take(i + 1)) == v * 10 + d,
                        v > (i32::MAX - d) / 10,
                        0 <= d <= 9,
                ;
                lemma_digits_value_monotone(t@, i + 1);
            }
            return None;
        }
        proof {
            assert(v * 10 + d <= i32::MAX) by (nonlinear_arith)
                requires
                    v <= (i32::MAX - d) / 10,
                    0 <= d <= 9,
            ;
        }
        v = v * 10 + d;
        i = i + 1;
    }
    assert(t@.take(i as int) =~= t@);
    Some(v)
}

/// Whether a token is the single character `c`.
fn is_word(t: &Vec<char>, c: char) -> (r: bool)
    ensures
        r == (t@ == seq![c]),
{
    if t.len() == 1 && t[0] == c {
        assert(t@ =~= seq![c]);
        true
    } else {
        assert(t@.len() != 1 || t@[0] != c);
        false
    }
}

/// The combinator of an operator token.
fn operator_combinator(op: &Vec<char>) -> (r: Option<LambdaExpr>)
    ensures
        r == operator_term(op@),
{
    if is_word(op, '+') {
        Some(add_combinator())
    } else if is_word(op, '-') {
        Some(sub_combinator())
    } else if is_word(op, '*') {
        Some(mul_combinator())
    } else if is_word(op, '/') {
        Some(div_combinator())
    } else if is_word(op, '!') {
        Some(fac_combinator())
    } else {
        None
    }
}

/// The term of the first `n` tokens.
fn compile_words(words: &Vec<Vec<char>>, n: usize) -> (r: Result<LambdaExpr, CompileError>)
    requires
        n <= words@.len(),
    ensures
        r == compile(words_view(words@).take(n as int)),
    decreases n,
{
    let ghost w = words_view(words@).take(n as int);
    if n <= 1 {
        let res = if n == 1 {
            read_operand(&words[0])
        } else {
            let empty: Vec<char> = Vec::new();
            assert(empty@ =~= Seq::<char>::empty());
            read_operand(&empty)
        };
        return match res {
            Some(x) => Ok(church(x)),
            None => Err(CompileError::BadOperand),
        };
    }
    let last = &words[n - 1];
    let postfix = is_word(last, '!');
    let operand = if postfix { &words[n - 2] } else { last };
    let op = if postfix { last } else { &words[n - 2] };
    assert(operand@ == (if postfix { w[w.len() - 2] } else { w[w.len() - 1] }));
    assert(op@ == (if postfix { w[w.len() - 1] } else { w[w.len() - 2] }));
    let x = match read_operand(operand) {
        Some(x) => x,
        None => {
            return Err(CompileError::BadOperand);
        },
    };
    let c = match operator_combinator(op) {
        Some(c) => c,
        None => {
            return Err(CompileError::UnknownOperator);
        },
    };
    if is_word(op, '!') {
        return Ok(LambdaExpr::App(Box::new(c), Box::new(church(x))));
    }
    assert(words_view(words@).take(n - 2) =~= w.take(w.len() - 2));
    match compile_words(words, n - 2) {
        Ok(left) => Ok(
            LambdaExpr::App(
                Box::new(LambdaExpr::App(Box::new(c), Box::new(left))),
                Box::new(church(x)),
            ),
        ),
        Err(e) => Err(e),
    }
}

/// Compiles a whitespace-separated arithmetic token string into a term.
pub fn arithmetic_to_lambda(input: &String) -> (r: Result<LambdaExpr, CompileError>)
    ensures
        r == compile(split_words(input@)),
{
    let chars = chars_of(input);
    let words = split_chars(&chars);
    assert(words_view(words@).take(words@.len() as int) =~= words_view(words@));
    compile_words(&words, words.len())
}

/// `s` with a space put before every `!`, so that a factorial marker
/// written against its operand becomes a token of its own.
pub open spec fn spaced_factorials(s: Seq<char>) -> Seq<char>
    decreases s.len(),
{
    if s.len() == 0 {
        s
    } else if s.last() == '!' {
        spaced_factorials(s.drop_last()) + seq![' ', '!']
    } else {
        spaced_factorials(s.drop_last()).push(s.last())
    }
}

/// Puts a space before every `!` of `input`.
pub fn space_factorials(input: &String) -> (r: String)
    ensures
        r@ == spaced_factorials(input@),
{
    let chars = chars_of(input);
    let mut out = String::new();
    let mut i: usize = 0;
    while i < chars.len()
        invariant
            i <= chars@.len(),
            chars@ == input@,
            out@ == spaced_factorials(input@.take(i as int)),
        decreases chars@.len() - i,
    {
        let c = chars[i];
        proof {
            assert(input@.take(i + 1).drop_last() =~= input@.take(i as int));
        }
        if c == '!' {
            push_char(&mut out, ' ');
        }
        push_char(&mut out, c);
        i = i + 1;
        proof {
            assert(out@ =~= spaced_factorials(input@.take(i as int)));
        }
    }
    proof {
        assert(input@.take(i as int) =~= input@);
    }
    out
}

/// The terms of a reduction of the arithmetic in a language-model response:
/// factorial markers are spaced out, the tokens compiled, and the term
/// stepped to its normal form (none when that takes more than `max_steps`).
pub fn response_terms(response: &String, max_steps: usize) -> (r: Result<Option<Vec<LambdaExpr>>, CompileError>)
    ensures
        match compile(split_words(spaced_factorials(response@))) {
            Ok(t) => r is Ok && (r->Ok_0 is Some <==> trace_within(t, max_steps as nat) is Some) && (
            r->Ok_0 is Some ==> Some(r->Ok_0->0@) == trace_within(t, max_steps as nat)),
            Err(e) => r == Err::<Option<Vec<LambdaExpr>>, CompileError>(e),
        },
        r is Ok && r->Ok_0 is Some ==> forall|i: int|
            0 <= i < r->Ok_0->0@.len() ==> (#[trigger] r->Ok_0->0@[i]).wf(),
{
    let message = space_factorials(response);
    match arithmetic_to_lambda(&message) {
        Ok(t) => {
            proof {
                lemma_compile_round_trip(split_words(message@));
            }
            let trace = reduction_trace(&t, max_steps);
            let ghost g = trace;
            proof {
                if let Some(v) = g {
                    lemma_trace_wf(t, max_steps as nat);
                    assert forall|i: int| 0 <= i < v@.len() implies (#[trigger] v@[i]).wf() by {
                        assert(v@[i] == trace_within(t, max_steps as nat)->0[i]);
                    }
                }
            }
            Ok(trace)
        },
        Err(e) => Err(e),
    }
}

} // verus!
