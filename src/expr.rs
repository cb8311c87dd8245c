use vstd::prelude::*;

verus! {

/// Distance between two generations of one identity: an identity value is
/// `base + ID_STRIDE * generation`.
pub const ID_STRIDE: usize = 1000;

/// The variant of a term, without its contents.
#[derive(Clone, Copy, Debug, PartialEq, Eq, Structural)]
pub enum ExprType {
    Var,
    Abs,
    App,
}

/// An untyped lambda term.  Identity values encode a letter code and a
/// generation (see `ID_STRIDE`).
#[derive(Debug)]
pub enum LambdaExpr {
    Var(usize),
    Abs(usize, Box<LambdaExpr>),
    App(Box<LambdaExpr>, Box<LambdaExpr>),
}

/// Letter codes: `A`..`Z` and `a`..`z`.
pub open spec fn is_letter_code(c: int) -> bool {
    (65 <= c <= 90) || (97 <= c <= 122)
}

/// An ASCII letter.
pub open spec fn is_letter(c: char) -> bool {
    is_letter_code(c as int)
}

/// A decimal digit `0`..`9`.
pub open spec fn is_digit(c: char) -> bool {
    48 <= (c as int) <= 57
}

/// The base letter code of an identity value.
pub open spec fn id_base(id: usize) -> int {
    id as int % ID_STRIDE as int
}

/// The generation of an identity value.
pub open spec fn id_generation(id: usize) -> int {
    id as int / ID_STRIDE as int
}

/// An identity whose base is a letter.
pub open spec fn valid_id(id: usize) -> bool {
    is_letter_code(id_base(id))
}

/// The character of a decimal digit.
pub open spec fn digit_char(d: int) -> char {
    (48 + d) as char
}

/// Decimal notation of a positive number, most significant digit first.
pub open spec fn decimal(n: nat) -> Seq<char>
    decreases n,
{
    if n < 10 {
        seq![digit_char(n as int)]
    } else {
        decimal(n / 10).push(digit_char((n % 10) as int))
    }
}

/// Text of an identity: its letter, then its generation in decimal when it
/// is not zero.
pub open spec fn id_text(id: usize) -> Seq<char> {
    let letter = seq![id_base(id) as char];
    if id_generation(id) == 0 {
        letter
    } else {
        letter + decimal(id_generation(id) as nat)
    }
}

impl LambdaExpr {
    /// Every identity in the term (bound or occurring) has a letter as base.
    pub open spec fn wf(&self) -> bool
        decreases self,
    {
        match self {
            LambdaExpr::Var(id) => valid_id(*id),
            LambdaExpr::Abs(id, body) => valid_id(*id) && body.wf(),
            LambdaExpr::App(f, a) => f.wf() && a.wf(),
        }
    }

    /// Textual form: `x`, `λx.body`, `(function)(argument)`.
    pub open spec fn text(&self) -> Seq<char>
        decreases self,
    {
        match self {
            LambdaExpr::Var(id) => id_text(*id),
            LambdaExpr::Abs(id, body) => seq!['λ'] + id_text(*id) + seq!['.'] + body.text(),
            LambdaExpr::App(f, a) => seq!['('] + f.text() + seq![')', '('] + a.text() + seq![')'],
        }
    }

    /// Number of nodes.
    pub open spec fn size(&self) -> nat
        decreases self,
    {
        match self {
            LambdaExpr::Var(_) => 1,
            LambdaExpr::Abs(_, body) => 1 + body.size(),
            LambdaExpr::App(f, a) => 1 + f.size() + a.size(),
        }
    }

    /// The variant of this term.
    pub open spec fn spec_expr_type(&self) -> ExprType {
        match self {
            LambdaExpr::Var(_) => ExprType::Var,
            LambdaExpr::Abs(_, _) => ExprType::Abs,
            LambdaExpr::App(_, _) => ExprType::App,
        }
    }

    /// The variant of this term.
    #[verifier::when_used_as_spec(spec_expr_type)]
    pub fn expr_type(&self) -> (r: ExprType)
        ensures
            r == self.spec_expr_type(),
    {
        match self {
            LambdaExpr::Var(_) => ExprType::Var,
            LambdaExpr::Abs(_, _) => ExprType::Abs,
            LambdaExpr::App(_, _) => ExprType::App,
        }
    }

    /// The identity of a variable or of an abstraction's binder.
    pub fn id(&self) -> (r: Option<usize>)
        ensures
            r == (match self {
                LambdaExpr::Var(id) => Some(*id),
                LambdaExpr::Abs(id, _) => Some(*id),
                LambdaExpr::App(_, _) => None::<usize>,
            }),
    {
        match self {
            LambdaExpr::Var(id) => Some(*id),
            LambdaExpr::Abs(id, _) => Some(*id),
            LambdaExpr::App(_, _) => None,
        }
    }

    /// The ordered children: none, the body, or function and argument.
    pub fn children(&self) -> (r: Vec<LambdaExpr>)
        ensures
            r@ == (match self {
                LambdaExpr::Var(_) => Seq::<LambdaExpr>::empty(),
                LambdaExpr::Abs(_, body) => seq![**body],
                LambdaExpr::App(f, a) => seq![**f, **a],
            }),
    {
        match self {
            LambdaExpr::Var(_) => Vec::new(),
            LambdaExpr::Abs(_, body) => vec![(&**body).clone()],
            LambdaExpr::App(f, a) => vec![(&**f).clone(), (&**a).clone()],
        }
    }

    /// The number of nodes, or `cap + 1` when there are more than `cap`.
    pub fn size_capped(&self, cap: u64) -> (r: u64)
        requires
            cap <= u64::MAX / 4,
        ensures
            r == if self.size() <= cap { self.size() } else { (cap + 1) as nat },
        decreases self,
    {
        match self {
            LambdaExpr::Var(_) => 1,
            LambdaExpr::Abs(_, body) => {
                let n = 1 + body.size_capped(cap);
                if n <= cap {
                    n
                } else {
                    cap + 1
                }
            },
            LambdaExpr::App(f, a) => {
                let n = 1 + f.size_capped(cap) + a.size_capped(cap);
                if n <= cap {
                    n
                } else {
                    cap + 1
                }
            },
        }
    }

    /// Whether every identity has a letter as base.
    pub fn well_formed(&self) -> (r: bool)
        ensures
            r == self.wf(),
        decreases self,
    {
        match self {
            LambdaExpr::Var(id) => is_valid_id(*id),
            LambdaExpr::Abs(id, body) => is_valid_id(*id) && body.well_formed(),
            LambdaExpr::App(f, a) => f.well_formed() && a.well_formed(),
        }
    }

    /// The printed form of the term, appended to `out`.
    pub fn write_to(&self, out: &mut String)
        requires
            self.wf(),
        ensures
            final(out)@ == old(out)@ + self.text(),
        decreases self,
    {
        match self {
            LambdaExpr::Var(id) => {
                write_id(*id, out);
            },
            LambdaExpr::Abs(id, body) => {
                push_char(out, 'λ');
                write_id(*id, out);
                push_char(out, '.');
                body.write_to(out);
            },
            LambdaExpr::App(f, a) => {
                push_char(out, '(');
                f.write_to(out);
                push_char(out, ')');
                push_char(out, '(');
                a.write_to(out);
                push_char(out, ')');
            },
        }
        proof {
            assert(final(out)@ =~= old(out)@ + self.text());
        }
    }

    /// The printed form of the term; the parser reads it back.
    pub fn to_string(&self) -> (r: String)
        requires
            self.wf(),
        ensures
            r@ == self.text(),
    {
        let mut out = String::new();
        self.write_to(&mut out);
        proof {
            assert(out@ =~= self.text());
        }
        out
    }
}

impl Clone for LambdaExpr {
    fn clone(&self) -> (r: Self)
        ensures
            r == *self,
        decreases self,
    {
        match self {
            LambdaExpr::Var(id) => LambdaExpr::Var(*id),
            LambdaExpr::Abs(id, body) => LambdaExpr::Abs(*id, Box::new((&**body).clone())),
            LambdaExpr::App(f, a) => LambdaExpr::App(
                Box::new((&**f).clone()),
                Box::new((&**a).clone()),
            ),
        }
    }
}

impl PartialEq for LambdaExpr {
    /// Structural equality: same variants, same identities, equal children.
    fn eq(&self, other: &Self) -> (r: bool)
        ensures
            r == (*self == *other),
        decreases self,
    {
        match (self, other) {
            (LambdaExpr::Var(x), LambdaExpr::Var(y)) => *x == *y,
            (LambdaExpr::Abs(x, b), LambdaExpr::Abs(y, c)) => *x == *y && (&**b).eq((&**c)),
            (LambdaExpr::App(f, a), LambdaExpr::App(g, b)) => (&**f).eq((&**g)) && (&**a).eq((&**b)),
            _ => false,
        }
    }
}

impl vstd::std_specs::cmp::PartialEqSpecImpl for LambdaExpr {
    open spec fn obeys_eq_spec() -> bool {
        true
    }

    open spec fn eq_spec(&self, other: &LambdaExpr) -> bool {
        *self == *other
    }
}

/// Whether the base of an identity is a letter.
pub fn is_valid_id(id: usize) -> (r: bool)
    ensures
        r == valid_id(id),
{
    let base = id % ID_STRIDE;
    (65 <= base && base <= 90) || (97 <= base && base <= 122)
}

/// Relies on `String::push`: the character is appended.
#[verifier::external_body]
pub(crate) fn push_char(s: &mut String, c: char)
    ensures
        final(s)@ == old(s)@.push(c),
{
    s.push(c)
}

/// Appends the decimal notation of a positive number.
fn write_decimal(n: usize, out: &mut String)
    requires
        n > 0,
    ensures
        final(out)@ == old(out)@ + decimal(n as nat),
    decreases n,
{
    if n >= 10 {
        write_decimal(n / 10, out);
    }
    let d = (n % 10) as u8;
    push_char(out, (48u8 + d) as char);
    proof {
        assert(final(out)@ =~= old(out)@ + decimal(n as nat));
    }
}

fn write_id(id: usize, out: &mut String)
    requires
        valid_id(id),
    ensures
        final(out)@ == old(out)@ + id_text(id),
{
    let base = (id % ID_STRIDE) as u8;
    push_char(out, base as char);
    if id >= ID_STRIDE {
        write_decimal(id / ID_STRIDE, out);
    }
    proof {
        assert(final(out)@ =~= old(out)@ + id_text(id));
    }
}

/// Text of an identity value: its letter, then its generation when that is
/// not zero.
pub fn decode_id(id: usize) -> (r: String)
    requires
        valid_id(id),
    ensures
        r@ == id_text(id),
{
    let mut out = String::new();
    write_id(id, &mut out);
    proof {
        assert(out@ =~= id_text(id));
    }
    out
}

} // verus!
