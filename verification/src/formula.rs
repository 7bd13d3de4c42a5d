//! Formulas over doubles and their evaluation.
//!
//! The elementary operations are supplied by the caller. A formula is an expression; evaluating it
//! applies the operations one after the other, in the order in which the expression is built.

use vstd::prelude::*;
use crate::double::Double;

verus! {

/// The bits of 1/4.
pub const QUARTER: u64 = 0x3fd0_0000_0000_0000;

/// The bits of 1/2.
pub const HALF: u64 = 0x3fe0_0000_0000_0000;

/// The bits of 1.
pub const ONE: u64 = 0x3ff0_0000_0000_0000;

/// The bits of -1.
pub const MINUS_ONE: u64 = 0xbff0_0000_0000_0000;

/// The bits of 2.
pub const TWO: u64 = 0x4000_0000_0000_0000;

/// The bits of -2.
pub const MINUS_TWO: u64 = 0xc000_0000_0000_0000;

/// The bits of 3.
pub const THREE: u64 = 0x4008_0000_0000_0000;

/// The bits of 4.
pub const FOUR: u64 = 0x4010_0000_0000_0000;

/// The bits of 24.
pub const TWENTY_FOUR: u64 = 0x4038_0000_0000_0000;

/// The bits of pi.
pub const PI: u64 = 0x4009_21fb_5444_2d18;

/// The bits of a full turn, twice pi.
pub const TAU: u64 = 0x4019_21fb_5444_2d18;

/// The elementary operations on doubles. Nothing is presumed of an implementation: contracts speak
/// of whatever its methods returned.
pub trait Arithmetic {
    fn sum(&self, a: Double, b: Double) -> Double;

    fn difference(&self, a: Double, b: Double) -> Double;

    fn product(&self, a: Double, b: Double) -> Double;

    fn quotient(&self, a: Double, b: Double) -> Double;

    /// The remainder that lies between 0 and the divisor.
    fn remainder(&self, a: Double, b: Double) -> Double;

    fn square_root(&self, a: Double) -> Double;

    fn cube_root(&self, a: Double) -> Double;

    fn sine(&self, a: Double) -> Double;

    fn cosine(&self, a: Double) -> Double;

    fn arctangent(&self, a: Double) -> Double;

    fn logarithm(&self, a: Double) -> Double;

    fn exponential(&self, a: Double) -> Double;

    /// The next integer towards the negative side.
    fn floor(&self, a: Double) -> Double;

    /// The nearest integer; halves go away from 0.
    fn nearest(&self, a: Double) -> Double;

    /// The double nearest to an integer.
    fn of_signed(&self, n: i64) -> Double;

    /// The double nearest to an integer.
    fn of_unsigned(&self, n: u64) -> Double;

    /// The integer part, held to the range of the type; 0 for what is no number.
    fn to_signed(&self, a: Double) -> i64;

    /// The integer part, held to the range of the type; 0 for what is no number.
    fn to_unsigned(&self, a: Double) -> u64;

    /// The number that a text stands for, if it is a number.
    fn parse(&self, text: &str) -> Option<Double>;

    /// The text of a number with six decimals.
    fn six_decimals(&self, a: Double) -> String;
}

/// The operations with one operand.
#[derive(Clone, Copy, Debug, PartialEq, Eq, Structural)]
pub enum UnaryOp {
    Negation,
    SquareRoot,
    CubeRoot,
    Sine,
    Cosine,
    Arctangent,
    Logarithm,
    Exponential,
    Floor,
    Nearest,
}

/// The operations with two operands.
#[derive(Clone, Copy, Debug, PartialEq, Eq, Structural)]
pub enum BinaryOp {
    Sum,
    Difference,
    Product,
    Quotient,
    Remainder,
}

/// A formula.
pub enum Expr {
    Num(Double),
    Signed(i64),
    Unsigned(u64),
    Unary(UnaryOp, Box<Expr>),
    Binary(BinaryOp, Box<Expr>, Box<Expr>),
}

/// Whether an operation gives a result.
pub open spec fn unary_gives<K: Arithmetic>(k: &K, op: UnaryOp, a: Double, value: Double) -> bool {
    match op {
        UnaryOp::Negation => value == a.negated(),
        UnaryOp::SquareRoot => call_ensures(K::square_root, (k, a), value),
        UnaryOp::CubeRoot => call_ensures(K::cube_root, (k, a), value),
        UnaryOp::Sine => call_ensures(K::sine, (k, a), value),
        UnaryOp::Cosine => call_ensures(K::cosine, (k, a), value),
        UnaryOp::Arctangent => call_ensures(K::arctangent, (k, a), value),
        UnaryOp::Logarithm => call_ensures(K::logarithm, (k, a), value),
        UnaryOp::Exponential => call_ensures(K::exponential, (k, a), value),
        UnaryOp::Floor => call_ensures(K::floor, (k, a), value),
        UnaryOp::Nearest => call_ensures(K::nearest, (k, a), value),
    }
}

/// Whether an operation gives a result.
pub open spec fn binary_gives<K: Arithmetic>(
    k: &K,
    op: BinaryOp,
    a: Double,
    b: Double,
    value: Double,
) -> bool {
    match op {
        BinaryOp::Sum => call_ensures(K::sum, (k, a, b), value),
        BinaryOp::Difference => call_ensures(K::difference, (k, a, b), value),
        BinaryOp::Product => call_ensures(K::product, (k, a, b), value),
        BinaryOp::Quotient => call_ensures(K::quotient, (k, a, b), value),
        BinaryOp::Remainder => call_ensures(K::remainder, (k, a, b), value),
    }
}

/// Whether a formula evaluates to a value.
#[verifier::opaque]
pub open spec fn gives<K: Arithmetic>(k: &K, e: Expr, value: Double) -> bool
    decreases e,
{
    match e {
        Expr::Num(x) => value == x,
        Expr::Signed(n) => call_ensures(K::of_signed, (k, n), value),
        Expr::Unsigned(n) => call_ensures(K::of_unsigned, (k, n), value),
        Expr::Unary(op, a) => exists|x: Double|
            gives(k, *a, x) && #[trigger] unary_gives(k, op, x, value),
        Expr::Binary(op, a, b) => exists|x: Double, y: Double|
            gives(k, *a, x) && gives(k, *b, y) && #[trigger] binary_gives(k, op, x, y, value),
    }
}

// ---- Building formulas ----

/// A number.
pub open spec fn num(x: Double) -> Expr {
    Expr::Num(x)
}

/// The number with a bit pattern.
pub open spec fn lit(bits: u64) -> Expr {
    Expr::Num(Double { bits })
}

/// An integer as a number.
pub open spec fn int_of(n: i64) -> Expr {
    Expr::Signed(n)
}

/// A natural number as a number.
pub open spec fn nat_of(n: u64) -> Expr {
    Expr::Unsigned(n)
}

/// A sum.
pub open spec fn plus(a: Expr, b: Expr) -> Expr {
    Expr::Binary(BinaryOp::Sum, Box::new(a), Box::new(b))
}

/// A difference.
pub open spec fn minus(a: Expr, b: Expr) -> Expr {
    Expr::Binary(BinaryOp::Difference, Box::new(a), Box::new(b))
}

/// A product.
pub open spec fn times(a: Expr, b: Expr) -> Expr {
    Expr::Binary(BinaryOp::Product, Box::new(a), Box::new(b))
}

/// A quotient.
pub open spec fn over(a: Expr, b: Expr) -> Expr {
    Expr::Binary(BinaryOp::Quotient, Box::new(a), Box::new(b))
}

/// A remainder between 0 and the divisor.
pub open spec fn modulo(a: Expr, b: Expr) -> Expr {
    Expr::Binary(BinaryOp::Remainder, Box::new(a), Box::new(b))
}

/// A number with the other sign.
pub open spec fn neg_of(a: Expr) -> Expr {
    Expr::Unary(UnaryOp::Negation, Box::new(a))
}

/// A square root.
pub open spec fn sqrt_of(a: Expr) -> Expr {
    Expr::Unary(UnaryOp::SquareRoot, Box::new(a))
}

/// A cube root.
pub open spec fn cbrt_of(a: Expr) -> Expr {
    Expr::Unary(UnaryOp::CubeRoot, Box::new(a))
}

/// A sine.
pub open spec fn sin_of(a: Expr) -> Expr {
    Expr::Unary(UnaryOp::Sine, Box::new(a))
}

/// A cosine.
pub open spec fn cos_of(a: Expr) -> Expr {
    Expr::Unary(UnaryOp::Cosine, Box::new(a))
}

/// An arctangent.
pub open spec fn atan_of(a: Expr) -> Expr {
    Expr::Unary(UnaryOp::Arctangent, Box::new(a))
}

/// A natural logarithm.
pub open spec fn ln_of(a: Expr) -> Expr {
    Expr::Unary(UnaryOp::Logarithm, Box::new(a))
}

/// A power of e.
pub open spec fn exp_of(a: Expr) -> Expr {
    Expr::Unary(UnaryOp::Exponential, Box::new(a))
}

/// The next integer towards the negative side.
pub open spec fn floor_of(a: Expr) -> Expr {
    Expr::Unary(UnaryOp::Floor, Box::new(a))
}

/// The nearest integer.
pub open spec fn nearest_of(a: Expr) -> Expr {
    Expr::Unary(UnaryOp::Nearest, Box::new(a))
}

// ---- Evaluating formulas ----

/// A value, and the formula that it is the value of.
#[derive(Clone, Copy)]
pub struct Term {
    pub value: Double,
    pub expr: Ghost<Expr>,
}

impl Term {
    /// Whether the value is one of the formula.
    pub open spec fn of<K: Arithmetic>(self, k: &K) -> bool {
        gives(k, self.expr@, self.value)
    }
}

/// Evaluates formulas operation by operation.
pub struct Calc<'a, K> {
    pub k: &'a K,
}

impl<'a, K: Arithmetic> Calc<'a, K> {
    /// The operations of an implementation.
    pub fn new(k: &'a K) -> (c: Calc<'a, K>)
        ensures
            c.k == k,
    {
        Calc { k }
    }

    /// A number.
    pub fn num(&self, x: Double) -> (t: Term)
        ensures
            t.of(self.k),
            t.value == x,
            t.expr@ == num(x),
    {
        reveal(gives);
        Term { value: x, expr: Ghost(num(x)) }
    }

    /// The number with a bit pattern.
    pub fn lit(&self, bits: u64) -> (t: Term)
        ensures
            t.of(self.k),
            t.value == (Double { bits }),
            t.expr@ == lit(bits),
    {
        self.num(Double::from_bits(bits))
    }

    /// An integer as a number.
    pub fn int_of(&self, n: i64) -> (t: Term)
        ensures
            t.of(self.k),
            t.expr@ == int_of(n),
    {
        reveal(gives);
        Term { value: self.k.of_signed(n), expr: Ghost(int_of(n)) }
    }

    /// A natural number as a number.
    pub fn nat_of(&self, n: u64) -> (t: Term)
        ensures
            t.of(self.k),
            t.expr@ == nat_of(n),
    {
        reveal(gives);
        Term { value: self.k.of_unsigned(n), expr: Ghost(nat_of(n)) }
    }

    fn unary(&self, op: UnaryOp, a: Term) -> (t: Term)
        requires
            a.of(self.k),
        ensures
            t.of(self.k),
            t.expr@ == Expr::Unary(op, Box::new(a.expr@)),
    {
        let value = match op {
            UnaryOp::Negation => a.value.neg(),
            UnaryOp::SquareRoot => self.k.square_root(a.value),
            UnaryOp::CubeRoot => self.k.cube_root(a.value),
            UnaryOp::Sine => self.k.sine(a.value),
            UnaryOp::Cosine => self.k.cosine(a.value),
            UnaryOp::Arctangent => self.k.arctangent(a.value),
            UnaryOp::Logarithm => self.k.logarithm(a.value),
            UnaryOp::Exponential => self.k.exponential(a.value),
            UnaryOp::Floor => self.k.floor(a.value),
            UnaryOp::Nearest => self.k.nearest(a.value),
        };
        let ghost expr = Expr::Unary(op, Box::new(a.expr@));
        proof {
            reveal_with_fuel(gives, 2);
            assert(unary_gives(self.k, op, a.value, value));
            assert(gives(self.k, expr, value));
        }
        Term { value, expr: Ghost(expr) }
    }

    fn binary(&self, op: BinaryOp, a: Term, b: Term) -> (t: Term)
        requires
            a.of(self.k),
            b.of(self.k),
        ensures
            t.of(self.k),
            t.expr@ == Expr::Binary(op, Box::new(a.expr@), Box::new(b.expr@)),
    {
        let value = match op {
            BinaryOp::Sum => self.k.sum(a.value, b.value),
            BinaryOp::Difference => self.k.difference(a.value, b.value),
            BinaryOp::Product => self.k.product(a.value, b.value),
            BinaryOp::Quotient => self.k.quotient(a.value, b.value),
            BinaryOp::Remainder => self.k.remainder(a.value, b.value),
        };
        let ghost expr = Expr::Binary(op, Box::new(a.expr@), Box::new(b.expr@));
        proof {
            reveal_with_fuel(gives, 2);
            assert(binary_gives(self.k, op, a.value, b.value, value));
            assert(gives(self.k, expr, value));
        }
        Term { value, expr: Ghost(expr) }
    }

    /// A sum.
    pub fn plus(&self, a: Term, b: Term) -> (t: Term)
        requires
            a.of(self.k),
            b.of(self.k),
        ensures
            t.of(self.k),
            t.expr@ == plus(a.expr@, b.expr@),
    {
        self.binary(BinaryOp::Sum, a, b)
    }

    /// A difference.
    pub fn minus(&self, a: Term, b: Term) -> (t: Term)
        requires
            a.of(self.k),
            b.of(self.k),
        ensures
            t.of(self.k),
            t.expr@ == minus(a.expr@, b.expr@),
    {
        self.binary(BinaryOp::Difference, a, b)
    }

    /// A product.
    pub fn times(&self, a: Term, b: Term) -> (t: Term)
        requires
            a.of(self.k),
            b.of(self.k),
        ensures
            t.of(self.k),
            t.expr@ == times(a.expr@, b.expr@),
    {
        self.binary(BinaryOp::Product, a, b)
    }

    /// A quotient.
    pub fn over(&self, a: Term, b: Term) -> (t: Term)
        requires
            a.of(self.k),
            b.of(self.k),
        ensures
            t.of(self.k),
            t.expr@ == over(a.expr@, b.expr@),
    {
        self.binary(BinaryOp::Quotient, a, b)
    }

    /// A remainder between 0 and the divisor.
    pub fn modulo(&self, a: Term, b: Term) -> (t: Term)
        requires
            a.of(self.k),
            b.of(self.k),
        ensures
            t.of(self.k),
            t.expr@ == modulo(a.expr@, b.expr@),
    {
        self.binary(BinaryOp::Remainder, a, b)
    }

    /// A number with the other sign.
    pub fn neg_of(&self, a: Term) -> (t: Term)
        requires
            a.of(self.k),
        ensures
            t.of(self.k),
            t.expr@ == neg_of(a.expr@),
    {
        self.unary(UnaryOp::Negation, a)
    }

    /// A square root.
    pub fn sqrt_of(&self, a: Term) -> (t: Term)
        requires
            a.of(self.k),
        ensures
            t.of(self.k),
            t.expr@ == sqrt_of(a.expr@),
    {
        self.unary(UnaryOp::SquareRoot, a)
    }

    /// A cube root.
    pub fn cbrt_of(&self, a: Term) -> (t: Term)
        requires
            a.of(self.k),
        ensures
            t.of(self.k),
            t.expr@ == cbrt_of(a.expr@),
    {
        self.unary(UnaryOp::CubeRoot, a)
    }

    /// A sine.
    pub fn sin_of(&self, a: Term) -> (t: Term)
        requires
            a.of(self.k),
        ensures
            t.of(self.k),
            t.expr@ == sin_of(a.expr@),
    {
        self.unary(UnaryOp::Sine, a)
    }

    /// A cosine.
    pub fn cos_of(&self, a: Term) -> (t: Term)
        requires
            a.of(self.k),
        ensures
            t.of(self.k),
            t.expr@ == cos_of(a.expr@),
    {
        self.unary(UnaryOp::Cosine, a)
    }

    /// An arctangent.
    pub fn atan_of(&self, a: Term) -> (t: Term)
        requires
            a.of(self.k),
        ensures
            t.of(self.k),
            t.expr@ == atan_of(a.expr@),
    {
        self.unary(UnaryOp::Arctangent, a)
    }

    /// A natural logarithm.
    pub fn ln_of(&self, a: Term) -> (t: Term)
        requires
            a.of(self.k),
        ensures
            t.of(self.k),
            t.expr@ == ln_of(a.expr@),
    {
        self.unary(UnaryOp::Logarithm, a)
    }

    /// A power of e.
    pub fn exp_of(&self, a: Term) -> (t: Term)
        requires
            a.of(self.k),
        ensures
            t.of(self.k),
            t.expr@ == exp_of(a.expr@),
    {
        self.unary(UnaryOp::Exponential, a)
    }

    /// The next integer towards the negative side.
    pub fn floor_of(&self, a: Term) -> (t: Term)
        requires
            a.of(self.k),
        ensures
            t.of(self.k),
            t.expr@ == floor_of(a.expr@),
    {
        self.unary(UnaryOp::Floor, a)
    }

    /// The nearest integer.
    pub fn nearest_of(&self, a: Term) -> (t: Term)
        requires
            a.of(self.k),
        ensures
            t.of(self.k),
            t.expr@ == nearest_of(a.expr@),
    {
        self.unary(UnaryOp::Nearest, a)
    }
}

// ---- One value for one formula ----

/// Whether the operations give one result for one input.
pub open spec fn steady<K: Arithmetic>(k: &K) -> bool {
    &&& forall|op: UnaryOp, x: Double, a: Double, b: Double| #[trigger]
        unary_gives(k, op, x, a) && #[trigger] unary_gives(k, op, x, b) ==> a == b
    &&& forall|op: BinaryOp, x: Double, y: Double, a: Double, b: Double| #[trigger]
        binary_gives(k, op, x, y, a) && #[trigger] binary_gives(k, op, x, y, b) ==> a == b
    &&& forall|n: i64, a: Double, b: Double| #[trigger]
        call_ensures(K::of_signed, (k, n), a) && #[trigger] call_ensures(K::of_signed, (k, n), b)
            ==> a == b
    &&& forall|n: u64, a: Double, b: Double| #[trigger]
        call_ensures(K::of_unsigned, (k, n), a) && #[trigger] call_ensures(K::of_unsigned, (k, n), b)
            ==> a == b
    &&& forall|x: Double, a: i64, b: i64| #[trigger]
        call_ensures(K::to_signed, (k, x), a) && #[trigger] call_ensures(K::to_signed, (k, x), b)
            ==> a == b
    &&& forall|x: Double, a: u64, b: u64| #[trigger]
        call_ensures(K::to_unsigned, (k, x), a) && #[trigger] call_ensures(K::to_unsigned, (k, x), b)
            ==> a == b
    &&& forall|s: &str, t: &str, a: Option<Double>, b: Option<Double>| #[trigger]
        call_ensures(K::parse, (k, s), a) && #[trigger] call_ensures(K::parse, (k, t), b) && s@
            == t@ ==> a == b
    &&& forall|x: Double, a: String, b: String| #[trigger]
        call_ensures(K::six_decimals, (k, x), a) && #[trigger] call_ensures(
            K::six_decimals,
            (k, x),
            b,
        ) ==> a@ == b@
}

/// Whether every formula has at most one value.
pub open spec fn single_valued<K: Arithmetic>(k: &K) -> bool {
    forall|e: Expr, a: Double, b: Double| #[trigger]
        gives(k, e, a) && #[trigger] gives(k, e, b) ==> a == b
}

/// Where the operations give one result for one input, a formula has at most one value.
pub proof fn law_formula_has_one_value<K: Arithmetic>(k: &K, e: Expr, a: Double, b: Double)
    requires
        steady(k),
        gives(k, e, a),
        gives(k, e, b),
    ensures
        a == b,
    decreases e,
{
    reveal_with_fuel(gives, 2);
    match e {
        Expr::Unary(op, inner) => {
            let x = choose|x: Double|
                gives(k, *inner, x) && #[trigger] unary_gives(k, op, x, a);
            let y = choose|y: Double|
                gives(k, *inner, y) && #[trigger] unary_gives(k, op, y, b);
            law_formula_has_one_value(k, *inner, x, y);
        },
        Expr::Binary(op, left, right) => {
            let (x0, x1): (Double, Double) = choose|x0: Double, x1: Double|
                gives(k, *left, x0) && gives(k, *right, x1) && #[trigger] binary_gives(
                    k,
                    op,
                    x0,
                    x1,
                    a,
                );
            let (y0, y1): (Double, Double) = choose|y0: Double, y1: Double|
                gives(k, *left, y0) && gives(k, *right, y1) && #[trigger] binary_gives(
                    k,
                    op,
                    y0,
                    y1,
                    b,
                );
            law_formula_has_one_value(k, *left, x0, y0);
            law_formula_has_one_value(k, *right, x1, y1);
        },
        _ => {},
    }
}

/// Where the operations give one result for one input, every formula has at most one value.
pub proof fn law_steady_is_single_valued<K: Arithmetic>(k: &K)
    requires
        steady(k),
    ensures
        single_valued(k),
{
    assert forall|e: Expr, a: Double, b: Double| #[trigger]
        gives(k, e, a) && #[trigger] gives(k, e, b) implies a == b by {
        law_formula_has_one_value(k, e, a, b);
    }
}

} // verus!
