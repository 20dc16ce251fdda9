//! Literals: a variable together with a polarity, packed into 32 bits.

use vstd::prelude::*;
use vstd::std_specs::convert::FromSpecImpl;

verus! {

/// Index of a propositional variable, counted from zero.
pub type VariableId = usize;

/// The largest number of variables of a formula, and the largest variable
/// id that a literal can name: an id takes 31 bits. A formula never names
/// the largest id, so no literal of a formula has the code that marks a
/// missing literal.
pub const MAX_VARS: usize = 0x7FFF_FFFF;

/// The code with all bits set, kept apart as the mark of a missing literal.
pub const INVALID_CODE: u32 = 0xFFFF_FFFF;

/// A variable or its negation.
///
/// Bit 0 holds the polarity (0 for the positive literal, 1 for the negated
/// one), the bits above it hold the variable id. Literals therefore order by
/// variable first, and at equal variable the positive one comes first.
#[derive(Debug, Clone, Copy, PartialEq, Eq, PartialOrd, Ord, Hash, Structural)]
pub struct Lit(pub u32);

impl Lit {
    /// The literal that stands for "none": its code is `INVALID_CODE`.
    pub open spec fn spec_invalid() -> Lit {
        Lit(INVALID_CODE)
    }

    /// The literal that stands for "none".
    #[verifier::when_used_as_spec(spec_invalid)]
    pub fn invalid() -> (lit: Lit)
        ensures
            lit == Lit::spec_invalid(),
    {
        Lit(INVALID_CODE)
    }

    /// The literal of `var` with the given polarity.
    pub open spec fn spec_new(var: usize, is_pos: bool) -> Lit {
        Lit((2 * var + if is_pos { 0int } else { 1int }) as u32)
    }

    /// The variable id: the code without its lowest bit.
    pub open spec fn spec_var(self) -> usize {
        (self.0 / 2) as usize
    }

    /// The literal is the variable itself.
    pub open spec fn spec_is_pos(self) -> bool {
        self.0 % 2 == 0
    }

    /// The literal is the negation of its variable.
    pub open spec fn spec_is_neg(self) -> bool {
        self.0 % 2 == 1
    }

    /// The negative literal of the same variable.
    pub open spec fn spec_negated(self) -> Lit {
        Lit::spec_new(self.spec_var(), false)
    }

    /// The literal of the same variable with the opposite polarity.
    pub open spec fn spec_inverted(self) -> Lit {
        Lit::spec_new(self.spec_var(), !self.spec_is_pos())
    }

    /// The value of the literal once its variable has the value `value`.
    pub open spec fn spec_eval_with(self, value: bool) -> bool {
        self.spec_is_pos() == value
    }

    /// The literal that a non-zero signed number stands for: `k` is variable
    /// `k - 1`, `-k` its negation. Zero names no variable, and the least
    /// number names one beyond `MAX_VARS`: both give the invalid literal.
    pub open spec fn spec_from_signed(value: i32) -> Lit {
        if value > 0 {
            Lit::spec_new((value - 1) as usize, true)
        } else if value < 0 {
            Lit::spec_new((-(value + 1)) as usize, false)
        } else {
            Lit(INVALID_CODE)
        }
    }

    /// The literal of `var` with the given polarity. The variable id must
    /// fit 31 bits. The negated literal of the last such id has the code
    /// that also marks a missing literal; a formula never holds it, since
    /// it has at most `MAX_VARS` variables.
    pub fn new(var: usize, is_pos: bool) -> (lit: Lit)
        requires
            var <= MAX_VARS,
        ensures
            lit == Lit::spec_new(var, is_pos),
            lit.spec_var() == var,
            lit.spec_is_pos() == is_pos,
    {
        let v: u32 = var as u32;
        let bit: u32 = if is_pos { 0 } else { 1 };
        assert((v << 1) | bit == 2 * v + bit) by (bit_vector)
            requires
                v <= 0x7FFF_FFFFu32,
                bit <= 1u32,
        ;
        Lit((v << 1) | bit)
    }

    /// The variable id of the literal.
    #[verifier::when_used_as_spec(spec_var)]
    pub fn var(self) -> (var: VariableId)
        ensures
            var == self.spec_var(),
            var <= MAX_VARS,
    {
        let code: u32 = self.0;
        assert(code >> 1 == code / 2) by (bit_vector);
        (code >> 1) as usize
    }

    /// Whether the literal is the variable itself.
    #[verifier::when_used_as_spec(spec_is_pos)]
    pub fn is_pos(self) -> (pos: bool)
        ensures
            pos == self.spec_is_pos(),
    {
        let code: u32 = self.0;
        assert(code & 1 == code % 2) by (bit_vector);
        (code & 1) == 0
    }

    /// Whether the literal is the negation of its variable.
    #[verifier::when_used_as_spec(spec_is_neg)]
    pub fn is_neg(self) -> (neg: bool)
        ensures
            neg == self.spec_is_neg(),
            neg == !self.spec_is_pos(),
    {
        let code: u32 = self.0;
        assert(code & 1 == code % 2) by (bit_vector);
        (code & 1) == 1
    }

    /// The negative literal of the same variable.
    #[verifier::when_used_as_spec(spec_negated)]
    pub fn negated(self) -> (lit: Lit)
        ensures
            lit == self.spec_negated(),
            lit.spec_var() == self.spec_var(),
            lit.spec_is_neg(),
    {
        let code: u32 = self.0;
        assert(code | 1 == 2 * (code / 2) + 1) by (bit_vector);
        Lit(code | 1)
    }

    /// The literal of the same variable with the opposite polarity.
    #[verifier::when_used_as_spec(spec_inverted)]
    pub fn inverted(self) -> (lit: Lit)
        ensures
            lit == self.spec_inverted(),
            lit.spec_var() == self.spec_var(),
            lit.spec_is_pos() == !self.spec_is_pos(),
    {
        let code: u32 = self.0;
        assert(code ^ 1 == if code % 2 == 0 {
            code + 1
        } else {
            code - 1
        }) by (bit_vector);
        Lit(code ^ 1)
    }

    /// Evaluates the literal for a value of its variable: the positive
    /// literal is true when the variable is, the negated one when it is not.
    #[verifier::when_used_as_spec(spec_eval_with)]
    pub fn eval_with(self, value: bool) -> (truth: bool)
        ensures
            truth == self.spec_eval_with(value),
    {
        self.is_neg() != value
    }
}

impl From<i32> for Lit {
    /// The literal that a signed number stands for, as in the DIMACS format.
    fn from(value: i32) -> (lit: Lit) {
        if value > 0 {
            Lit::new((value - 1) as usize, true)
        } else if value < 0 && value > i32::MIN {
            Lit::new((-(value + 1)) as usize, false)
        } else {
            Lit(INVALID_CODE)
        }
    }
}

impl FromSpecImpl<i32> for Lit {
    open spec fn obeys_from_spec() -> bool {
        true
    }

    open spec fn from_spec(value: i32) -> Lit {
        Lit::spec_from_signed(value)
    }
}

/// Literals order as their codes do, and that is the order by variable id
/// with the positive literal before the negated one of the same variable.
pub proof fn lemma_lit_order(a: Lit, b: Lit)
    ensures
        a.0 < b.0 <==> (a.spec_var() < b.spec_var() || (a.spec_var() == b.spec_var()
            && a.spec_is_pos() && b.spec_is_neg())),
        a.0 == b.0 <==> (a.spec_var() == b.spec_var() && a.spec_is_pos() == b.spec_is_pos()),
{
}

/// The code of a literal is twice its variable id, plus one for the
/// negated literal; so literals made of ids that fit 31 bits order by
/// variable, and the positive literal of a variable comes before the
/// negated one.
pub proof fn lemma_new_order(first: usize, first_pos: bool, second: usize, second_pos: bool)
    requires
        first <= MAX_VARS,
        second <= MAX_VARS,
    ensures
        Lit::spec_new(first, first_pos).0 == 2 * first + if first_pos {
            0int
        } else {
            1int
        },
        Lit::spec_new(first, first_pos).spec_var() == first,
        Lit::spec_new(first, first_pos).spec_is_pos() == first_pos,
        Lit::spec_new(first, first_pos).0 < Lit::spec_new(second, second_pos).0 <==> first
            < second || (first == second && first_pos && !second_pos),
{
}

/// Inverting twice gives the literal back, and a literal and its inverse
/// never evaluate alike.
pub proof fn lemma_inverted_involution(lit: Lit, value: bool)
    ensures
        lit.spec_inverted().spec_inverted() == lit,
        lit.spec_inverted().spec_eval_with(value) == !lit.spec_eval_with(value),
{
}

} // verus!
