//! Circuit variables and literals.
//!
//! A variable is a non-negative index into the engine's numbering space.
//! A literal carries a variable together with a polarity, encoded as
//! `2 * variable + (1 if negated else 0)`.

use vstd::prelude::*;

verus! {

/// Largest variable index whose positive and negative literals both fit in an `i32`.
pub const LIT_VAR_LIMIT: i32 = 1073741823;

/// An indexed circuit node inside the engine's numbering space.
#[derive(Debug, Clone, Copy, PartialEq, Eq, Structural)]
pub struct Var(pub i32);

/// A variable reference carrying a polarity (asserted or negated),
/// encoded as `2 * variable + polarity`.
#[derive(Debug, Clone, Copy, PartialEq, Eq, Structural)]
pub struct Lit(pub i32);

/// A well-formed literal: its code is non-negative, so it denotes
/// `2 * variable + polarity` for a non-negative variable.
pub open spec fn lit_wf(l: Lit) -> bool {
    l.0 >= 0
}

/// The variable index a literal refers to.
pub open spec fn lit_var_spec(l: Lit) -> int {
    l.0 as int / 2
}

/// Whether a literal is negated (its low bit is set).
pub open spec fn lit_neg_spec(l: Lit) -> bool {
    l.0 as int % 2 == 1
}

/// The literal for variable `v` with polarity `neg`.
pub open spec fn mk_lit(v: int, neg: bool) -> Lit {
    Lit((if neg { 2 * v + 1 } else { 2 * v }) as i32)
}

/// The literal with the same variable and the opposite polarity.
pub open spec fn spec_negate(l: Lit) -> Lit {
    if l.0 as int % 2 == 0 {
        Lit((l.0 + 1) as i32)
    } else {
        Lit((l.0 - 1) as i32)
    }
}

impl Lit {
    /// Builds the literal `2 * var + (1 if compl else 0)`.
    pub fn new(var: Var, compl: bool) -> (r: Lit)
        requires
            0 <= var.0 <= LIT_VAR_LIMIT,
        ensures
            r == mk_lit(var.0 as int, compl),
            lit_wf(r),
            lit_var_spec(r) == var.0 as int,
            lit_neg_spec(r) == compl,
    {
        Lit(var.0 + var.0 + if compl { 1 } else { 0 })
    }

    /// The variable this literal refers to.
    pub fn var(&self) -> (r: Var)
        requires
            lit_wf(*self),
        ensures
            r.0 as int == lit_var_spec(*self),
    {
        Var(((self.0 as u32) / 2) as i32)
    }

    /// Whether this literal is negated.
    pub fn compl(&self) -> (r: bool)
        requires
            lit_wf(*self),
        ensures
            r == lit_neg_spec(*self),
    {
        (self.0 as u32) % 2 == 1
    }

    /// The same variable with the opposite polarity; toggles only the low bit.
    pub fn negate(&self) -> (r: Lit)
        requires
            lit_wf(*self),
        ensures
            r == spec_negate(*self),
            lit_wf(r),
            lit_var_spec(r) == lit_var_spec(*self),
            lit_neg_spec(r) == !lit_neg_spec(*self),
    {
        if (self.0 as u32) % 2 == 0 {
            Lit(self.0 + 1)
        } else {
            Lit(self.0 - 1)
        }
    }
}

/// Encoding a variable and polarity into a literal and projecting them
/// back returns the inputs unchanged.
pub proof fn lemma_lit_roundtrip(v: int, p: bool)
    requires
        0 <= v <= LIT_VAR_LIMIT,
    ensures
        lit_wf(mk_lit(v, p)),
        lit_var_spec(mk_lit(v, p)) == v,
        lit_neg_spec(mk_lit(v, p)) == p,
{
}

/// Negation is an involution and never changes the variable.
pub proof fn lemma_negate_involution(l: Lit)
    requires
        lit_wf(l),
    ensures
        spec_negate(spec_negate(l)) == l,
        lit_var_spec(spec_negate(l)) == lit_var_spec(l),
        lit_neg_spec(spec_negate(l)) == !lit_neg_spec(l),
        lit_wf(spec_negate(l)),
{
}

} // verus!
