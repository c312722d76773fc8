//! Variables and literals, and their signed 32-bit wire encoding.

use vstd::prelude::*;
use vstd::std_specs::ops::NotSpec;

verus! {

/// The largest variable index whose literals still fit the encoding.
pub const MAX_VAR_INDEX: i32 = 0x3fff_ffff;

/// A propositional variable, identified by its zero-based index.
#[derive(Debug, Clone, Copy, PartialEq, Eq, Structural)]
pub struct Var(i32);

impl Var {
    /// The index of the variable.
    pub closed spec fn index(self) -> int {
        self.0 as int
    }

    /// A variable whose literals can be encoded.
    pub open spec fn valid(self) -> bool {
        0 <= self.index() <= MAX_VAR_INDEX
    }

    /// Two variables are equal exactly when their indices are.
    pub proof fn lemma_index_injective(a: Var, b: Var)
        ensures
            (a == b) <==> (a.index() == b.index()),
    {
    }

    /// Converting from an integer keeps it as the index, and back again.
    pub proof fn lemma_from_i32(i: i32)
        ensures
            <Var as vstd::std_specs::convert::FromSpec<i32>>::from_spec(i).index() == i,
            <i32 as vstd::std_specs::convert::FromSpec<Var>>::from_spec(
                <Var as vstd::std_specs::convert::FromSpec<i32>>::from_spec(i),
            ) == i,
    {
    }

    /// Converting to an integer gives the index.
    pub proof fn lemma_into_i32(v: Var)
        ensures
            <i32 as vstd::std_specs::convert::FromSpec<Var>>::from_spec(v) == v.index(),
    {
    }
}

impl From<i32> for Var {
    /// The variable with the given index.
    fn from(value: i32) -> (r: Var) {
        Var(value)
    }
}

impl vstd::std_specs::convert::FromSpecImpl<i32> for Var {
    open spec fn obeys_from_spec() -> bool {
        true
    }

    closed spec fn from_spec(v: i32) -> Var {
        Var(v)
    }
}

impl From<Var> for i32 {
    /// The index of the variable.
    fn from(value: Var) -> (r: i32) {
        value.0
    }
}

impl vstd::std_specs::convert::FromSpecImpl<Var> for i32 {
    open spec fn obeys_from_spec() -> bool {
        true
    }

    closed spec fn from_spec(v: Var) -> i32 {
        v.0
    }
}

/// A variable together with a polarity, encoded as
/// `2 * index + (1 if negated else 0)`.
#[derive(Debug, Clone, Copy, PartialEq, Eq, Structural)]
pub struct Lit(i32);

impl Lit {
    /// The integer encoding of the literal.
    pub closed spec fn code(self) -> int {
        self.0 as int
    }

    /// The index of the literal's variable.
    pub open spec fn var_index(self) -> int {
        self.code() / 2
    }

    /// Whether the literal stands for the negation of its variable.
    pub open spec fn negated(self) -> bool {
        self.code() % 2 == 1
    }

    /// A literal built from a variable that can be encoded.
    pub open spec fn valid(self) -> bool {
        0 <= self.code() <= i32::MAX
    }

    /// The literal over the variable of index `index` with polarity `neg`.
    pub closed spec fn spec_lit(index: int, neg: bool) -> Lit {
        Lit((2 * index + if neg { 1int } else { 0int }) as i32)
    }

    /// A valid literal is determined by its variable and its polarity.
    pub proof fn lemma_from_parts(l: Lit)
        requires
            l.valid(),
        ensures
            l == Lit::spec_lit(l.var_index(), l.negated()),
    {
    }

    /// Two literals are equal exactly when their encodings are.
    pub proof fn lemma_code_injective(a: Lit, b: Lit)
        ensures
            (a == b) <==> (a.code() == b.code()),
    {
    }

    /// Converting a valid variable gives its positive literal.
    pub proof fn lemma_from_var(v: Var)
        requires
            v.valid(),
        ensures
            <Lit as vstd::std_specs::convert::FromSpec<Var>>::from_spec(v) == Lit::spec_lit(v.index(), false),
    {
    }

    /// Negation flips the polarity and keeps the variable: the encoding
    /// changes in its lowest bit alone.
    pub proof fn lemma_not(l: Lit)
        ensures
            l.not_spec().code() == if l.negated() { l.code() - 1 } else { l.code() + 1 },
            l.not_spec().var_index() == l.var_index(),
            l.not_spec().negated() == !l.negated(),
            l.valid() ==> l.not_spec().valid(),
    {
        let x = l.0;
        let y = x ^ 1;
        assert(x & 1 == 1 ==> y == x - 1) by (bit_vector)
            requires
                y == x ^ 1,
        ;
        assert(x & 1 == 0 ==> y == x + 1) by (bit_vector)
            requires
                y == x ^ 1,
        ;
        assert(x & 1 == x % 2) by (bit_vector);
    }

    /// Building a literal from a valid variable and a polarity, then reading
    /// back its variable and polarity, gives exactly what it was built from.
    pub proof fn lemma_round_trip(v: Var, neg: bool)
        requires
            v.valid(),
        ensures
            Lit::spec_lit(v.index(), neg).var_index() == v.index(),
            Lit::spec_lit(v.index(), neg).negated() == neg,
            Lit::spec_lit(v.index(), neg).code() == 2 * v.index() + if neg { 1int } else { 0int },
            Lit::spec_lit(v.index(), neg).valid(),
    {
    }

    /// Negation is an involution without fixed points: negating twice gives
    /// the literal back, and negating once never does.
    pub proof fn lemma_negate_involution(l: Lit)
        ensures
            l.not_spec().not_spec() == l,
            l.not_spec() != l,
    {
        Lit::lemma_not(l);
        Lit::lemma_not(l.not_spec());
        Lit::lemma_code_injective(l.not_spec().not_spec(), l);
    }

    /// The literal of `var`, negated when `compl` is set.
    pub fn new(var: Var, compl: bool) -> (r: Lit)
        requires
            var.valid(),
        ensures
            r.code() == 2 * var.index() + if compl { 1int } else { 0int },
            r == Lit::spec_lit(var.index(), compl),
            r.valid(),
            r.var_index() == var.index(),
            r.negated() == compl,
    {
        Lit(var.0 + var.0 + if compl { 1i32 } else { 0i32 })
    }

    /// The variable of the literal: the encoding shifted right by one.
    pub fn var(&self) -> (r: Var)
        ensures
            r.index() == self.var_index(),
    {
        let x = self.0;
        let r = x >> 1;
        assert(r == x / 2) by (bit_vector)
            requires
                r == x >> 1,
        ;
        Var(r)
    }

    /// Whether the literal is negated: the lowest bit of the encoding.
    pub fn compl(&self) -> (r: bool)
        ensures
            r == self.negated(),
    {
        let x = self.0;
        let b = x & 1;
        assert(b == x % 2) by (bit_vector)
            requires
                b == x & 1,
        ;
        b > 0
    }
}

impl From<Var> for Lit {
    /// The positive literal of the variable.
    fn from(value: Var) -> (r: Lit) {
        Lit(value.0.wrapping_add(value.0))
    }
}

impl vstd::std_specs::convert::FromSpecImpl<Var> for Lit {
    open spec fn obeys_from_spec() -> bool {
        true
    }

    closed spec fn from_spec(v: Var) -> Lit {
        Lit(vstd::wrapping::i32_specs::wrapping_add(v.0, v.0))
    }
}

impl core::ops::Not for Lit {
    type Output = Lit;

    /// The literal of the same variable with the other polarity.
    fn not(self) -> (r: Lit) {
        Lit(self.0 ^ 1)
    }
}

impl vstd::std_specs::ops::NotSpecImpl for Lit {
    open spec fn obeys_not_spec() -> bool {
        true
    }

    open spec fn not_req(self) -> bool {
        true
    }

    closed spec fn not_spec(self) -> Lit {
        Lit(self.0 ^ 1)
    }
}

} // verus!
