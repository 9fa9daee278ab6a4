//! The symbols a one-loop integral is written with, all in the `oneloopreduce` namespace.

use vstd::prelude::*;
use vstd::string::StringExecFns;

use symbolica::atom::Symbol;

use crate::expr::{
    is_plain_ident, is_plain_symbol_name, lemma_own_name, named_symbol, own_namespace,
    symmetric_linear_symbol, NamedSymbol,
};
use crate::text::{decimal, lemma_decimal_injective};

verus! {

/// The symbols of the one-loop reducer. Only [`one_loop_symbols`] makes one, so every field
/// is a symbol of the `oneloopreduce` namespace with a plain name (never a wildcard).
pub struct OneLoopSymbols {
    d: NamedSymbol,
    psq: NamedSymbol,
    k: NamedSymbol,
    q1: NamedSymbol,
    q2: NamedSymbol,
    q3: NamedSymbol,
    dot: Symbol,
    a0: NamedSymbol,
    b0: NamedSymbol,
    c0: NamedSymbol,
    d0: NamedSymbol,
}

/// The name of the 0-based `j`-th external momentum, `oneloopreduce::q{j+1}`.
pub open spec fn external_name(j: nat) -> Seq<char> {
    own_namespace() + seq![':', ':', 'q'] + decimal(j + 1)
}

/// Distinct externals are looked up under distinct names.
pub proof fn lemma_external_names_distinct(i: nat, j: nat)
    requires
        i != j,
    ensures
        external_name(i) != external_name(j),
{
    if external_name(i) == external_name(j) {
        let p = own_namespace() + seq![':', ':', 'q'];
        assert(external_name(i).subrange(p.len() as int, external_name(i).len() as int) =~= decimal(i + 1));
        assert(external_name(j).subrange(p.len() as int, external_name(j).len() as int) =~= decimal(j + 1));
        lemma_decimal_injective(i + 1, j + 1);
    }
}

impl OneLoopSymbols {
    /// The names the external momenta `q1`, `q2`, `q3` were looked up under.
    pub closed spec fn external_names(&self) -> Seq<Seq<char>> {
        seq![self.q1.name(), self.q2.name(), self.q3.name()]
    }

    /// The `d` field.
    pub closed spec fn d_symbol(&self) -> Symbol {
        self.d.symbol_value()
    }

    /// The `psq` field.
    pub closed spec fn psq_symbol(&self) -> Symbol {
        self.psq.symbol_value()
    }

    /// The `k` field.
    pub closed spec fn k_symbol(&self) -> Symbol {
        self.k.symbol_value()
    }

    /// The `q1` field.
    pub closed spec fn q1_symbol(&self) -> Symbol {
        self.q1.symbol_value()
    }

    /// The `q2` field.
    pub closed spec fn q2_symbol(&self) -> Symbol {
        self.q2.symbol_value()
    }

    /// The `q3` field.
    pub closed spec fn q3_symbol(&self) -> Symbol {
        self.q3.symbol_value()
    }

    /// The `dot` field.
    pub closed spec fn dot_symbol(&self) -> Symbol {
        self.dot
    }

    /// The `a0` field.
    pub closed spec fn a0_symbol(&self) -> Symbol {
        self.a0.symbol_value()
    }

    /// The `b0` field.
    pub closed spec fn b0_symbol(&self) -> Symbol {
        self.b0.symbol_value()
    }

    /// The `c0` field.
    pub closed spec fn c0_symbol(&self) -> Symbol {
        self.c0.symbol_value()
    }

    /// The `d0` field.
    pub closed spec fn d0_symbol(&self) -> Symbol {
        self.d0.symbol_value()
    }

    /// Spacetime dimension `d`.
    pub fn d(&self) -> (s: Symbol)
        ensures
            s == self.d_symbol(),
    {
        self.d.symbol()
    }

    /// The bubble invariant `p^2`.
    pub fn psq(&self) -> (s: Symbol)
        ensures
            s == self.psq_symbol(),
    {
        self.psq.symbol()
    }

    /// The loop momentum.
    pub fn k(&self) -> (s: Symbol)
        ensures
            s == self.k_symbol(),
    {
        self.k.symbol()
    }

    /// The first external momentum.
    pub fn q1(&self) -> (s: Symbol)
        ensures
            s == self.q1_symbol(),
    {
        self.q1.symbol()
    }

    /// The second external momentum.
    pub fn q2(&self) -> (s: Symbol)
        ensures
            s == self.q2_symbol(),
    {
        self.q2.symbol()
    }

    /// The third external momentum.
    pub fn q3(&self) -> (s: Symbol)
        ensures
            s == self.q3_symbol(),
    {
        self.q3.symbol()
    }

    /// The symmetric, linear dot product for numerators.
    pub fn dot(&self) -> (s: Symbol)
        ensures
            s == self.dot_symbol(),
    {
        self.dot
    }

    /// The tadpole head `A0`.
    pub fn a0(&self) -> (s: Symbol)
        ensures
            s == self.a0_symbol(),
    {
        self.a0.symbol()
    }

    /// The bubble head `B0`.
    pub fn b0(&self) -> (s: Symbol)
        ensures
            s == self.b0_symbol(),
    {
        self.b0.symbol()
    }

    /// The triangle head `C0`.
    pub fn c0(&self) -> (s: Symbol)
        ensures
            s == self.c0_symbol(),
    {
        self.c0.symbol()
    }

    /// The box head `D0`.
    pub fn d0(&self) -> (s: Symbol)
        ensures
            s == self.d0_symbol(),
    {
        self.d0.symbol()
    }
}

/// `oneloopreduce::<local>`.
pub(crate) fn own_name(local: &str) -> (s: String)
    requires
        is_plain_ident(local@),
    ensures
        s@ == own_namespace() + seq![':', ':'] + local@,
        is_plain_symbol_name(s@),
{
    let mut s = String::new();
    s.append("oneloopreduce::");
    s.append(local);
    proof {
        reveal_strlit("oneloopreduce::");
        assert(s@ =~= own_namespace() + seq![':', ':'] + local@);
        lemma_own_name(local@);
    }
    s
}

/// The symbol `oneloopreduce::<local>`, without attributes.
fn own_symbol(local: &str) -> (s: NamedSymbol)
    requires
        is_plain_ident(local@),
    ensures
        s.name() == own_namespace() + seq![':', ':'] + local@,
{
    let name = own_name(local);
    named_symbol(name.as_str())
}

/// Register the reducer's symbols. `dot` is symmetric and linear; the registration fails when
/// `oneloopreduce::dot` was already registered with other attributes.
pub fn one_loop_symbols() -> (res: Result<OneLoopSymbols, String>)
    ensures
        res matches Ok(syms) ==> syms.external_names() == seq![
            external_name(0),
            external_name(1),
            external_name(2),
        ],
{
    proof {
        reveal_strlit("d");
        reveal_strlit("psq");
        reveal_strlit("k");
        reveal_strlit("q1");
        reveal_strlit("q2");
        reveal_strlit("q3");
        reveal_strlit("dot");
        reveal_strlit("A0");
        reveal_strlit("B0");
        reveal_strlit("C0");
        reveal_strlit("D0");
    }
    let dot_name = own_name("dot");
    let dot = match symmetric_linear_symbol(dot_name.as_str()) {
        Ok(s) => s,
        Err(e) => {
            return Err(e);
        },
    };
    let q1 = own_symbol("q1");
    let q2 = own_symbol("q2");
    let q3 = own_symbol("q3");
    let syms = OneLoopSymbols {
        d: own_symbol("d"),
        psq: own_symbol("psq"),
        k: own_symbol("k"),
        q1,
        q2,
        q3,
        dot,
        a0: own_symbol("A0"),
        b0: own_symbol("B0"),
        c0: own_symbol("C0"),
        d0: own_symbol("D0"),
    };
    proof {
        assert(own_namespace() + seq![':', ':'] + "q1"@ =~= external_name(0));
        assert(own_namespace() + seq![':', ':'] + "q2"@ =~= external_name(1));
        assert(own_namespace() + seq![':', ':'] + "q3"@ =~= external_name(2));
        assert(syms.external_names() =~= seq![external_name(0), external_name(1), external_name(2)]);
    }
    Ok(syms)
}

} // verus!
