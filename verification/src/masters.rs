//! The four scalar one-loop master integrals, and a reduction: a linear combination of them.
//!
//! The kinematic arguments and coefficients are expressions of any type `E`.

use vstd::prelude::*;
use vstd::string::StringExecFns;

use symbolica::atom::{Atom, Symbol};

use crate::expr::{apply, expand, plus, text_of, times, zero};
use crate::family::pair_count;
use crate::symbols::OneLoopSymbols;
use crate::text::{decimal, decimal_string};

verus! {

/// One of the four scalar one-loop master integrals, with its kinematic arguments.
#[derive(Clone, Debug, PartialEq)]
pub enum MasterIntegral<E> {
    /// `A0(m_sq)`
    Tadpole { m_sq: E },
    /// `B0(p_sq, m1_sq, m2_sq)`
    Bubble { p_sq: E, m1_sq: E, m2_sq: E },
    /// `C0(p1_sq, p2_sq, p12_sq, m1_sq, m2_sq, m3_sq)`
    Triangle { p1_sq: E, p2_sq: E, p12_sq: E, m1_sq: E, m2_sq: E, m3_sq: E },
    /// `D0(p1_sq, p2_sq, p3_sq, p4_sq, s, t, m1_sq, m2_sq, m3_sq, m4_sq)`
    Box {
        p1_sq: E,
        p2_sq: E,
        p3_sq: E,
        p4_sq: E,
        s: E,
        t: E,
        m1_sq: E,
        m2_sq: E,
        m3_sq: E,
        m4_sq: E,
    },
}

impl<E> MasterIntegral<E> {
    /// The number of propagators of the master's topology.
    pub open spec fn points(self) -> nat {
        match self {
            MasterIntegral::Tadpole { .. } => 1,
            MasterIntegral::Bubble { .. } => 2,
            MasterIntegral::Triangle { .. } => 3,
            MasterIntegral::Box { .. } => 4,
        }
    }

    /// The topology's name.
    pub open spec fn kind_name(self) -> Seq<char> {
        match self {
            MasterIntegral::Tadpole { .. } => "tadpole"@,
            MasterIntegral::Bubble { .. } => "bubble"@,
            MasterIntegral::Triangle { .. } => "triangle"@,
            MasterIntegral::Box { .. } => "box"@,
        }
    }

    /// The head the master is written with.
    pub open spec fn head_name(self) -> Seq<char> {
        match self {
            MasterIntegral::Tadpole { .. } => "A0"@,
            MasterIntegral::Bubble { .. } => "B0"@,
            MasterIntegral::Triangle { .. } => "C0"@,
            MasterIntegral::Box { .. } => "D0"@,
        }
    }

    /// The kinematic arguments, in the order the head takes them.
    pub open spec fn argument_seq(self) -> Seq<E> {
        match self {
            MasterIntegral::Tadpole { m_sq } => seq![m_sq],
            MasterIntegral::Bubble { p_sq, m1_sq, m2_sq } => seq![p_sq, m1_sq, m2_sq],
            MasterIntegral::Triangle { p1_sq, p2_sq, p12_sq, m1_sq, m2_sq, m3_sq } => seq![
                p1_sq,
                p2_sq,
                p12_sq,
                m1_sq,
                m2_sq,
                m3_sq,
            ],
            MasterIntegral::Box {
                p1_sq,
                p2_sq,
                p3_sq,
                p4_sq,
                s,
                t,
                m1_sq,
                m2_sq,
                m3_sq,
                m4_sq,
            } => seq![p1_sq, p2_sq, p3_sq, p4_sq, s, t, m1_sq, m2_sq, m3_sq, m4_sq],
        }
    }

    /// The topology: `"tadpole"`, `"bubble"`, `"triangle"` or `"box"`.
    pub fn kind(&self) -> (res: &'static str)
        ensures
            res@ == self.kind_name(),
    {
        match self {
            MasterIntegral::Tadpole { .. } => "tadpole",
            MasterIntegral::Bubble { .. } => "bubble",
            MasterIntegral::Triangle { .. } => "triangle",
            MasterIntegral::Box { .. } => "box",
        }
    }

    /// The head symbol of the master: `"A0"`, `"B0"`, `"C0"` or `"D0"`.
    pub fn head(&self) -> (res: &'static str)
        ensures
            res@ == self.head_name(),
    {
        match self {
            MasterIntegral::Tadpole { .. } => "A0",
            MasterIntegral::Bubble { .. } => "B0",
            MasterIntegral::Triangle { .. } => "C0",
            MasterIntegral::Box { .. } => "D0",
        }
    }

    /// The kinematic arguments, in the order the head takes them.
    pub fn arguments(&self) -> (res: Vec<&E>)
        ensures
            res@.len() == self.argument_seq().len(),
            forall|i: int| 0 <= i < res@.len() ==> *res@[i] == self.argument_seq()[i],
    {
        let mut args: Vec<&E> = Vec::new();
        match self {
            MasterIntegral::Tadpole { m_sq } => {
                args.push(m_sq);
            },
            MasterIntegral::Bubble { p_sq, m1_sq, m2_sq } => {
                args.push(p_sq);
                args.push(m1_sq);
                args.push(m2_sq);
            },
            MasterIntegral::Triangle { p1_sq, p2_sq, p12_sq, m1_sq, m2_sq, m3_sq } => {
                args.push(p1_sq);
                args.push(p2_sq);
                args.push(p12_sq);
                args.push(m1_sq);
                args.push(m2_sq);
                args.push(m3_sq);
            },
            MasterIntegral::Box {
                p1_sq,
                p2_sq,
                p3_sq,
                p4_sq,
                s,
                t,
                m1_sq,
                m2_sq,
                m3_sq,
                m4_sq,
            } => {
                args.push(p1_sq);
                args.push(p2_sq);
                args.push(p3_sq);
                args.push(p4_sq);
                args.push(s);
                args.push(t);
                args.push(m1_sq);
                args.push(m2_sq);
                args.push(m3_sq);
                args.push(m4_sq);
            },
        }
        args
    }
}

/// An N-point master takes the `C(N, 2)` pairwise invariants of its propagators and their N
/// masses.
pub proof fn lemma_master_arguments<E>(m: MasterIntegral<E>)
    ensures
        m.argument_seq().len() == pair_count(m.points()) + m.points(),
        1 <= m.points() <= 4,
{
    match m {
        MasterIntegral::Tadpole { .. } => assert(pair_count(1) == 0),
        MasterIntegral::Bubble { .. } => assert(pair_count(2) == 1),
        MasterIntegral::Triangle { .. } => assert(pair_count(3) == 3),
        MasterIntegral::Box { .. } => assert(pair_count(4) == 6),
    }
}

/// The result of reducing an integral family: a linear combination of master integrals.
#[derive(Clone, Debug)]
pub struct Reduction<E> {
    /// The `(coefficient, master)` pairs of the reduction.
    pub terms: Vec<(E, MasterIntegral<E>)>,
}

impl<E> Reduction<E> {
    /// The number of terms.
    pub fn len(&self) -> (res: usize)
        ensures
            res == self.terms@.len(),
    {
        self.terms.len()
    }

    /// The reduction's summary: `Reduction(<n> terms)`.
    pub fn repr(&self) -> (res: String)
        ensures
            res@ == "Reduction("@ + decimal(self.terms@.len()) + " terms)"@,
    {
        let mut s = String::new();
        s.append("Reduction(");
        let n = decimal_string(self.terms.len() as u64);
        s.append(n.as_str());
        s.append(" terms)");
        s
    }
}


impl<E> MasterIntegral<E> {
    /// The symbol the master is written with.
    pub open spec fn head_of(self, syms: OneLoopSymbols) -> Symbol {
        match self {
            MasterIntegral::Tadpole { .. } => syms.a0_symbol(),
            MasterIntegral::Bubble { .. } => syms.b0_symbol(),
            MasterIntegral::Triangle { .. } => syms.c0_symbol(),
            MasterIntegral::Box { .. } => syms.d0_symbol(),
        }
    }

    /// The head symbol of the master: `A0`, `B0`, `C0` or `D0` of the reducer's symbols.
    pub fn head_symbol(&self, syms: &OneLoopSymbols) -> (s: Symbol)
        ensures
            s == self.head_of(*syms),
    {
        match self {
            MasterIntegral::Tadpole { .. } => syms.a0(),
            MasterIntegral::Bubble { .. } => syms.b0(),
            MasterIntegral::Triangle { .. } => syms.c0(),
            MasterIntegral::Box { .. } => syms.d0(),
        }
    }
}

impl MasterIntegral<Atom> {
    /// The master as a Symbolica function call: [`MasterIntegral::head_symbol`] applied to
    /// [`MasterIntegral::arguments`].
    pub fn to_expression(&self, syms: &OneLoopSymbols) -> (r: Atom) {
        let head = self.head_symbol(syms);
        let args = self.arguments();
        apply(head, &args)
    }
}

/// `head` followed by each of `texts`, each after a space.
pub open spec fn spaced_line(head: Seq<char>, texts: Seq<Seq<char>>) -> Seq<char>
    decreases texts.len(),
{
    if texts.len() == 0 {
        head
    } else {
        spaced_line(head, texts.drop_last()) + seq![' '] + texts.last()
    }
}

/// `head`, then each of `texts` after a space, in order.
pub fn join_line(head: &str, texts: &Vec<String>) -> (res: String)
    ensures
        res@ == spaced_line(head@, texts@.map_values(|t: String| t@)),
{
    let ghost views = texts@.map_values(|t: String| t@);
    let mut out = String::new();
    out.append(head);
    let mut i: usize = 0;
    while i < texts.len()
        invariant
            i <= texts@.len(),
            views == texts@.map_values(|t: String| t@),
            out@ == spaced_line(head@, views.subrange(0, i as int)),
        decreases texts@.len() - i,
    {
        out.append(" ");
        out.append(texts[i].as_str());
        proof {
            reveal_strlit(" ");
            let s = views.subrange(0, i + 1);
            assert(s.drop_last() =~= views.subrange(0, i as int));
            assert(s.last() == texts@[i as int]@);
            assert(out@ =~= spaced_line(head@, s));
        }
        i += 1;
    }
    proof {
        assert(views.subrange(0, texts@.len() as int) =~= views);
    }
    out
}

impl MasterIntegral<Atom> {
    /// The master as one line of text: its head, then each argument, expanded, after a space,
    /// as in `B0 s 0 0`: [`join_line`] of the head and the arguments as Symbolica prints them.
    pub fn line(&self) -> (res: String)
        ensures
            exists|texts: Seq<Seq<char>>|
                texts.len() == self.argument_seq().len() && res@ == #[trigger] spaced_line(
                    self.head_name(),
                    texts,
                ),
    {
        let args = self.arguments();
        let mut texts: Vec<String> = Vec::new();
        let mut i: usize = 0;
        while i < args.len()
            invariant
                i <= args@.len(),
                texts@.len() == i,
            decreases args@.len() - i,
        {
            texts.push(text_of(&expand(args[i])));
            i += 1;
        }
        let out = join_line(self.head(), &texts);
        proof {
            let views = texts@.map_values(|t: String| t@);
            assert(views.len() == self.argument_seq().len());
            assert(out@ == spaced_line(self.head_name(), views));
        }
        out
    }
}

impl Reduction<Atom> {
    /// Contract the reduction into a single expression over the `A0`/`B0`/`C0`/`D0` heads:
    /// `sum(coefficient * master.to_expression())` over every term, in order.
    pub fn to_expression(&self, syms: &OneLoopSymbols) -> (r: Atom) {
        let mut acc = zero();
        let mut i: usize = 0;
        while i < self.terms.len()
            invariant
                i <= self.terms@.len(),
            decreases self.terms@.len() - i,
        {
            let (coefficient, master) = &self.terms[i];
            let term = times(coefficient, &master.to_expression(syms));
            acc = plus(&acc, &term);
            i += 1;
        }
        acc
    }
}

} // verus!
