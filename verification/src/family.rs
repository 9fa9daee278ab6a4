//! The shape of a one-loop integral family: how many pairwise invariants and propagator
//! exponents an N-point family takes.

use vstd::prelude::*;
use vstd::string::StringExecFns;

use crate::text::{decimal, decimal_string};

verus! {

/// The number of pairwise invariants `(r_i - r_j)^2`, `i < j`, of an `n`-point family.
pub open spec fn pair_count(n: nat) -> nat {
    (n * (n - 1) / 2) as nat
}

/// The refusal of a family without propagators.
pub open spec fn empty_family_message() -> Seq<char> {
    "an integral family needs at least one propagator"@
}

/// The refusal of a family with the wrong number of invariants.
pub open spec fn invariant_count_message(n: nat, got: nat) -> Seq<char> {
    "a "@ + decimal(n) + "-point family needs "@ + decimal(pair_count(n))
        + " pairwise invariants (r_i - r_j)^2 in lexicographic i<j order, got "@ + decimal(got)
}

/// The refusal of a family with the wrong number of exponents.
pub open spec fn exponent_count_message(n: nat, got: nat) -> Seq<char> {
    "a "@ + decimal(n) + "-point family needs "@ + decimal(n) + " propagator exponents, got "@
        + decimal(got)
}

/// The family's shape is right: it has propagators, `C(n, 2)` invariants and, when exponents
/// are given, one per propagator.
pub open spec fn family_shape_ok(n: nat, invariants: nat, exponents: Option<Seq<i32>>) -> bool {
    &&& n > 0
    &&& invariants == pair_count(n)
    &&& (exponents matches Some(e) ==> e.len() == n)
}

/// Check the shape of an integral family and resolve its propagator exponents.
///
/// The exponents default to one per propagator; their values are not checked here.
pub fn resolve_exponents(
    propagators: usize,
    invariants: usize,
    exponents: Option<Vec<i32>>,
) -> (res: Result<Vec<i32>, String>)
    requires
        propagators * (propagators - 1) <= usize::MAX,
    ensures
        res is Ok <==> family_shape_ok(
            propagators as nat,
            invariants as nat,
            match exponents {
                Some(e) => Some(e@),
                None => None,
            },
        ),
        match res {
            Ok(e) => match exponents {
                Some(given) => e@ == given@,
                None => e@ == Seq::new(propagators as nat, |i: int| 1i32),
            },
            Err(msg) => if propagators == 0 {
                msg@ == empty_family_message()
            } else if invariants != pair_count(propagators as nat) {
                msg@ == invariant_count_message(propagators as nat, invariants as nat)
            } else {
                exponents matches Some(given) && msg@ == exponent_count_message(
                    propagators as nat,
                    given@.len(),
                )
            },
        },
{
    let n = propagators;
    if n == 0 {
        let mut e = String::new();
        e.append("an integral family needs at least one propagator");
        return Err(e);
    }
    let expected = n * (n - 1) / 2;
    if invariants != expected {
        let mut e = String::new();
        e.append("a ");
        let s1 = decimal_string(n as u64);
        e.append(s1.as_str());
        e.append("-point family needs ");
        let s2 = decimal_string(expected as u64);
        e.append(s2.as_str());
        e.append(" pairwise invariants (r_i - r_j)^2 in lexicographic i<j order, got ");
        let s3 = decimal_string(invariants as u64);
        e.append(s3.as_str());
        proof {
            assert(e@ =~= invariant_count_message(n as nat, invariants as nat));
        }
        return Err(e);
    }
    match exponents {
        Some(given) => {
            if given.len() != n {
                let mut e = String::new();
                e.append("a ");
                let s1 = decimal_string(n as u64);
                e.append(s1.as_str());
                e.append("-point family needs ");
                e.append(s1.as_str());
                e.append(" propagator exponents, got ");
                let s2 = decimal_string(given.len() as u64);
                e.append(s2.as_str());
                proof {
                    assert(e@ =~= exponent_count_message(n as nat, given@.len()));
                }
                Err(e)
            } else {
                Ok(given)
            }
        },
        None => {
            let mut ones: Vec<i32> = Vec::new();
            let mut i: usize = 0;
            while i < n
                invariant
                    i <= n,
                    ones@ == Seq::new(i as nat, |k: int| 1i32),
                decreases n - i,
            {
                ones.push(1);
                i += 1;
                proof {
                    assert(ones@ =~= Seq::new(i as nat, |k: int| 1i32));
                }
            }
            Ok(ones)
        },
    }
}

/// The pairwise invariants read off `n >= 1` propagator offsets, `C(n, 2)` of them, are
/// exactly as many as an `n`-point family needs.
pub proof fn lemma_offsets_give_family_shape(n: nat)
    requires
        n >= 1,
    ensures
        family_shape_ok(n, pair_count(n), None),
{
}

/// The message a failed reduction is reported with.
pub open spec fn reduction_failed_message(message: Seq<char>) -> Seq<char> {
    "one-loop reduction failed: "@ + message
}

/// Report a failed reduction: the reducer's own message, prefixed.
pub fn reduction_failed(message: &str) -> (res: String)
    ensures
        res@ == reduction_failed_message(message@),
{
    let mut e = String::new();
    e.append("one-loop reduction failed: ");
    e.append(message);
    e
}

} // verus!
