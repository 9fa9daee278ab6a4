//! Which loop-momentum contractions `dot(k, q_j)` a numerator may carry for the reducer to
//! interpret it faithfully.

use vstd::prelude::*;
use vstd::string::StringExecFns;

use crate::text::{decimal, decimal_string};

verus! {

/// The tadpole entry point's irreducible scalar products are `dot(k, q1 .. q3)`.
pub const TADPOLE_N_EXT: usize = 3;

/// Some slot of the chain moves along external `j`.
pub open spec fn is_chain_direction(slots: Seq<(usize, i32)>, j: int) -> bool {
    exists|a: int| 0 <= a < slots.len() && #[trigger] slots[a].0 as int == j
}

/// The numerator's dependence on `dot(k, q_{j+1})` cannot be interpreted: for a tadpole it
/// lies beyond `q3`; otherwise it is not one of the chain directions.
pub open spec fn is_bad_direction(
    depends: Seq<bool>,
    slots: Seq<(usize, i32)>,
    n: nat,
    j: int,
) -> bool {
    &&& depends[j]
    &&& if n == 1 {
        j >= TADPOLE_N_EXT
    } else {
        !is_chain_direction(slots, j)
    }
}

/// `j` is the first direction the reducer cannot interpret.
pub open spec fn is_first_bad_direction(
    depends: Seq<bool>,
    slots: Seq<(usize, i32)>,
    n: nat,
    j: int,
) -> bool {
    &&& 0 <= j < depends.len()
    &&& is_bad_direction(depends, slots, n, j)
    &&& forall|j2: int| 0 <= j2 < j ==> !#[trigger] is_bad_direction(depends, slots, n, j2)
}

/// The refusal of direction `j` of the numerator.
pub open spec fn bad_direction_message(slots: Seq<(usize, i32)>, n: nat, j: int) -> Seq<char> {
    if n == 1 {
        "tadpole numerator contracts the loop momentum with q"@ + decimal((j + 1) as nat)
            + ", beyond the reducer's n_ext="@ + decimal(TADPOLE_N_EXT as nat)
            + " irreducible-scalar-product basis"@
    } else {
        "numerator contracts the loop momentum with q"@ + decimal((j + 1) as nat)
            + ", which is not one of the "@ + decimal(slots.len()) + " chain directions of this "@
            + decimal(n) + "-propagator topology; the reducer would project it against a fabricated Gram"@
    }
}

/// The verdict on a numerator that depends on `dot(k, q_{j+1})` exactly where `depends[j]`.
pub open spec fn directions_verdict(
    depends: Seq<bool>,
    slots: Seq<(usize, i32)>,
    n: nat,
    res: Result<(), String>,
) -> bool {
    match res {
        Ok(()) => forall|j: int| 0 <= j < depends.len() ==> !#[trigger] is_bad_direction(depends, slots, n, j),
        Err(e) => exists|j: int|
            is_first_bad_direction(depends, slots, n, j) && e@ == bad_direction_message(slots, n, j),
    }
}

/// Whether some slot of the chain moves along external `j`.
fn has_slot(slots: &[(usize, i32)], j: usize) -> (res: bool)
    ensures
        res == is_chain_direction(slots@, j as int),
{
    let mut a: usize = 0;
    while a < slots.len()
        invariant
            a <= slots.len(),
            forall|a2: int| 0 <= a2 < a ==> slots@[a2].0 != j,
        decreases slots.len() - a,
    {
        if slots[a].0 == j {
            assert(slots@[a as int].0 as int == j as int);
            return true;
        }
        a += 1;
    }
    proof {
        if is_chain_direction(slots@, j as int) {
            let a2 = choose|a2: int| 0 <= a2 < slots@.len() && #[trigger] slots@[a2].0 as int == j as int;
            assert(slots@[a2].0 != j);
        }
    }
    false
}

/// Reject any `dot(k, q_{j+1})` the reducer cannot faithfully interpret, given where the
/// numerator depends on it (`depends[j]`). For `n >= 2` the only legitimate directions are
/// the chain directions `slots`; a tadpole may carry `q1 .. q3`.
pub fn check_directions(depends: &[bool], slots: &[(usize, i32)], n: usize) -> (res: Result<
    (),
    String,
>)
    ensures
        directions_verdict(depends@, slots@, n as nat, res),
{
    let mut j: usize = 0;
    while j < depends.len()
        invariant
            j <= depends.len(),
            forall|j2: int| 0 <= j2 < j ==> !#[trigger] is_bad_direction(depends@, slots@, n as nat, j2),
        decreases depends.len() - j,
    {
        if depends[j] {
            if n == 1 {
                if j >= TADPOLE_N_EXT {
                    let mut e = String::new();
                    e.append("tadpole numerator contracts the loop momentum with q");
                    let s1 = decimal_string((j as u64) + 1);
                    e.append(s1.as_str());
                    e.append(", beyond the reducer's n_ext=");
                    let s2 = decimal_string(TADPOLE_N_EXT as u64);
                    e.append(s2.as_str());
                    e.append(" irreducible-scalar-product basis");
                    proof {
                        assert(is_first_bad_direction(depends@, slots@, n as nat, j as int));
                        assert(e@ =~= bad_direction_message(slots@, n as nat, j as int));
                    }
                    return Err(e);
                }
            } else if !has_slot(slots, j) {
                let mut e = String::new();
                e.append("numerator contracts the loop momentum with q");
                let s1 = decimal_string((j as u64) + 1);
                e.append(s1.as_str());
                e.append(", which is not one of the ");
                let s2 = decimal_string(slots.len() as u64);
                e.append(s2.as_str());
                e.append(" chain directions of this ");
                let s3 = decimal_string(n as u64);
                e.append(s3.as_str());
                e.append(
                    "-propagator topology; the reducer would project it against a fabricated Gram",
                );
                proof {
                    assert(is_first_bad_direction(depends@, slots@, n as nat, j as int));
                    assert(e@ =~= bad_direction_message(slots@, n as nat, j as int));
                }
                return Err(e);
            }
        }
        j += 1;
    }
    Ok(())
}

} // verus!
