use oneloopreduce::routing::{invariants_from_offsets, offset_dirs, q, relabel_numerator};
use oneloopreduce::symbols::{one_loop_symbols, OneLoopSymbols};
use symbolica::atom::{Atom, AtomCore, FunctionBuilder};

fn dot(syms: &OneLoopSymbols, a: &Atom, b: &Atom) -> Atom {
    FunctionBuilder::new(syms.dot())
        .add_arg(a)
        .add_arg(b)
        .finish()
}

fn dot_kq(syms: &OneLoopSymbols, qa: &Atom) -> Atom {
    dot(syms, &Atom::var(syms.k()), qa)
}

/// An offset as coefficients over `q1..q8`, from its non-zero entries.
fn dirs(nz: &[(usize, i32)]) -> Vec<i32> {
    let mut v = vec![0; 8];
    for &(j, c) in nz {
        v[j] = c;
    }
    v
}

#[test]
fn offset_dirs_reads_signed_units_and_rejects_the_rest() {
    assert_eq!(
        offset_dirs(&(&q(0) - &q(2))).unwrap(),
        dirs(&[(0, 1), (2, -1)])
    );
    let e = offset_dirs(&(Atom::num(2) * q(0))).unwrap_err();
    assert!(e.contains("signed sum of distinct"), "{e}");
}

#[test]
fn relabel_numerator_permutes_two_slots_without_clobbering() {
    let syms = one_loop_symbols().unwrap();
    // Slot 1 is q2 and slot 2 is q1, both with eps = -1: a swap, which a single pass
    // would collapse onto one label.
    let num = &dot_kq(&syms, &q(1)) + &(Atom::num(3) * dot_kq(&syms, &q(0)));
    let got = relabel_numerator(&syms, &num, &[(1, -1), (0, -1)]);
    let want = (-dot_kq(&syms, &q(0)) - Atom::num(3) * dot_kq(&syms, &q(1))).expand();
    assert_eq!(got.expand(), want);
}

#[test]
fn bubble_invariants_from_offsets() {
    let syms = one_loop_symbols().unwrap();
    let offsets = vec![Atom::Zero, Atom::num(-1) * q(0)];
    assert_eq!(
        invariants_from_offsets(&syms, &offsets),
        vec![dot(&syms, &q(0), &q(0))]
    );
}

#[test]
fn invariants_handle_high_externals() {
    let syms = one_loop_symbols().unwrap();
    // A pentagon edge offset of q4 must square to `dot(q4, q4)`.
    let offsets = vec![Atom::Zero, q(3)];
    assert_eq!(
        invariants_from_offsets(&syms, &offsets),
        vec![dot(&syms, &q(3), &q(3))]
    );
}

#[test]
fn offset_dirs_message_names_the_external() {
    let e = offset_dirs(&(Atom::num(2) * q(1))).unwrap_err();
    assert!(e.starts_with("propagator offset `"), "{e}");
    assert!(e.contains("the coefficient of q2 is `2`"), "{e}");
}

#[test]
fn offset_dirs_rejects_a_remainder() {
    let syms = one_loop_symbols().unwrap();
    let e = offset_dirs(&(&q(0) + &Atom::var(syms.psq()))).unwrap_err();
    assert!(e.contains("has an untranslatable remainder"), "{e}");
}

#[test]
fn offset_dirs_reads_the_zero_offset() {
    assert_eq!(offset_dirs(&Atom::Zero).unwrap(), vec![0; 8]);
    assert_eq!(offset_dirs(&q(7)).unwrap(), dirs(&[(7, 1)]));
}

#[test]
fn triangle_has_three_invariants_in_lexicographic_order() {
    let syms = one_loop_symbols().unwrap();
    let offsets = vec![Atom::Zero, q(0), &q(0) + &q(1)];
    let inv = invariants_from_offsets(&syms, &offsets);
    assert_eq!(inv.len(), 3);
    assert_eq!(inv[0], dot(&syms, &q(0), &q(0)));
    assert_eq!(inv[2], dot(&syms, &q(1), &q(1)));
    let mixed = (&dot(&syms, &q(0), &q(0))
        + &(Atom::num(2) * dot(&syms, &q(0), &q(1))))
        + dot(&syms, &q(1), &q(1));
    assert_eq!(inv[1].expand(), mixed.expand());
}

#[test]
fn relabel_numerator_applies_signs() {
    let syms = one_loop_symbols().unwrap();
    let num = dot_kq(&syms, &q(2));
    let got = relabel_numerator(&syms, &num, &[(2, -1)]);
    assert_eq!(got.expand(), (-dot_kq(&syms, &q(0))).expand());
}

#[test]
fn invariant_count_is_what_a_family_needs() {
    let syms = one_loop_symbols().unwrap();
    let offsets = vec![Atom::Zero, q(0), &q(0) + &q(1), &(&q(0) + &q(1)) + &q(2)];
    let inv = invariants_from_offsets(&syms, &offsets);
    assert_eq!(inv.len(), 6);
    assert!(oneloopreduce::family::resolve_exponents(offsets.len(), inv.len(), None).is_ok());
    assert!(invariants_from_offsets(&syms, &[]).is_empty());
}

#[test]
fn relabel_without_slots_leaves_the_numerator() {
    let syms = one_loop_symbols().unwrap();
    let num = &dot_kq(&syms, &q(1)) + &Atom::var(syms.psq());
    assert_eq!(relabel_numerator(&syms, &num, &[]), num);
}

#[test]
fn offset_dirs_rejects_the_first_non_unit_coefficient() {
    let e = offset_dirs(&(&(Atom::num(3) * q(4)) + &(Atom::num(2) * q(1)))).unwrap_err();
    assert!(e.contains("the coefficient of q2 is `2`"), "{e}");
}
