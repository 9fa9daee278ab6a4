use oneloopreduce::masters::{MasterIntegral, Reduction};
use oneloopreduce::routing::{check_numerator_directions, q};
use oneloopreduce::symbols::one_loop_symbols;
use symbolica::atom::{Atom, AtomCore, FunctionBuilder};

#[test]
fn master_to_expression_applies_the_head() {
    let syms = one_loop_symbols().unwrap();
    let m = MasterIntegral::Bubble {
        p_sq: Atom::var(syms.psq()),
        m1_sq: Atom::Zero,
        m2_sq: Atom::num(1),
    };
    let want = FunctionBuilder::new(syms.b0())
        .add_arg(Atom::var(syms.psq()))
        .add_arg(Atom::Zero)
        .add_arg(Atom::num(1))
        .finish();
    assert_eq!(m.to_expression(&syms), want);
}

#[test]
fn reduction_to_expression_sums_the_terms() {
    let syms = one_loop_symbols().unwrap();
    let tad = MasterIntegral::Tadpole { m_sq: Atom::num(1) };
    let a0 = FunctionBuilder::new(syms.a0()).add_arg(Atom::num(1)).finish();
    let r = Reduction {
        terms: vec![(Atom::num(2), tad.clone()), (Atom::var(syms.d()), tad)],
    };
    let want = ((Atom::num(2) + Atom::var(syms.d())) * a0).expand();
    assert_eq!(r.to_expression(&syms).expand(), want);
    let empty: Reduction<Atom> = Reduction { terms: vec![] };
    assert_eq!(empty.to_expression(&syms), Atom::Zero);
}

#[test]
fn numerator_directions_follow_the_chain() {
    let syms = one_loop_symbols().unwrap();
    let k = Atom::var(syms.k());
    let kq = |j: usize| FunctionBuilder::new(syms.dot()).add_arg(&k).add_arg(q(j)).finish();
    let num = &kq(0) * &kq(2);
    assert!(check_numerator_directions(&syms, &num, &[(0, 1), (2, -1)], 3).is_ok());
    let e = check_numerator_directions(&syms, &num, &[(0, 1), (1, 1)], 3).unwrap_err();
    assert!(e.contains("with q3, which is not one of the 2 chain directions"), "{e}");
    let e = check_numerator_directions(&syms, &kq(4), &[], 1).unwrap_err();
    assert!(e.contains("tadpole numerator contracts the loop momentum with q5"), "{e}");
    assert!(check_numerator_directions(&syms, &kq(2), &[], 1).is_ok());
}

#[test]
fn master_line_writes_head_and_expanded_arguments() {
    let syms = one_loop_symbols().unwrap();
    let m = MasterIntegral::Tadpole { m_sq: Atom::num(3) };
    assert_eq!(m.line(), "A0 3");
    let b = MasterIntegral::Bubble {
        p_sq: (Atom::num(2) * (Atom::var(syms.psq()) + Atom::num(1))),
        m1_sq: Atom::Zero,
        m2_sq: Atom::num(1),
    };
    let line = b.line();
    assert!(line.starts_with("B0 "), "{line}");
    assert!(line.ends_with(" 0 1"), "{line}");
    assert_eq!(line.split(' ').count(), 4, "{line}");
}
