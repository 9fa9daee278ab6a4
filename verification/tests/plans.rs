use oneloopreduce::masters::{join_line, MasterIntegral};
use oneloopreduce::routing::{pair_plan, read_units, relabel_plan, Label, Substitution};
use oneloopreduce::symbols::one_loop_symbols;
use symbolica::atom::Atom;

#[test]
fn pair_plan_is_lexicographic() {
    assert_eq!(pair_plan(0), vec![]);
    assert_eq!(pair_plan(1), vec![]);
    assert_eq!(pair_plan(3), vec![(0, 1), (0, 2), (1, 2)]);
    assert_eq!(
        pair_plan(4),
        vec![(0, 1), (0, 2), (0, 3), (1, 2), (1, 3), (2, 3)]
    );
    assert_eq!(pair_plan(8).len(), 28);
}

#[test]
fn relabel_plan_goes_through_scratch_labels() {
    let plan = relabel_plan(&[(1, -1), (0, -1)]);
    assert_eq!(
        plan,
        vec![
            Substitution { from: Label::External(1), to: Label::Scratch(0), sign: -1 },
            Substitution { from: Label::External(0), to: Label::Scratch(1), sign: -1 },
            Substitution { from: Label::Scratch(0), to: Label::External(0), sign: 1 },
            Substitution { from: Label::Scratch(1), to: Label::External(1), sign: 1 },
        ]
    );
    assert!(relabel_plan(&[]).is_empty());
}

#[test]
fn read_units_takes_all_or_names_the_first_failure() {
    assert_eq!(read_units(&[Some(1), Some(0), Some(-1)]), Ok(vec![1, 0, -1]));
    assert_eq!(read_units(&[Some(1), None, Some(0), None]), Err(1));
    assert_eq!(read_units(&[]), Ok(vec![]));
}

#[test]
fn join_line_spaces_the_texts() {
    assert_eq!(join_line("B0", &vec!["s".to_string(), "0".to_string(), "0".to_string()]), "B0 s 0 0");
    assert_eq!(join_line("A0", &vec![]), "A0");
}

#[test]
fn master_lines_keep_argument_order() {
    let n = |x: i64| Atom::num(x);
    let d = MasterIntegral::Box {
        p1_sq: n(1), p2_sq: n(2), p3_sq: n(3), p4_sq: n(4), s: n(5), t: n(6),
        m1_sq: n(7), m2_sq: n(8), m3_sq: n(9), m4_sq: n(10),
    };
    assert_eq!(d.line(), "D0 1 2 3 4 5 6 7 8 9 10");
    let c = MasterIntegral::Triangle { p1_sq: n(1), p2_sq: n(2), p12_sq: n(3), m1_sq: n(4), m2_sq: n(5), m3_sq: n(6) };
    assert_eq!(c.line(), "C0 1 2 3 4 5 6");
}

#[test]
fn head_symbols_follow_the_kind() {
    let syms = one_loop_symbols().unwrap();
    let t: MasterIntegral<i64> = MasterIntegral::Tadpole { m_sq: 0 };
    assert!(t.head_symbol(&syms) == syms.a0());
    let b = MasterIntegral::Bubble { p_sq: 0, m1_sq: 0, m2_sq: 0 };
    assert!(b.head_symbol(&syms) == syms.b0());
    let c = MasterIntegral::Triangle { p1_sq: 0, p2_sq: 0, p12_sq: 0, m1_sq: 0, m2_sq: 0, m3_sq: 0 };
    assert!(c.head_symbol(&syms) == syms.c0());
}
