use oneloopreduce::error::OneLoopError;
use oneloopreduce::masters::{MasterIntegral, Reduction};
use oneloopreduce::{CommunityModule, MODULE_NAME};

#[test]
fn master_kinds_and_heads() {
    let a: MasterIntegral<i64> = MasterIntegral::Tadpole { m_sq: 7 };
    assert_eq!(a.kind(), "tadpole");
    assert_eq!(a.head(), "A0");
    let b = MasterIntegral::Bubble { p_sq: 1, m1_sq: 2, m2_sq: 3 };
    assert_eq!((b.kind(), b.head()), ("bubble", "B0"));
    let c = MasterIntegral::Triangle { p1_sq: 1, p2_sq: 2, p12_sq: 3, m1_sq: 4, m2_sq: 5, m3_sq: 6 };
    assert_eq!((c.kind(), c.head()), ("triangle", "C0"));
    let d = MasterIntegral::Box {
        p1_sq: 1, p2_sq: 2, p3_sq: 3, p4_sq: 4, s: 5, t: 6, m1_sq: 7, m2_sq: 8, m3_sq: 9, m4_sq: 10,
    };
    assert_eq!((d.kind(), d.head()), ("box", "D0"));
}

#[test]
fn master_arguments_come_in_head_order() {
    let a: MasterIntegral<i64> = MasterIntegral::Tadpole { m_sq: 7 };
    assert_eq!(a.arguments(), vec![&7]);
    let c = MasterIntegral::Triangle { p1_sq: 1, p2_sq: 2, p12_sq: 3, m1_sq: 4, m2_sq: 5, m3_sq: 6 };
    assert_eq!(c.arguments(), vec![&1, &2, &3, &4, &5, &6]);
    let d = MasterIntegral::Box {
        p1_sq: 1, p2_sq: 2, p3_sq: 3, p4_sq: 4, s: 5, t: 6, m1_sq: 7, m2_sq: 8, m3_sq: 9, m4_sq: 10,
    };
    assert_eq!(d.arguments().len(), 10);
    assert_eq!(*d.arguments()[4], 5);
}

#[test]
fn reduction_counts_and_describes_its_terms() {
    let r = Reduction {
        terms: vec![
            (2, MasterIntegral::Tadpole { m_sq: 1 }),
            (3, MasterIntegral::Bubble { p_sq: 1, m1_sq: 2, m2_sq: 3 }),
        ],
    };
    assert_eq!(r.len(), 2);
    assert_eq!(r.repr(), "Reduction(2 terms)");
    let empty: Reduction<i64> = Reduction { terms: vec![] };
    assert_eq!(empty.repr(), "Reduction(0 terms)");
}

#[test]
fn error_messages() {
    assert_eq!(
        OneLoopError::UnsupportedLoopOrder { found: 2 }.message(),
        "unsupported loop order: graph has 2 loops, only one-loop is supported"
    );
    assert_eq!(
        OneLoopError::ExtractionFailed { reason: "no edges".to_string() }.message(),
        "failed to extract integral family from graph: no edges"
    );
    assert_eq!(
        OneLoopError::Symbolica("bad parse".to_string()).message(),
        "symbolica error: bad parse"
    );
}

#[test]
fn module_name() {
    assert_eq!(CommunityModule::get_name(), "oneloopreduce");
    assert_eq!(MODULE_NAME, "oneloopreduce");
}
