use oneloopreduce::family::{reduction_failed, resolve_exponents};

#[test]
fn defaults_the_exponents_to_all_ones() {
    assert_eq!(resolve_exponents(3, 3, None).unwrap(), vec![1, 1, 1]);
}

#[test]
fn accepts_dotted_propagators() {
    assert_eq!(
        resolve_exponents(2, 1, Some(vec![3, 2])).unwrap(),
        vec![3, 2]
    );
}

#[test]
fn rejects_an_empty_family() {
    assert!(
        resolve_exponents(0, 0, None)
            .unwrap_err()
            .contains("at least one propagator")
    );
}

#[test]
fn rejects_the_wrong_invariant_count() {
    let err = resolve_exponents(3, 1, None).unwrap_err();
    assert!(err.contains("needs 3 pairwise invariants"), "{err}");
    assert!(err.contains("got 1"), "{err}");
}

#[test]
fn rejects_the_wrong_exponent_count() {
    let err = resolve_exponents(2, 1, Some(vec![1, 1, 1])).unwrap_err();
    assert!(err.contains("needs 2 propagator exponents"), "{err}");
}

/// A zero exponent is a pinched line, not an error.
#[test]
fn allows_a_pinched_line() {
    assert_eq!(
        resolve_exponents(2, 1, Some(vec![0, 1])).unwrap(),
        vec![0, 1]
    );
}

/// Values are the reducer's problem: the shape check takes them as given.
#[test]
fn leaves_the_index_bound_to_the_reducer() {
    assert_eq!(
        resolve_exponents(2, 1, Some(vec![-1, 5000])).unwrap(),
        vec![-1, 5000]
    );
}

#[test]
fn invariant_count_message_is_exact() {
    assert_eq!(
        resolve_exponents(4, 5, None).unwrap_err(),
        "a 4-point family needs 6 pairwise invariants (r_i - r_j)^2 in lexicographic i<j order, got 5"
    );
}

#[test]
fn exponent_count_message_is_exact() {
    assert_eq!(
        resolve_exponents(2, 1, Some(vec![1])).unwrap_err(),
        "a 2-point family needs 2 propagator exponents, got 1"
    );
}

#[test]
fn empty_family_message_is_exact() {
    assert_eq!(
        resolve_exponents(0, 0, Some(vec![])).unwrap_err(),
        "an integral family needs at least one propagator"
    );
}

#[test]
fn tadpole_needs_no_invariants() {
    assert_eq!(resolve_exponents(1, 0, None).unwrap(), vec![1]);
    assert!(resolve_exponents(1, 1, None).is_err());
}

#[test]
fn pentagon_needs_ten_invariants() {
    assert_eq!(resolve_exponents(5, 10, None).unwrap(), vec![1, 1, 1, 1, 1]);
    assert!(resolve_exponents(5, 9, None).is_err());
}

#[test]
fn invariant_count_is_checked_before_exponents() {
    let err = resolve_exponents(3, 2, Some(vec![1])).unwrap_err();
    assert!(err.contains("pairwise invariants"), "{err}");
}

#[test]
fn reduction_failed_prefixes_the_message() {
    assert_eq!(
        reduction_failed("kinematics out of range"),
        "one-loop reduction failed: kinematics out of range"
    );
}
