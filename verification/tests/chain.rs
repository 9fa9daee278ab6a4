use oneloopreduce::chain::{chain_order, chain_slots};
use oneloopreduce::directions::check_directions;

/// An offset as coefficients over `q1..q8`, from its non-zero entries.
fn dirs(nz: &[(usize, i32)]) -> Vec<i32> {
    let mut v = vec![0; 8];
    for &(j, c) in nz {
        v[j] = c;
    }
    v
}

#[test]
fn chain_order_walks_the_real_box_lmb_routing() {
    let offs = [
        dirs(&[(1, -1), (2, 1)]),
        dirs(&[(2, 1)]),
        dirs(&[]),
        dirs(&[(0, -1), (1, -1), (2, 1)]),
    ];
    let order = chain_order(&offs).unwrap();
    assert_eq!(order, vec![2, 1, 0, 3]);
    let chain: Vec<Vec<i32>> = order.iter().map(|&i| offs[i].clone()).collect();
    assert_eq!(chain_slots(&chain).unwrap(), vec![(2, 1), (1, -1), (0, -1)]);
}

#[test]
fn chain_slots_rejects_what_chain_order_cannot_produce() {
    let e = chain_slots(&[dirs(&[(0, 1)]), dirs(&[(0, 1), (1, 1)])]).unwrap_err();
    assert!(e.contains("must carry no external offset"), "{e}");
    let e = chain_slots(&[dirs(&[]), dirs(&[(0, 1)]), dirs(&[])]).unwrap_err();
    assert!(e.contains("more than one chain slot"), "{e}");
}

#[test]
fn chain_order_rejects_offsets_without_a_zero() {
    let e = chain_order(&[vec![1, 0], vec![0, 1]]).unwrap_err();
    assert_eq!(
        e,
        "no loop propagator carries a zero external offset, so the reducer's r_1 = 0 cannot be \
         reached without shifting the loop momentum; offsets are [[1, 0], [0, 1]]"
    );
}

#[test]
fn chain_order_rejects_an_empty_family() {
    let e = chain_order(&[]).unwrap_err();
    assert!(e.contains("no loop propagator carries a zero external offset"), "{e}");
    assert!(e.ends_with("offsets are []"), "{e}");
}

#[test]
fn chain_order_rejects_a_broken_polygon() {
    // 0 -> q1 is one step, but q1 + q2 + q3 is three externals away from both.
    let e = chain_order(&[vec![0, 0, 0], vec![1, 0, 0], vec![1, 1, 1]]).unwrap_err();
    assert_eq!(
        e,
        "the loop propagators do not form the reducer's chain r_i = q1 + ... + q_{i-1} under any \
         ordering: no walk from the zero-offset propagator visits all 3 of them one distinct \
         external at a time; offsets are [[0, 0, 0], [1, 0, 0], [1, 1, 1]]"
    );
}

#[test]
fn chain_order_starts_at_the_first_zero_offset() {
    assert_eq!(chain_order(&[vec![1], vec![0]]).unwrap(), vec![1, 0]);
    // Two zero offsets are not one external apart.
    assert!(chain_order(&[vec![0], vec![0]]).unwrap_err().contains("visits all 2"));
    // A square of offsets closes on itself: the last step would reuse q1.
    let e = chain_order(&[vec![0, 0], vec![1, 0], vec![0, 1], vec![1, 1]]).unwrap_err();
    assert!(e.contains("visits all 4"), "{e}");
}

#[test]
fn chain_order_backtracks_out_of_a_dead_end() {
    // 0 -> 1 (q1) dead-ends: 2 is q2 away from 0 only.
    let order = chain_order(&[vec![0, 0], vec![1, 0], vec![0, 1], vec![0, 2]]).unwrap_err();
    assert!(order.contains("visits all 4"), "{order}");
    let order = chain_order(&[vec![1, 0], vec![0, 0], vec![1, 1]]).unwrap();
    assert_eq!(order, vec![1, 0, 2]);
}

#[test]
fn chain_order_refuses_to_reuse_an_external() {
    // 0 -> q1 -> 0 + q1 - q1 would need q1 twice.
    let e = chain_order(&[vec![0], vec![1], vec![2]]).unwrap_err();
    assert!(e.contains("visits all 3"), "{e}");
}

#[test]
fn chain_order_compares_ragged_rows_over_their_common_length() {
    let order = chain_order(&[vec![0], vec![1, 5]]).unwrap();
    assert_eq!(order, vec![0, 1]);
}

#[test]
fn chain_slots_messages_are_exact() {
    assert_eq!(
        chain_slots(&[vec![0, 2, -1]]).unwrap_err(),
        "the first loop propagator must carry no external offset (the reducer's r_1 = 0), got \
         coefficients [0, 2, -1]"
    );
    assert_eq!(
        chain_slots(&[vec![0, 0], vec![1, 1]]).unwrap_err(),
        "propagator 2 does not differ from propagator 1 by a single external momentum (the \
         reducer's chain r_i = q1 + ... + q_{i-1}); difference is over 2 externals"
    );
    assert_eq!(
        chain_slots(&[vec![0, 0], vec![0, 0]]).unwrap_err(),
        "propagator 2 does not differ from propagator 1 by a single external momentum (the \
         reducer's chain r_i = q1 + ... + q_{i-1}); difference is over 0 externals"
    );
    assert_eq!(
        chain_slots(&[vec![0, 0], vec![0, -3]]).unwrap_err(),
        "propagator 2 differs from propagator 1 by -3*q2, not a single external"
    );
    assert_eq!(
        chain_slots(&[vec![0, 0], vec![0, 1], vec![0, 0]]).unwrap_err(),
        "external q2 appears in more than one chain slot; the reducer's chain directions must \
         be independent"
    );
}

#[test]
fn chain_slots_reads_signs() {
    assert_eq!(
        chain_slots(&[vec![0, 0, 0], vec![0, -1, 0], vec![0, -1, 1]]).unwrap(),
        vec![(1, -1), (2, 1)]
    );
    assert_eq!(chain_slots(&[vec![0]]).unwrap(), vec![]);
}

#[test]
fn chain_slots_accepts_what_chain_order_produces() {
    let offs = [vec![1, 1, 0], vec![0, 0, 0], vec![1, 0, 0], vec![1, 1, -1]];
    let order = chain_order(&offs).unwrap();
    let chain: Vec<Vec<i32>> = order.iter().map(|&i| offs[i].clone()).collect();
    let slots = chain_slots(&chain).unwrap();
    assert_eq!(order, vec![1, 2, 0, 3]);
    assert_eq!(slots, vec![(0, 1), (1, 1), (2, -1)]);
}

#[test]
fn directions_allow_chain_directions_only() {
    let slots = [(2, 1), (0, -1)];
    let mut depends = [false; 8];
    depends[0] = true;
    depends[2] = true;
    assert_eq!(check_directions(&depends, &slots, 3), Ok(()));
    depends[1] = true;
    assert_eq!(
        check_directions(&depends, &slots, 3).unwrap_err(),
        "numerator contracts the loop momentum with q2, which is not one of the 2 chain \
         directions of this 3-propagator topology; the reducer would project it against a \
         fabricated Gram"
    );
}

#[test]
fn directions_let_a_tadpole_carry_three_externals() {
    let mut depends = [false; 8];
    depends[0] = true;
    depends[2] = true;
    assert_eq!(check_directions(&depends, &[], 1), Ok(()));
    depends[3] = true;
    depends[5] = true;
    assert_eq!(
        check_directions(&depends, &[], 1).unwrap_err(),
        "tadpole numerator contracts the loop momentum with q4, beyond the reducer's n_ext=3 \
         irreducible-scalar-product basis"
    );
}

#[test]
fn chain_order_is_a_permutation() {
    let offs = [
        vec![0, 1, 1, 0],
        vec![0, 0, 1, 0],
        vec![0, 0, 0, 0],
        vec![-1, 1, 1, 0],
        vec![-1, 1, 1, 1],
    ];
    let mut order = chain_order(&offs).unwrap();
    assert_eq!(order, vec![2, 1, 0, 3, 4]);
    order.sort();
    assert_eq!(order, vec![0, 1, 2, 3, 4]);
}

#[test]
fn offsets_already_in_chain_order_keep_their_order() {
    let offs = [vec![0, 0, 0], vec![1, 0, 0], vec![1, -1, 0], vec![1, -1, 1]];
    assert_eq!(chain_order(&offs).unwrap(), vec![0, 1, 2, 3]);
    assert_eq!(chain_slots(&offs).unwrap(), vec![(0, 1), (1, -1), (2, 1)]);
}

#[test]
fn a_passing_permutation_means_chain_order_succeeds() {
    // [1, 0] then [0, 0] is refused as it stands, but reordered it is a chain.
    let offs = [vec![1, 0], vec![0, 0], vec![1, 1]];
    assert!(chain_slots(&offs).is_err());
    assert!(chain_slots(&[offs[1].clone(), offs[0].clone(), offs[2].clone()]).is_ok());
    assert_eq!(chain_order(&offs).unwrap(), vec![1, 0, 2]);
}
