use ttwa::score::{attachment_index, x_score, TRADEOFF_DEN};

#[test]
fn qualified_area_scores_one_twelfth() {
    assert_eq!(x_score(90000, 90000, 90000), (1, 12));
}

#[test]
fn contained_small_area_scores_by_size_deficit() {
    assert_eq!(x_score(10000, 10000, 10000), (83 * 6500, 21500000));
    let (n, d) = x_score(5, 5, 5);
    assert_eq!((n, d), (83 * (5 - 3500), TRADEOFF_DEN as i128));
    assert!(n < 0);
}

#[test]
fn large_uncontained_area_scores_containment_deficit() {
    assert_eq!(x_score(30000, 30000, 10000), (10000000 - 20010000, 30000000));
}

#[test]
fn small_uncontained_area_scores_on_tradeoff_plane() {
    assert_eq!(
        x_score(5000, 5000, 0),
        (83 * 5000 * 5000 - 16415500 * 5000, 21500000 * 5000)
    );
}

#[test]
fn containment_uses_smaller_of_demand_and_supply() {
    // 750 / min(1000, 900) = 0.833 >= 0.75: contained.
    assert_eq!(x_score(1000, 900, 750), (83 * (900 - 3500), 21500000));
    // An area with no demand has containment zero.
    assert_eq!(x_score(0, 400, 0), (83 * 400 - 16415500, 21500000));
}

#[test]
fn attachment_index_is_exact() {
    // 10/20 * 10/40 + 5/50 * 5/10 = 1/8 + 1/20 = 7/40
    let (n, d) = attachment_index(10, 20, 40, 5, 50, 10);
    assert_eq!((n, d), (70000, 400000));
    assert_eq!(n * 40, d * 7);
}

#[test]
fn attachment_term_with_zero_divisor_is_zero() {
    // The node has no outgoing flow: only the second term counts.
    let (n, d) = attachment_index(0, 0, 40, 5, 50, 10);
    assert_eq!((n, d), (25, 500));
    let (n, _) = attachment_index(0, 0, 0, 0, 0, 0);
    assert_eq!(n, 0);
}
