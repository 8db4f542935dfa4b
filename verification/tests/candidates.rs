use qpp_rng::candidates::{all_candidates, find};
use qpp_rng::rng_core::QppRngSource;

#[test]
fn every_candidate_produces_distinct_nonzero_output() {
    for candidate in all_candidates() {
        let mut rng = candidate.make(0xC0FF_EE00_1234_5678_9ABC_DEF0_1122_3344);
        let mut buf = [0u8; 64];
        rng.fill_bytes(&mut buf);
        assert!(
            buf.iter().any(|&b| b != buf[0]),
            "candidate {} produced constant output",
            candidate.name
        );
    }
}

#[test]
fn find_looks_up_by_name_and_rejects_unknown_names() {
    assert!(find("reference-xorshift128plus").is_some());
    assert!(find("does-not-exist").is_none());
}

#[test]
fn names_are_unique() {
    let names: Vec<_> = all_candidates().into_iter().map(|c| c.name).collect();
    let mut sorted = names.clone();
    sorted.sort_unstable();
    sorted.dedup();
    assert_eq!(names.len(), sorted.len(), "duplicate candidate name");
}

#[test]
fn registry_order_and_widths() {
    let names: Vec<&str> = all_candidates().iter().map(|c| c.name).collect();
    assert_eq!(
        names,
        vec![
            "reference-xorshift128plus",
            "reference-nextx48",
            "reference-xorshift128plus-sha256-conditioned",
            "reference-nextx48-sha256-conditioned",
        ]
    );
    assert!(all_candidates().iter().all(|c| c.array_size == 5));
    let found = find("reference-nextx48-sha256-conditioned").unwrap();
    assert_eq!(found.implementation, "qpp-rng-reference + conditioning");
}

#[test]
fn every_candidate_names_the_component_it_comes_from() {
    let implementations: Vec<&str> = all_candidates().iter().map(|c| c.implementation).collect();
    assert_eq!(
        implementations,
        vec![
            "qpp-rng-reference",
            "qpp-rng-reference",
            "qpp-rng-reference + conditioning",
            "qpp-rng-reference + conditioning",
        ]
    );
}
