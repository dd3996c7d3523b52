use strand_match::function::AsmFunction;
use strand_match::matching::compare_simple;
use strand_match::matching::exact_matching_insns;
use strand_match::matching::match_funcs;

fn func(namespace: &str, name: &str, addr: u32, code: Vec<u32>) -> AsmFunction {
    AsmFunction {
        lib_filename: String::from("lib.xml"),
        namespace: String::from(namespace),
        name: String::from(name),
        ghidra_addr: addr,
        len: (code.len() * 4) as u32,
        code,
    }
}

#[test]
fn length_gate() {
    // incomparable exactly when the code lengths differ
    let a = func("ns", "a", 0x100, vec![0x11, 0x22, 0x33]);
    let b = func("ns", "b", 0x200, vec![0x11, 0x22]);
    assert_eq!(compare_simple(&a, &b), usize::MAX);
    assert_eq!(exact_matching_insns(&a, &b), 0);
    let c = func("ns", "c", 0x300, vec![0x99, 0x88, 0x77]);
    assert_ne!(compare_simple(&a, &c), usize::MAX);
    assert_eq!(compare_simple(&a, &c), 3);
}

#[test]
fn end_to_end_scenario() {
    // SDK [11,22,33] vs REL [11,22,99]: one comparable difference, so not a
    // candidate; a second REL identical to the SDK function is a confident
    // pairing with exact strength 3.
    let sdk = vec![func("ns", "f", 0x1000, vec![0x11, 0x22, 0x33])];
    let rel = vec![
        func("rel", "FUN_2000", 0x2000, vec![0x11, 0x22, 0x99]),
        func("rel", "FUN_3000", 0x3000, vec![0x11, 0x22, 0x33]),
    ];
    assert_eq!(compare_simple(&sdk[0], &rel[0]), 1);
    assert_eq!(compare_simple(&sdk[0], &rel[1]), 0);
    assert_eq!(exact_matching_insns(&sdk[0], &rel[1]), 3);
    let result = match_funcs(&sdk, &rel);
    assert_eq!(result.confident, vec![(0, 1)]);
    assert!(result.ambiguous.is_empty());
}

#[test]
fn masked_word_exclusion() {
    // the masked third word is excluded from both scores
    let sdk = func("ns", "f", 0x1000, vec![0x11, 0x22, 0x33]);
    let rel = func("rel", "FUN", 0x2000, vec![0x11, 0x22, 0x00]);
    assert_eq!(compare_simple(&sdk, &rel), 0);
    assert_eq!(exact_matching_insns(&sdk, &rel), 2);
}

#[test]
fn masking_symmetry() {
    // with one side masked at an index, the value on the other side at that
    // index changes neither score
    let masked = func("ns", "m", 0x1000, vec![0x11, 0x00, 0x33]);
    let other1 = func("ns", "x", 0x2000, vec![0x11, 0xaa, 0x33]);
    let other2 = func("ns", "y", 0x3000, vec![0x11, 0xbb, 0x33]);
    assert_eq!(compare_simple(&masked, &other1), compare_simple(&masked, &other2));
    assert_eq!(
        exact_matching_insns(&masked, &other1),
        exact_matching_insns(&masked, &other2)
    );
    assert_eq!(compare_simple(&other1, &masked), 0);
    assert_eq!(exact_matching_insns(&other1, &masked), 2);
}

#[test]
fn strict_improvement_discards_weaker() {
    // the first SDK function matches through masking only; the second has
    // more literal evidence and takes the candidacy alone, and a later tied
    // weaker one cannot re-enter
    let code = vec![0x11, 0x22, 0x33, 0x44, 0x55, 0x66, 0x77];
    let weak = vec![0x11, 0x00, 0x00, 0x00, 0x00, 0x00, 0x00];
    let sdk = vec![
        func("ns", "weak_a", 0x1000, weak.clone()),
        func("ns", "strong", 0x2000, code.clone()),
        func("ns", "weak_b", 0x3000, weak.clone()),
    ];
    let rel = vec![func("rel", "FUN", 0x4000, code.clone())];
    let result = match_funcs(&sdk, &rel);
    assert_eq!(result.confident, vec![(1, 0)]);
    assert!(result.ambiguous.is_empty());
}

#[test]
fn tie_gives_ambiguity_report() {
    // two SDK functions with identical 6-word code tie for one REL function:
    // no confident pairing, one ambiguity entry listing both
    let code = vec![0x11, 0x22, 0x33, 0x44, 0x55, 0x66];
    let sdk = vec![
        func("ns", "first", 0x1000, code.clone()),
        func("ns", "second", 0x2000, code.clone()),
    ];
    let rel = vec![func("rel", "FUN", 0x4000, code.clone())];
    let result = match_funcs(&sdk, &rel);
    assert!(result.confident.is_empty());
    assert_eq!(result.ambiguous.len(), 1);
    assert_eq!(result.ambiguous[0].0, 0);
    assert_eq!(result.ambiguous[0].1, vec![0, 1]);
}

#[test]
fn short_rel_never_in_ambiguity_report() {
    // 5 instruction words or fewer: never listed, however many tied candidates
    let code = vec![0x11, 0x22, 0x33, 0x44, 0x55];
    let sdk = vec![
        func("ns", "first", 0x1000, code.clone()),
        func("ns", "second", 0x2000, code.clone()),
    ];
    let rel = vec![func("rel", "FUN", 0x4000, code.clone())];
    let result = match_funcs(&sdk, &rel);
    assert!(result.confident.is_empty());
    assert!(result.ambiguous.is_empty());
}

#[test]
fn weak_tie_filtered_from_report() {
    // both candidates tie with only 3 exact matches: the entry is dropped
    // entirely, since no candidate passes the strength bar
    let rel_code = vec![0x11, 0x22, 0x33, 0x00, 0x00, 0x00];
    let sdk_code = vec![0x11, 0x22, 0x33, 0x99, 0x88, 0x77];
    let sdk = vec![
        func("ns", "first", 0x1000, sdk_code.clone()),
        func("ns", "second", 0x2000, sdk_code.clone()),
    ];
    let rel = vec![func("rel", "FUN", 0x4000, rel_code)];
    let result = match_funcs(&sdk, &rel);
    assert!(result.confident.is_empty());
    assert!(result.ambiguous.is_empty());
}

#[test]
fn determinism() {
    let sdk = vec![
        func("b_ns", "f", 0x1000, vec![0x11, 0x22]),
        func("a_ns", "g", 0x2000, vec![0x33, 0x44]),
    ];
    let rel = vec![
        func("rel", "FUN_A", 0x4000, vec![0x11, 0x22]),
        func("rel", "FUN_B", 0x5000, vec![0x33, 0x44]),
    ];
    let r1 = match_funcs(&sdk, &rel);
    let r2 = match_funcs(&sdk, &rel);
    assert_eq!(r1.confident, r2.confident);
    assert_eq!(r1.ambiguous, r2.ambiguous);
}

#[test]
fn confident_pairings_sorted_by_sdk_name() {
    // pairings come out ordered by (namespace, name), not by REL order
    let sdk = vec![
        func("zeta", "f", 0x1000, vec![0x11, 0x22]),
        func("alpha", "g", 0x2000, vec![0x33, 0x44]),
        func("alpha", "a", 0x3000, vec![0x55, 0x66]),
    ];
    let rel = vec![
        func("rel", "FUN_A", 0x4000, vec![0x11, 0x22]),
        func("rel", "FUN_B", 0x5000, vec![0x33, 0x44]),
        func("rel", "FUN_C", 0x6000, vec![0x55, 0x66]),
    ];
    let result = match_funcs(&sdk, &rel);
    assert_eq!(result.confident, vec![(2, 2), (1, 1), (0, 0)]);
}

#[test]
fn equal_keys_keep_rel_order() {
    // two SDK functions with the same (namespace, name) key: the sort is
    // stable, so their pairings stay in REL order
    let sdk = vec![
        func("ns", "f", 0x1000, vec![0x11, 0x22]),
        func("ns", "f", 0x2000, vec![0x33, 0x44]),
    ];
    let rel = vec![
        func("rel", "FUN_A", 0x4000, vec![0x33, 0x44]),
        func("rel", "FUN_B", 0x5000, vec![0x11, 0x22]),
    ];
    let result = match_funcs(&sdk, &rel);
    assert_eq!(result.confident, vec![(1, 0), (0, 1)]);
}

#[test]
fn empty_populations() {
    let none: Vec<AsmFunction> = vec![];
    let result = match_funcs(&none, &none);
    assert!(result.confident.is_empty());
    assert!(result.ambiguous.is_empty());

    let sdk = vec![func("ns", "f", 0x1000, vec![0x11])];
    let result = match_funcs(&sdk, &none);
    assert!(result.confident.is_empty());

    let result = match_funcs(&none, &sdk);
    assert!(result.confident.is_empty());
}

#[test]
fn unmatched_rel_is_silent() {
    let sdk = vec![func("ns", "f", 0x1000, vec![0x11, 0x22])];
    let rel = vec![func("rel", "FUN", 0x4000, vec![0x77, 0x88])];
    let result = match_funcs(&sdk, &rel);
    assert!(result.confident.is_empty());
    assert!(result.ambiguous.is_empty());
}
