use vstd::prelude::*;

use crate::function::key_le;
use crate::function::record_key_le;
use crate::function::AsmFunction;

verus! {

/// Number of comparable positions that differ: positions where both words are
/// unmasked (non-zero) and unequal. Masked positions carry no information and
/// are excluded entirely. Meaningful for sequences of equal length.
pub open spec fn diff_count(a: Seq<u32>, b: Seq<u32>) -> nat
    decreases a.len(),
{
    if a.len() == 0 || b.len() == 0 {
        0
    } else {
        diff_count(a.drop_last(), b.drop_last()) + if a.last() != 0 && b.last() != 0 && a.last()
            != b.last() {
            1nat
        } else {
            0nat
        }
    }
}

/// Number of positions where the words are identical and unmasked: the
/// literal evidence that two functions are the same code.
pub open spec fn exact_count(a: Seq<u32>, b: Seq<u32>) -> nat
    decreases a.len(),
{
    if a.len() == 0 || b.len() == 0 {
        0
    } else {
        exact_count(a.drop_last(), b.drop_last()) + if a.last() == b.last() && a.last() != 0 {
            1nat
        } else {
            0nat
        }
    }
}

/// The simple-difference score. `None` means incomparable: the lengths differ
/// and the pair can never be a candidate. `Some(d)` counts the comparable
/// positions that differ.
pub open spec fn simple_diff(a: Seq<u32>, b: Seq<u32>) -> Option<nat> {
    if a.len() != b.len() {
        None
    } else {
        Some(diff_count(a, b))
    }
}

/// The exact-match strength used to break ties between equally plausible
/// candidates; 0 for incomparable pairs.
pub open spec fn exact_matches(a: Seq<u32>, b: Seq<u32>) -> nat {
    if a.len() != b.len() {
        0
    } else {
        exact_count(a, b)
    }
}

/// If the lengths are equal, how many instruction words differ, not counting
/// masked words. If the lengths differ, `usize::MAX`.
pub fn compare_simple(a: &AsmFunction, b: &AsmFunction) -> (r: usize)
    ensures
        a.code@.len() == b.code@.len() ==> r == diff_count(a.code@, b.code@),
        a.code@.len() != b.code@.len() ==> r == usize::MAX,
{
    if a.code.len() != b.code.len() {
        return usize::MAX;
    }
    let n = a.code.len();
    let mut count: usize = 0;
    let mut i: usize = 0;
    while i < n
        invariant
            i <= n,
            n == a.code@.len(),
            n == b.code@.len(),
            count == diff_count(a.code@.take(i as int), b.code@.take(i as int)),
            count <= i,
        decreases n - i,
    {
        let x = a.code[i];
        let y = b.code[i];
        proof {
            assert(a.code@.take(i + 1).drop_last() =~= a.code@.take(i as int));
            assert(b.code@.take(i + 1).drop_last() =~= b.code@.take(i as int));
            assert(a.code@.take(i + 1).last() == x);
            assert(b.code@.take(i + 1).last() == y);
        }
        if x != 0 && y != 0 && x != y {
            count = count + 1;
        }
        i = i + 1;
    }
    proof {
        assert(a.code@.take(n as int) =~= a.code@);
        assert(b.code@.take(n as int) =~= b.code@);
    }
    count
}

/// How many instruction words match exactly between the two functions, where
/// masked words do not count. 0 if the lengths differ.
pub fn exact_matching_insns(a: &AsmFunction, b: &AsmFunction) -> (r: usize)
    ensures
        r == exact_matches(a.code@, b.code@),
{
    if a.code.len() != b.code.len() {
        return 0;
    }
    let n = a.code.len();
    let mut count: usize = 0;
    let mut i: usize = 0;
    while i < n
        invariant
            i <= n,
            n == a.code@.len(),
            n == b.code@.len(),
            count == exact_count(a.code@.take(i as int), b.code@.take(i as int)),
            count <= i,
        decreases n - i,
    {
        let x = a.code[i];
        let y = b.code[i];
        proof {
            assert(a.code@.take(i + 1).drop_last() =~= a.code@.take(i as int));
            assert(b.code@.take(i + 1).drop_last() =~= b.code@.take(i as int));
            assert(a.code@.take(i + 1).last() == x);
            assert(b.code@.take(i + 1).last() == y);
        }
        if x == y && x != 0 {
            count = count + 1;
        }
        i = i + 1;
    }
    proof {
        assert(a.code@.take(n as int) =~= a.code@);
        assert(b.code@.take(n as int) =~= b.code@);
    }
    count
}

/// The length gate: a pair is incomparable exactly when the code lengths
/// differ; a pair of equal lengths always gets a finite score, never more
/// than the common length.
pub proof fn lemma_length_gate(a: Seq<u32>, b: Seq<u32>)
    ensures
        simple_diff(a, b) is None <==> a.len() != b.len(),
        a.len() == b.len() ==> simple_diff(a, b) == Some(diff_count(a, b)) && diff_count(a, b)
            <= a.len(),
    decreases a.len(),
{
    if a.len() == b.len() && a.len() > 0 {
        lemma_length_gate(a.drop_last(), b.drop_last());
    }
}

/// Masking symmetry, first half: a masked position on the left side never
/// contributes to either score, no matter what the right side holds there.
pub proof fn lemma_masked_position_ignored(a: Seq<u32>, b: Seq<u32>, i: int, x: u32)
    requires
        a.len() == b.len(),
        0 <= i < a.len(),
        a[i] == 0,
    ensures
        diff_count(a, b.update(i, x)) == diff_count(a, b),
        exact_count(a, b.update(i, x)) == exact_count(a, b),
    decreases a.len(),
{
    let n = a.len() as int;
    if i == n - 1 {
        assert(b.update(i, x).drop_last() =~= b.drop_last());
    } else {
        assert(b.update(i, x).drop_last() =~= b.drop_last().update(i, x));
        lemma_masked_position_ignored(a.drop_last(), b.drop_last(), i, x);
    }
}

/// Masking symmetry, second half: the same for a masked position on the right
/// side.
pub proof fn lemma_masked_position_ignored_right(a: Seq<u32>, b: Seq<u32>, i: int, x: u32)
    requires
        a.len() == b.len(),
        0 <= i < a.len(),
        b[i] == 0,
    ensures
        diff_count(a.update(i, x), b) == diff_count(a, b),
        exact_count(a.update(i, x), b) == exact_count(a, b),
    decreases a.len(),
{
    let n = a.len() as int;
    if i == n - 1 {
        assert(a.update(i, x).drop_last() =~= a.drop_last());
    } else {
        assert(a.update(i, x).drop_last() =~= a.drop_last().update(i, x));
        lemma_masked_position_ignored_right(a.drop_last(), b.drop_last(), i, x);
    }
}

/// A pair is admissible as a match when the lengths agree and every
/// comparable position is identical.
pub open spec fn admissible(s: AsmFunction, r: AsmFunction) -> bool {
    simple_diff(s.code@, r.code@) == Some(0nat)
}

/// The candidate list for one REL function after the first `n` SDK functions
/// have voted: the first admissible SDK function is kept unconditionally; a
/// later admissible one replaces the whole list if it has strictly more exact
/// matches, joins it if tied, and is discarded if weaker.
pub open spec fn cands_upto(sdk: Seq<AsmFunction>, rel: AsmFunction, n: int) -> Seq<usize>
    decreases n,
{
    if n <= 0 {
        Seq::empty()
    } else {
        let prev = cands_upto(sdk, rel, n - 1);
        let i = n - 1;
        if !admissible(sdk[i], rel) {
            prev
        } else if prev.len() == 0 {
            seq![i as usize]
        } else {
            let cur = exact_matches(sdk[prev[0] as int].code@, rel.code@);
            let new = exact_matches(sdk[i].code@, rel.code@);
            if new > cur {
                seq![i as usize]
            } else if new == cur {
                prev.push(i as usize)
            } else {
                prev
            }
        }
    }
}

/// The surviving candidate set for one REL function, in SDK order.
pub open spec fn candidates(sdk: Seq<AsmFunction>, rel: AsmFunction) -> Seq<usize> {
    cands_upto(sdk, rel, sdk.len() as int)
}

/// `i` survives among the first `n` SDK functions: it is admissible and of
/// maximal exact-match strength among the admissible ones seen so far.
pub open spec fn is_candidate_upto(sdk: Seq<AsmFunction>, rel: AsmFunction, n: int, i: int) -> bool {
    &&& 0 <= i < n
    &&& admissible(sdk[i], rel)
    &&& forall|j: int|
        0 <= j < n && admissible(sdk[j], rel) ==> exact_matches(sdk[j].code@, rel.code@)
            <= exact_matches(sdk[i].code@, rel.code@)
}

/// `i` is a surviving candidate: admissible, and no admissible SDK function
/// has strictly more exact matches.
pub open spec fn is_candidate(sdk: Seq<AsmFunction>, rel: AsmFunction, i: int) -> bool {
    is_candidate_upto(sdk, rel, sdk.len() as int, i)
}

/// An index that was maximal among the first `n-1` SDK functions stays
/// maximal after the `n`-th vote if the newcomer is not strictly stronger.
proof fn lemma_extend_candidate(sdk: Seq<AsmFunction>, rel: AsmFunction, n: int, idx: int)
    requires
        1 <= n <= sdk.len(),
        is_candidate_upto(sdk, rel, n - 1, idx),
        admissible(sdk[n - 1], rel) ==> exact_matches(sdk[n - 1].code@, rel.code@)
            <= exact_matches(sdk[idx].code@, rel.code@),
    ensures
        is_candidate_upto(sdk, rel, n, idx),
{
    assert forall|j: int| 0 <= j < n && admissible(#[trigger] sdk[j], rel) implies exact_matches(
        sdk[j].code@,
        rel.code@,
    ) <= exact_matches(sdk[idx].code@, rel.code@) by {
        if j < n - 1 {
            assert(is_candidate_upto(sdk, rel, n - 1, idx));
        }
    }
}

/// The incremental voting rule is order-independent in outcome: after `n`
/// votes the list holds exactly the admissible indices of maximal exact-match
/// strength, in increasing order; it is empty only while nothing admissible
/// has been seen.
pub proof fn lemma_cands_upto_characterized(sdk: Seq<AsmFunction>, rel: AsmFunction, n: int)
    requires
        0 <= n <= sdk.len(),
        sdk.len() <= usize::MAX,
    ensures
        forall|k: int|
            0 <= k < cands_upto(sdk, rel, n).len() ==> is_candidate_upto(
                sdk,
                rel,
                n,
                #[trigger] cands_upto(sdk, rel, n)[k] as int,
            ),
        forall|i: int|
            is_candidate_upto(sdk, rel, n, i) ==> cands_upto(sdk, rel, n).contains(i as usize),
        forall|k1: int, k2: int|
            0 <= k1 < k2 < cands_upto(sdk, rel, n).len() ==> #[trigger] cands_upto(sdk, rel, n)[k1]
                < #[trigger] cands_upto(sdk, rel, n)[k2],
        cands_upto(sdk, rel, n).len() == 0 <==> (forall|j: int|
            0 <= j < n ==> !admissible(#[trigger] sdk[j], rel)),
    decreases n,
{
    if n > 0 {
        lemma_cands_upto_characterized(sdk, rel, n - 1);
        let prev = cands_upto(sdk, rel, n - 1);
        let cur = cands_upto(sdk, rel, n);
        let i = n - 1;
        if admissible(sdk[i], rel) && prev.len() > 0 {
            let em_prev = exact_matches(sdk[prev[0] as int].code@, rel.code@);
            let em_new = exact_matches(sdk[i].code@, rel.code@);
            assert(is_candidate_upto(sdk, rel, n - 1, prev[0] as int));
            // every held index has the same strength as the head: each is
            // maximal among the first n-1, so none can exceed another
            assert forall|k: int| 0 <= k < prev.len() implies is_candidate_upto(
                sdk,
                rel,
                n - 1,
                #[trigger] prev[k] as int,
            ) && exact_matches(sdk[prev[k] as int].code@, rel.code@) == em_prev by {
                assert(is_candidate_upto(sdk, rel, n - 1, prev[k] as int));
                assert(exact_matches(sdk[prev[0] as int].code@, rel.code@) <= exact_matches(
                    sdk[prev[k] as int].code@,
                    rel.code@,
                ));
                assert(exact_matches(sdk[prev[k] as int].code@, rel.code@) <= exact_matches(
                    sdk[prev[0] as int].code@,
                    rel.code@,
                ));
            }
            if em_new > em_prev {
                assert(cur =~= seq![i as usize]);
                assert(is_candidate_upto(sdk, rel, n, i)) by {
                    assert forall|j: int| 0 <= j < n && admissible(#[trigger] sdk[j], rel) implies
                        exact_matches(sdk[j].code@, rel.code@) <= em_new by {
                        if j < n - 1 {
                            assert(is_candidate_upto(sdk, rel, n - 1, prev[0] as int));
                        }
                    }
                }
                assert forall|ii: int| is_candidate_upto(sdk, rel, n, ii) implies cur.contains(
                    ii as usize,
                ) by {
                    if ii < n - 1 {
                        // a survivor of the first n-1 votes ties the old
                        // maximum and loses to the strict improvement
                        assert(is_candidate_upto(sdk, rel, n - 1, ii));
                        assert(exact_matches(sdk[ii].code@, rel.code@) <= em_prev);
                        assert(exact_matches(sdk[i].code@, rel.code@) <= exact_matches(
                            sdk[ii].code@,
                            rel.code@,
                        ));
                        assert(false);
                    } else {
                        assert(cur[0] == ii as usize);
                    }
                }
            } else if em_new == em_prev {
                assert(cur =~= prev.push(i as usize));
                assert forall|k: int| 0 <= k < cur.len() implies is_candidate_upto(
                    sdk,
                    rel,
                    n,
                    #[trigger] cur[k] as int,
                ) by {
                    if k < prev.len() {
                        assert(cur[k] == prev[k]);
                        assert(exact_matches(sdk[prev[k] as int].code@, rel.code@) == em_prev);
                        lemma_extend_candidate(sdk, rel, n, prev[k] as int);
                    } else {
                        assert(cur[k] == i as usize);
                        lemma_extend_candidate(sdk, rel, n, prev[0] as int);
                        assert(is_candidate_upto(sdk, rel, n, prev[0] as int));
                        assert forall|j: int| 0 <= j < n && admissible(#[trigger] sdk[j], rel)
                            implies exact_matches(sdk[j].code@, rel.code@) <= em_new by {
                            assert(exact_matches(sdk[j].code@, rel.code@) <= exact_matches(
                                sdk[prev[0] as int].code@,
                                rel.code@,
                            ));
                        }
                    }
                }
                assert forall|ii: int| is_candidate_upto(sdk, rel, n, ii) implies cur.contains(
                    ii as usize,
                ) by {
                    if ii < n - 1 {
                        assert(is_candidate_upto(sdk, rel, n - 1, ii));
                        let k = choose|k: int| 0 <= k < prev.len() && prev[k] == ii as usize;
                        assert(cur[k] == ii as usize);
                    } else {
                        assert(cur.last() == ii as usize);
                    }
                }
                assert forall|k1: int, k2: int| 0 <= k1 < k2 < cur.len() implies #[trigger] cur[k1]
                    < #[trigger] cur[k2] by {
                    if k2 == cur.len() - 1 {
                        assert(cur[k1] == prev[k1]);
                        assert(is_candidate_upto(sdk, rel, n - 1, prev[k1] as int));
                        assert(prev[k1] < n - 1);
                        assert(cur[k2] == i as usize);
                    } else {
                        assert(cur[k1] == prev[k1]);
                        assert(cur[k2] == prev[k2]);
                    }
                }
            } else {
                // the newcomer is weaker than the held maximum and is dropped
                assert(cur =~= prev);
                assert forall|k: int| 0 <= k < cur.len() implies is_candidate_upto(
                    sdk,
                    rel,
                    n,
                    #[trigger] cur[k] as int,
                ) by {
                    assert(cur[k] == prev[k]);
                    assert(exact_matches(sdk[prev[k] as int].code@, rel.code@) == em_prev);
                    lemma_extend_candidate(sdk, rel, n, prev[k] as int);
                }
                assert forall|ii: int| is_candidate_upto(sdk, rel, n, ii) implies cur.contains(
                    ii as usize,
                ) by {
                    if ii < n - 1 {
                        assert(is_candidate_upto(sdk, rel, n - 1, ii));
                        let k = choose|k: int| 0 <= k < prev.len() && prev[k] == ii as usize;
                        assert(cur[k] == ii as usize);
                    } else {
                        assert(exact_matches(sdk[prev[0] as int].code@, rel.code@) <= exact_matches(
                            sdk[ii].code@,
                            rel.code@,
                        ));
                        assert(false);
                    }
                }
            }
        } else if admissible(sdk[i], rel) {
            // first admissible SDK function seen: it is trivially maximal
            assert(cur =~= seq![i as usize]);
            assert(forall|j: int| 0 <= j < n - 1 ==> !admissible(#[trigger] sdk[j], rel));
            assert(is_candidate_upto(sdk, rel, n, i));
            assert forall|ii: int| is_candidate_upto(sdk, rel, n, ii) implies cur.contains(
                ii as usize,
            ) by {
                if ii < n - 1 {
                    assert(!admissible(sdk[ii], rel));
                    assert(false);
                } else {
                    assert(cur[0] == ii as usize);
                }
            }
        } else {
            assert(cur =~= prev);
            assert forall|k: int| 0 <= k < cur.len() implies is_candidate_upto(
                sdk,
                rel,
                n,
                #[trigger] cur[k] as int,
            ) by {
                assert(cur[k] == prev[k]);
                assert(is_candidate_upto(sdk, rel, n - 1, prev[k] as int));
                lemma_extend_candidate(sdk, rel, n, prev[k] as int);
            }
            assert forall|ii: int| is_candidate_upto(sdk, rel, n, ii) implies cur.contains(
                ii as usize,
            ) by {
                assert(ii != n - 1);
                assert(is_candidate_upto(sdk, rel, n - 1, ii));
                let k = choose|k: int| 0 <= k < prev.len() && prev[k] == ii as usize;
                assert(cur[k] == ii as usize);
            }
        }
    }
}

/// The surviving candidate set is exactly the set of admissible SDK functions
/// of maximal exact-match strength, regardless of visitation order.
pub proof fn lemma_candidates_characterized(sdk: Seq<AsmFunction>, rel: AsmFunction)
    requires
        sdk.len() <= usize::MAX,
    ensures
        forall|i: int| is_candidate(sdk, rel, i) ==> candidates(sdk, rel).contains(i as usize),
        forall|k: int|
            0 <= k < candidates(sdk, rel).len() ==> is_candidate(
                sdk,
                rel,
                #[trigger] candidates(sdk, rel)[k] as int,
            ),
        forall|k1: int, k2: int|
            0 <= k1 < k2 < candidates(sdk, rel).len() ==> #[trigger] candidates(sdk, rel)[k1]
                < #[trigger] candidates(sdk, rel)[k2],
{
    lemma_cands_upto_characterized(sdk, rel, sdk.len() as int);
}

/// Computes the candidate list for one REL function by the incremental voting
/// rule over the whole SDK population.
fn candidate_sdks(sdk_funcs: &Vec<AsmFunction>, rel: &AsmFunction) -> (r: Vec<usize>)
    ensures
        r@ == candidates(sdk_funcs@, *rel),
{
    let mut cands: Vec<usize> = Vec::new();
    let mut i: usize = 0;
    while i < sdk_funcs.len()
        invariant
            i <= sdk_funcs@.len(),
            cands@ == cands_upto(sdk_funcs@, *rel, i as int),
            forall|k: int| 0 <= k < cands@.len() ==> #[trigger] cands@[k] < i,
        decreases sdk_funcs@.len() - i,
    {
        let diff = compare_simple(&sdk_funcs[i], rel);
        proof {
            assert(diff == 0 <==> admissible(sdk_funcs@[i as int], *rel));
        }
        if diff == 0 {
            if cands.len() == 0 {
                cands.push(i);
            } else {
                let first = cands[0];
                let cur = exact_matching_insns(&sdk_funcs[first], rel);
                let new = exact_matching_insns(&sdk_funcs[i], rel);
                if new > cur {
                    cands = Vec::new();
                    cands.push(i);
                } else if new == cur {
                    cands.push(i);
                }
            }
        }
        i = i + 1;
    }
    cands
}

/// Output order of two (sdk index, rel index) pairings: by the SDK function's
/// (namespace, name) key.
pub open spec fn pair_key_le(sdk: Seq<AsmFunction>, p: (usize, usize), q: (usize, usize)) -> bool {
    key_le(sdk[p.0 as int], sdk[q.0 as int])
}

/// Stable insertion into a sorted pairing list: the new pairing goes after
/// every pairing whose key is less than or equal to its own.
pub open spec fn sorted_insert(
    sdk: Seq<AsmFunction>,
    s: Seq<(usize, usize)>,
    x: (usize, usize),
) -> Seq<(usize, usize)>
    decreases s.len(),
{
    if s.len() == 0 {
        seq![x]
    } else if !pair_key_le(sdk, s.last(), x) {
        sorted_insert(sdk, s.drop_last(), x).push(s.last())
    } else {
        s.push(x)
    }
}

/// Stable insertion sort of the pairing list by SDK (namespace, name) key.
pub open spec fn sort_pairs(sdk: Seq<AsmFunction>, s: Seq<(usize, usize)>) -> Seq<(usize, usize)>
    decreases s.len(),
{
    if s.len() == 0 {
        Seq::empty()
    } else {
        sorted_insert(sdk, sort_pairs(sdk, s.drop_last()), s.last())
    }
}

/// The output order is total: any two pairings can be ordered.
pub proof fn lemma_key_le_total(a: AsmFunction, b: AsmFunction)
    ensures
        key_le(a, b) || key_le(b, a),
{
    if a.namespace@ == b.namespace@ {
        crate::function::lemma_lex_le_total(a.name@, b.name@);
    } else {
        crate::function::lemma_lex_le_total(a.namespace@, b.namespace@);
    }
}

/// The output order is transitive.
pub proof fn lemma_key_le_trans(a: AsmFunction, b: AsmFunction, c: AsmFunction)
    requires
        key_le(a, b),
        key_le(b, c),
    ensures
        key_le(a, c),
{
    if a.namespace@ == b.namespace@ {
        if b.namespace@ == c.namespace@ {
            crate::function::lemma_lex_le_trans(a.name@, b.name@, c.name@);
        }
    } else {
        if b.namespace@ != c.namespace@ {
            crate::function::lemma_lex_le_trans(a.namespace@, b.namespace@, c.namespace@);
            if a.namespace@ == c.namespace@ {
                // the namespaces would chain back around and collapse
                crate::function::lemma_lex_le_antisymmetric(a.namespace@, b.namespace@);
                assert(false);
            }
        }
    }
}

/// Every pair of positions respects the output order.
pub open spec fn pairs_sorted(sdk: Seq<AsmFunction>, s: Seq<(usize, usize)>) -> bool {
    forall|k1: int, k2: int|
        0 <= k1 < k2 < s.len() ==> pair_key_le(sdk, #[trigger] s[k1], #[trigger] s[k2])
}

/// Stable insertion adds exactly the new pairing and keeps the list sorted.
proof fn lemma_sorted_insert_props(sdk: Seq<AsmFunction>, s: Seq<(usize, usize)>, x: (usize, usize))
    ensures
        sorted_insert(sdk, s, x).len() == s.len() + 1,
        forall|k: int|
            0 <= k < sorted_insert(sdk, s, x).len() ==> (#[trigger] sorted_insert(sdk, s, x)[k])
                == x || s.contains(sorted_insert(sdk, s, x)[k]),
        pairs_sorted(sdk, s) ==> pairs_sorted(sdk, sorted_insert(sdk, s, x)),
    decreases s.len(),
{
    let res = sorted_insert(sdk, s, x);
    if s.len() == 0 {
        assert(res =~= seq![x]);
    } else if !pair_key_le(sdk, s.last(), x) {
        lemma_sorted_insert_props(sdk, s.drop_last(), x);
        let inner = sorted_insert(sdk, s.drop_last(), x);
        assert(res =~= inner.push(s.last()));
        assert forall|k: int| 0 <= k < res.len() implies (#[trigger] res[k]) == x || s.contains(
            res[k],
        ) by {
            if k < inner.len() && res[k] != x {
                assert(s.drop_last().contains(inner[k]));
                let t = choose|t: int|
                    0 <= t < s.drop_last().len() && s.drop_last()[t] == inner[k];
                assert(s[t] == inner[k]);
            } else if k == inner.len() {
                assert(s[s.len() - 1] == res[k]);
            }
        }
        if pairs_sorted(sdk, s) {
            assert(pairs_sorted(sdk, s.drop_last())) by {
                assert(forall|k: int|
                    0 <= k < s.drop_last().len() ==> #[trigger] s.drop_last()[k] == s[k]);
            }
            assert forall|k1: int, k2: int| 0 <= k1 < k2 < res.len() implies pair_key_le(
                sdk,
                #[trigger] res[k1],
                #[trigger] res[k2],
            ) by {
                if k2 == res.len() - 1 {
                    // everything placed before the old last pairing is the
                    // new pairing or an old one, and both come no later
                    assert(res[k2] == s.last());
                    if res[k1] == x {
                        lemma_key_le_total(sdk[s.last().0 as int], sdk[x.0 as int]);
                    } else {
                        assert(s.drop_last().contains(inner[k1]));
                        let t = choose|t: int|
                            0 <= t < s.drop_last().len() && s.drop_last()[t] == inner[k1];
                        assert(s[t] == res[k1]);
                        assert(pair_key_le(sdk, s[t], s[s.len() - 1]));
                    }
                } else {
                    assert(res[k1] == inner[k1]);
                    assert(res[k2] == inner[k2]);
                }
            }
        }
    } else {
        assert(res =~= s.push(x));
        assert forall|k: int| 0 <= k < res.len() implies (#[trigger] res[k]) == x || s.contains(
            res[k],
        ) by {
            if k < s.len() {
                assert(s[k] == res[k]);
            }
        }
        if pairs_sorted(sdk, s) {
            assert forall|k1: int, k2: int| 0 <= k1 < k2 < res.len() implies pair_key_le(
                sdk,
                #[trigger] res[k1],
                #[trigger] res[k2],
            ) by {
                if k2 == res.len() - 1 {
                    assert(res[k2] == x);
                    if k1 < s.len() - 1 {
                        assert(pair_key_le(sdk, s[k1], s[s.len() - 1]));
                        lemma_key_le_trans(
                            sdk[s[k1].0 as int],
                            sdk[s.last().0 as int],
                            sdk[x.0 as int],
                        );
                    }
                }
            }
        }
    }
}

/// The sort leaves the pairing list in output order: by the SDK function's
/// namespace, then name - the deterministic, reproducible order of the
/// confident pairings.
pub proof fn lemma_sort_pairs_sorted(sdk: Seq<AsmFunction>, s: Seq<(usize, usize)>)
    ensures
        pairs_sorted(sdk, sort_pairs(sdk, s)),
    decreases s.len(),
{
    if s.len() > 0 {
        lemma_sort_pairs_sorted(sdk, s.drop_last());
        lemma_sorted_insert_props(sdk, sort_pairs(sdk, s.drop_last()), s.last());
    }
}

/// Inserting at the split position - after the rightmost pairing whose key is
/// less than or equal to the new one - is exactly the stable insertion.
proof fn lemma_sorted_insert_at(
    sdk: Seq<AsmFunction>,
    s: Seq<(usize, usize)>,
    x: (usize, usize),
    pos: int,
)
    requires
        0 <= pos <= s.len(),
        forall|k: int| pos <= k < s.len() ==> !pair_key_le(sdk, #[trigger] s[k], x),
        pos > 0 ==> pair_key_le(sdk, s[pos - 1], x),
    ensures
        sorted_insert(sdk, s, x) == s.insert(pos, x),
    decreases s.len(),
{
    if pos == s.len() {
        if s.len() == 0 {
            assert(sorted_insert(sdk, s, x) =~= s.insert(pos, x));
        } else {
            assert(pair_key_le(sdk, s.last(), x));
            assert(sorted_insert(sdk, s, x) =~= s.insert(pos, x));
        }
    } else {
        assert(!pair_key_le(sdk, s.last(), x));
        lemma_sorted_insert_at(sdk, s.drop_last(), x, pos);
        assert(sorted_insert(sdk, s, x) =~= s.insert(pos, x)) by {
            assert(s.drop_last().insert(pos, x).push(s.last()) =~= s.insert(pos, x));
        }
    }
}

/// Inserts one pairing into the sorted pairing list, keeping it sorted and
/// keeping every SDK index in range.
fn insert_pair(sdk_funcs: &Vec<AsmFunction>, out: &mut Vec<(usize, usize)>, x: (usize, usize))
    requires
        x.0 < sdk_funcs@.len(),
        forall|k: int| 0 <= k < old(out)@.len() ==> (#[trigger] old(out)@[k]).0 < sdk_funcs@.len(),
    ensures
        final(out)@ == sorted_insert(sdk_funcs@, old(out)@, x),
        forall|k: int|
            0 <= k < final(out)@.len() ==> (#[trigger] final(out)@[k]) == x || old(out)@.contains(
                final(out)@[k],
            ),
{
    let mut pos: usize = out.len();
    while pos > 0 && !record_key_le(&sdk_funcs[out[pos - 1].0], &sdk_funcs[x.0])
        invariant
            pos <= out@.len(),
            out == old(out),
            x.0 < sdk_funcs@.len(),
            forall|k: int| 0 <= k < out@.len() ==> (#[trigger] out@[k]).0 < sdk_funcs@.len(),
            forall|k: int| pos <= k < out@.len() ==> !pair_key_le(sdk_funcs@, #[trigger] out@[k], x),
        decreases pos,
    {
        pos = pos - 1;
    }
    proof {
        lemma_sorted_insert_at(sdk_funcs@, out@, x, pos as int);
    }
    let ghost before = out@;
    out.insert(pos, x);
    proof {
        assert forall|k: int| 0 <= k < out@.len() implies (#[trigger] out@[k]) == x
            || before.contains(out@[k]) by {
            if k < pos {
                assert(out@[k] == before[k]);
            } else if k > pos {
                assert(out@[k] == before[k - 1]);
            }
        }
    }
}

/// The confident pairings, in REL order, before sorting: one `(sdk, rel)`
/// index pair for every REL function among the first `n` whose candidate list
/// has exactly one member.
pub open spec fn confident_upto(
    sdk: Seq<AsmFunction>,
    rel: Seq<AsmFunction>,
    n: int,
) -> Seq<(usize, usize)>
    decreases n,
{
    if n <= 0 {
        Seq::empty()
    } else {
        let prev = confident_upto(sdk, rel, n - 1);
        let cs = candidates(sdk, rel[n - 1]);
        if cs.len() == 1 {
            prev.push((cs[0], (n - 1) as usize))
        } else {
            prev
        }
    }
}

/// The confident pairings of the whole run: every REL function with a unique
/// surviving candidate, sorted by the SDK function's (namespace, name).
pub open spec fn confident_pairs(sdk: Seq<AsmFunction>, rel: Seq<AsmFunction>) -> Seq<
    (usize, usize),
> {
    sort_pairs(sdk, confident_upto(sdk, rel, rel.len() as int))
}

/// The candidates with enough literal evidence to be worth reporting: more
/// than 3 unmasked words in common with the REL function.
pub open spec fn strong_filter(
    sdk: Seq<AsmFunction>,
    rel_func: AsmFunction,
    cs: Seq<usize>,
) -> Seq<usize>
    decreases cs.len(),
{
    if cs.len() == 0 {
        Seq::empty()
    } else {
        strong_filter(sdk, rel_func, cs.drop_last()) + if exact_matches(
            sdk[cs.last() as int].code@,
            rel_func.code@,
        ) > 3 {
            seq![cs.last()]
        } else {
            Seq::empty()
        }
    }
}

/// The ambiguity report over the first `n` REL functions: an entry for every
/// REL function with two or more surviving candidates, longer than 5
/// instruction words (shorter functions are expected to collide), listing
/// only candidates with more than 3 exact matches - and no entry at all when
/// no candidate passes that bar.
pub open spec fn ambiguous_upto(sdk: Seq<AsmFunction>, rel: Seq<AsmFunction>, n: int) -> Seq<
    (usize, Seq<usize>),
>
    decreases n,
{
    if n <= 0 {
        Seq::empty()
    } else {
        let prev = ambiguous_upto(sdk, rel, n - 1);
        let rel_func = rel[n - 1];
        let cs = candidates(sdk, rel_func);
        let strong = strong_filter(sdk, rel_func, cs);
        if cs.len() >= 2 && rel_func.code@.len() > 5 && strong.len() > 0 {
            prev.push(((n - 1) as usize, strong))
        } else {
            prev
        }
    }
}

/// The ambiguity report of the whole run.
pub open spec fn ambiguity_report(sdk: Seq<AsmFunction>, rel: Seq<AsmFunction>) -> Seq<
    (usize, Seq<usize>),
> {
    ambiguous_upto(sdk, rel, rel.len() as int)
}

/// What the matcher returns for given SDK and REL populations: this is a
/// function of the populations alone, so two runs on identical inputs give
/// identical results.
pub open spec fn match_post(
    sdk: Seq<AsmFunction>,
    rel: Seq<AsmFunction>,
    confident: Seq<(usize, usize)>,
    ambiguous: Seq<(usize, Seq<usize>)>,
) -> bool {
    &&& confident == confident_pairs(sdk, rel)
    &&& ambiguous == ambiguity_report(sdk, rel)
}

/// Everything the match engine decides: the confident one-to-one pairings,
/// sorted for reproducible output, and the ambiguity report. Indices refer to
/// the SDK and REL population lists handed to `match_funcs`.
pub struct MatchResult {
    /// (sdk index, rel index) of each confident pairing, sorted by the SDK
    /// function's (namespace, name).
    pub confident: Vec<(usize, usize)>,
    /// (rel index, strong sdk candidates) of each ambiguous REL function that
    /// passes the noise filter, in REL order.
    pub ambiguous: Vec<(usize, Vec<usize>)>,
}

/// Scores every SDK/REL pair and resolves the votes into confident pairings
/// and an ambiguity report. REL functions with no candidate are silently
/// unmatched; the matching phase itself cannot fail.
pub fn match_funcs(sdk_funcs: &Vec<AsmFunction>, rel_funcs: &Vec<AsmFunction>) -> (r: MatchResult)
    ensures
        match_post(sdk_funcs@, rel_funcs@, r.confident@, r.ambiguous.deep_view()),
        forall|k: int|
            0 <= k < r.confident@.len() ==> (#[trigger] r.confident@[k]).0 < sdk_funcs@.len()
                && r.confident@[k].1 < rel_funcs@.len(),
{
    let mut confident: Vec<(usize, usize)> = Vec::new();
    let mut ambiguous: Vec<(usize, Vec<usize>)> = Vec::new();
    let mut i: usize = 0;
    while i < rel_funcs.len()
        invariant
            i <= rel_funcs@.len(),
            confident@ == sort_pairs(sdk_funcs@, confident_upto(sdk_funcs@, rel_funcs@, i as int)),
            ambiguous.deep_view() == ambiguous_upto(sdk_funcs@, rel_funcs@, i as int),
            forall|k: int|
                0 <= k < confident@.len() ==> (#[trigger] confident@[k]).0 < sdk_funcs@.len()
                    && confident@[k].1 < rel_funcs@.len(),
        decreases rel_funcs@.len() - i,
    {
        let rel_func = &rel_funcs[i];
        let cands = candidate_sdks(sdk_funcs, rel_func);
        proof {
            assert(sdk_funcs@.len() == sdk_funcs.len());
            lemma_candidates_characterized(sdk_funcs@, rel_funcs@[i as int]);
        }
        let ghost confident_prev = confident@;
        let ghost ambiguous_prev = ambiguous.deep_view();
        if cands.len() == 1 {
            proof {
                assert(is_candidate(sdk_funcs@, rel_funcs@[i as int], cands@[0] as int));
            }
            let pair = (cands[0], i);
            insert_pair(sdk_funcs, &mut confident, pair);
            proof {
                assert forall|k: int| 0 <= k < confident@.len() implies (#[trigger] confident@[k]).0
                    < sdk_funcs@.len() && confident@[k].1 < rel_funcs@.len() by {
                    if confident@[k] != pair {
                        assert(confident_prev.contains(confident@[k]));
                        let t = choose|t: int|
                            0 <= t < confident_prev.len() && confident_prev[t] == confident@[k];
                        assert(confident_prev[t].0 < sdk_funcs@.len());
                    }
                }
                let up = confident_upto(sdk_funcs@, rel_funcs@, i + 1);
                assert(up =~= confident_upto(sdk_funcs@, rel_funcs@, i as int).push(pair));
                assert(up.drop_last() =~= confident_upto(sdk_funcs@, rel_funcs@, i as int));
                assert(confident@ == sort_pairs(sdk_funcs@, up));
                assert(ambiguous.deep_view() =~~= ambiguous_upto(sdk_funcs@, rel_funcs@, i + 1));
            }
        } else if cands.len() >= 2 && rel_func.code.len() > 5 {
            let mut strong: Vec<usize> = Vec::new();
            let mut k: usize = 0;
            while k < cands.len()
                invariant
                    k <= cands@.len(),
                    cands@ == candidates(sdk_funcs@, rel_funcs@[i as int]),
                    i < rel_funcs@.len(),
                    forall|t: int| 0 <= t < cands@.len() ==> #[trigger] cands@[t] < sdk_funcs@.len(),
                    strong@ == strong_filter(
                        sdk_funcs@,
                        rel_funcs@[i as int],
                        cands@.take(k as int),
                    ),
                decreases cands@.len() - k,
            {
                let c = cands[k];
                let em = exact_matching_insns(&sdk_funcs[c], &rel_funcs[i]);
                proof {
                    assert(cands@.take(k + 1).drop_last() =~= cands@.take(k as int));
                    assert(cands@.take(k + 1).last() == c);
                }
                if em > 3 {
                    strong.push(c);
                    proof {
                        assert(strong@ =~= strong_filter(
                            sdk_funcs@,
                            rel_funcs@[i as int],
                            cands@.take(k + 1),
                        ));
                    }
                } else {
                    proof {
                        assert(strong@ =~= strong_filter(
                            sdk_funcs@,
                            rel_funcs@[i as int],
                            cands@.take(k + 1),
                        ));
                    }
                }
                k = k + 1;
            }
            proof {
                assert(cands@.take(cands@.len() as int) =~= cands@);
            }
            if strong.len() > 0 {
                let ghost strong_view = strong@;
                ambiguous.push((i, strong));
                proof {
                    assert(ambiguous@.last() == (i, strong));
                    assert(ambiguous@.last().1@ == strong_view);
                    assert(ambiguous.deep_view() =~~= ambiguous_upto(
                        sdk_funcs@,
                        rel_funcs@,
                        i + 1,
                    ));
                }
            } else {
                proof {
                    assert(ambiguous.deep_view() =~~= ambiguous_upto(
                        sdk_funcs@,
                        rel_funcs@,
                        i + 1,
                    ));
                }
            }
        } else {
            proof {
                assert(confident@ == sort_pairs(
                    sdk_funcs@,
                    confident_upto(sdk_funcs@, rel_funcs@, i + 1),
                )) by {
                    assert(confident_upto(sdk_funcs@, rel_funcs@, i + 1) =~= confident_upto(
                        sdk_funcs@,
                        rel_funcs@,
                        i as int,
                    ));
                }
                assert(ambiguous.deep_view() =~~= ambiguous_upto(sdk_funcs@, rel_funcs@, i + 1));
            }
        }
        i = i + 1;
    }
    MatchResult { confident, ambiguous }
}

/// Determinism: the matcher's outcome is a function of the two populations
/// alone, so any two results of matching the same SDK set against the same
/// REL set are identical, confident pairings in identical order.
pub proof fn lemma_match_deterministic(
    sdk: Seq<AsmFunction>,
    rel: Seq<AsmFunction>,
    confident1: Seq<(usize, usize)>,
    ambiguous1: Seq<(usize, Seq<usize>)>,
    confident2: Seq<(usize, usize)>,
    ambiguous2: Seq<(usize, Seq<usize>)>,
)
    requires
        match_post(sdk, rel, confident1, ambiguous1),
        match_post(sdk, rel, confident2, ambiguous2),
    ensures
        confident1 == confident2,
        ambiguous1 == ambiguous2,
{
}

/// Monotonic candidacy: once the votes of the first `k` SDK functions have
/// reduced a REL function's candidate set to a singleton, every candidate
/// discarded on the way stays out of the set for the rest of the run, and no
/// later candidate of strictly lower exact-match strength gets in, however
/// many ties or improvements follow. (A later candidate that ties the
/// singleton's strength does join it: that is the multi-way tie rule.)
pub proof fn lemma_monotonic_candidacy(
    sdk: Seq<AsmFunction>,
    rel: AsmFunction,
    k: int,
    n: int,
    j: int,
)
    requires
        sdk.len() <= usize::MAX,
        0 <= k <= n <= sdk.len(),
        cands_upto(sdk, rel, k).len() == 1,
        0 <= j < n,
        j != cands_upto(sdk, rel, k)[0],
        j < k || exact_matches(sdk[j].code@, rel.code@) < exact_matches(
            sdk[cands_upto(sdk, rel, k)[0] as int].code@,
            rel.code@,
        ),
    ensures
        !cands_upto(sdk, rel, n).contains(j as usize),
{
    lemma_cands_upto_characterized(sdk, rel, k);
    lemma_cands_upto_characterized(sdk, rel, n);
    let i = cands_upto(sdk, rel, k)[0] as int;
    assert(is_candidate_upto(sdk, rel, k, i));
    if cands_upto(sdk, rel, n).contains(j as usize) {
        let t = choose|t: int|
            0 <= t < cands_upto(sdk, rel, n).len() && cands_upto(sdk, rel, n)[t] == j as usize;
        assert(is_candidate_upto(sdk, rel, n, cands_upto(sdk, rel, n)[t] as int));
        assert(is_candidate_upto(sdk, rel, n, j));
        if j < k {
            // j was admissible all along and is maximal over the longer
            // prefix, so it was maximal over the first k votes as well
            assert(is_candidate_upto(sdk, rel, k, j));
            assert(cands_upto(sdk, rel, k).contains(j as usize));
            assert(false);
        } else {
            // a survivor is maximal, so it cannot be strictly weaker than
            // the singleton it would join
            assert(exact_matches(sdk[i].code@, rel.code@) <= exact_matches(
                sdk[j].code@,
                rel.code@,
            ));
            assert(false);
        }
    }
}

/// The strength filter only keeps candidates that were in the list.
proof fn lemma_strong_filter_subset(sdk: Seq<AsmFunction>, rel_func: AsmFunction, cs: Seq<usize>)
    ensures
        forall|t: int|
            0 <= t < strong_filter(sdk, rel_func, cs).len() ==> cs.contains(
                #[trigger] strong_filter(sdk, rel_func, cs)[t],
            ),
    decreases cs.len(),
{
    if cs.len() > 0 {
        lemma_strong_filter_subset(sdk, rel_func, cs.drop_last());
        let prev = strong_filter(sdk, rel_func, cs.drop_last());
        let cur = strong_filter(sdk, rel_func, cs);
        assert forall|t: int| 0 <= t < cur.len() implies cs.contains(#[trigger] cur[t]) by {
            if t < prev.len() {
                assert(cur[t] == prev[t]);
                assert(cs.drop_last().contains(prev[t]));
                let u = choose|u: int|
                    0 <= u < cs.drop_last().len() && cs.drop_last()[u] == prev[t];
                assert(cs[u] == cur[t]);
            } else {
                assert(cur[t] == cs.last());
            }
        }
    }
}

/// Every index in the ambiguity report is in range: the reported REL
/// functions lie in the REL population, and every listed candidate lies in
/// the SDK population.
pub proof fn lemma_ambiguity_report_in_range(sdk: Seq<AsmFunction>, rel: Seq<AsmFunction>, n: int)
    requires
        sdk.len() <= usize::MAX,
        0 <= n <= rel.len(),
        rel.len() <= usize::MAX,
    ensures
        forall|t: int|
            0 <= t < ambiguous_upto(sdk, rel, n).len() ==> (#[trigger] ambiguous_upto(
                sdk,
                rel,
                n,
            )[t]).0 < rel.len() && (forall|u: int|
                0 <= u < ambiguous_upto(sdk, rel, n)[t].1.len() ==> #[trigger] ambiguous_upto(
                    sdk,
                    rel,
                    n,
                )[t].1[u] < sdk.len()),
    decreases n,
{
    if n > 0 {
        lemma_ambiguity_report_in_range(sdk, rel, n - 1);
        let prev = ambiguous_upto(sdk, rel, n - 1);
        let cur = ambiguous_upto(sdk, rel, n);
        let rel_func = rel[n - 1];
        let cs = candidates(sdk, rel_func);
        lemma_candidates_characterized(sdk, rel_func);
        lemma_strong_filter_subset(sdk, rel_func, cs);
        assert forall|t: int| 0 <= t < cur.len() implies (#[trigger] cur[t]).0 < rel.len() && (
        forall|u: int| 0 <= u < cur[t].1.len() ==> #[trigger] cur[t].1[u] < sdk.len()) by {
            if t < prev.len() {
                assert(cur[t] == prev[t]);
            } else {
                let strong = strong_filter(sdk, rel_func, cs);
                assert(cur[t].1 == strong);
                assert forall|u: int| 0 <= u < strong.len() implies #[trigger] strong[u]
                    < sdk.len() by {
                    assert(cs.contains(strong[u]));
                    let w = choose|w: int| 0 <= w < cs.len() && cs[w] == strong[u];
                    assert(is_candidate(sdk, rel_func, cs[w] as int));
                }
            }
        }
    }
}

/// The ambiguity filter: a REL function of 5 instruction words or fewer is
/// never listed in the ambiguity report, however many equally scored
/// candidates it has.
pub proof fn lemma_short_rel_never_reported(sdk: Seq<AsmFunction>, rel: Seq<AsmFunction>, n: int)
    requires
        0 <= n <= rel.len(),
        rel.len() <= usize::MAX,
    ensures
        forall|t: int|
            0 <= t < ambiguous_upto(sdk, rel, n).len() ==> rel[(#[trigger] ambiguous_upto(
                sdk,
                rel,
                n,
            )[t]).0 as int].code@.len() > 5,
    decreases n,
{
    if n > 0 {
        lemma_short_rel_never_reported(sdk, rel, n - 1);
        let prev = ambiguous_upto(sdk, rel, n - 1);
        let cur = ambiguous_upto(sdk, rel, n);
        assert forall|t: int| 0 <= t < cur.len() implies rel[(#[trigger] cur[t]).0 as int].code@.len()
            > 5 by {
            if t < prev.len() {
                assert(cur[t] == prev[t]);
            }
        }
    }
}

/// The confident pairings are sorted by the SDK function's (namespace, name).
pub proof fn lemma_confident_pairs_sorted(sdk: Seq<AsmFunction>, rel: Seq<AsmFunction>)
    ensures
        pairs_sorted(sdk, confident_pairs(sdk, rel)),
{
    lemma_sort_pairs_sorted(sdk, confident_upto(sdk, rel, rel.len() as int));
}

} // verus!
