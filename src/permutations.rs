//! Ordered selections of distinct entries: the completions of a line's empty
//! cells draw their digits this way from the free digits.

use itertools::Itertools;
use vstd::prelude::*;

verus! {

/// The k-permutations of `s`: each sequence of `k` entries of `s` taken at
/// distinct positions, listed in lexicographic order of those positions.
pub open spec fn perms(s: Seq<u8>, k: nat) -> Seq<Seq<u8>>
    decreases k, s.len() + 1,
{
    if k == 0 {
        seq![Seq::empty()]
    } else {
        perms_from(s, k, 0)
    }
}

/// The k-permutations of `s` whose first entry stands at position `i` or later.
pub open spec fn perms_from(s: Seq<u8>, k: nat, i: nat) -> Seq<Seq<u8>>
    decreases k, s.len() - i,
{
    if k == 0 || i >= s.len() {
        Seq::empty()
    } else {
        perms(s.remove(i as int), (k - 1) as nat).map_values(|p: Seq<u8>| seq![s[i as int]] + p)
            + perms_from(s, k, i + 1)
    }
}

/// The number of ordered selections of `k` out of `n` distinct things.
pub open spec fn falling(n: nat, k: nat) -> nat
    decreases k,
{
    if k == 0 {
        1
    } else if n == 0 {
        0
    } else {
        n * falling((n - 1) as nat, (k - 1) as nat)
    }
}

/// Relies on itertools::Itertools::permutations: it yields the k-permutations
/// of the positions of its input in lexicographic order (a single empty `Vec`
/// for `k == 0`, none for `k` above the input's length).
#[verifier::external_body]
pub(crate) fn k_permutations(pool: &Vec<u8>, k: usize) -> (r: Vec<Vec<u8>>)
    ensures
        r@.len() == perms(pool@, k as nat).len(),
        forall|j: int| 0 <= j < r@.len() ==> #[trigger] r@[j]@ == perms(pool@, k as nat)[j],
{
    pool.iter().copied().permutations(k).collect()
}

/// There are `falling(n, k)` k-permutations of `n` entries.
pub proof fn lemma_perms_len(s: Seq<u8>, k: nat)
    ensures
        perms(s, k).len() == falling(s.len(), k),
    decreases k, s.len() + 1,
{
    if k > 0 {
        lemma_perms_from_len(s, k, 0);
    }
}

proof fn lemma_perms_from_len(s: Seq<u8>, k: nat, i: nat)
    requires
        k > 0,
        i <= s.len(),
    ensures
        perms_from(s, k, i).len() == (s.len() - i) * falling((s.len() - 1) as nat, (k - 1) as nat),
    decreases k, s.len() - i,
{
    if i < s.len() {
        let t = s.remove(i as int);
        lemma_perms_len(t, (k - 1) as nat);
        lemma_perms_from_len(s, k, i + 1);
        let head = perms(t, (k - 1) as nat).map_values(|p: Seq<u8>| seq![s[i as int]] + p);
        assert(head.len() == falling((s.len() - 1) as nat, (k - 1) as nat));
        assert(perms_from(s, k, i) == head + perms_from(s, k, i + 1));
        assert((s.len() - i) * falling((s.len() - 1) as nat, (k - 1) as nat)
            == falling((s.len() - 1) as nat, (k - 1) as nat)
                + (s.len() - (i + 1)) * falling((s.len() - 1) as nat, (k - 1) as nat))
            by (nonlinear_arith);
    } else {
        assert((s.len() - i) * falling((s.len() - 1) as nat, (k - 1) as nat) == 0)
            by (nonlinear_arith)
            requires
                s.len() - i == 0,
        ;
    }
}

/// Each k-permutation of `s` has length `k` and holds only entries of `s`.
pub proof fn lemma_perms_entries(s: Seq<u8>, k: nat, j: int)
    requires
        0 <= j < perms(s, k).len(),
    ensures
        perms(s, k)[j].len() == k,
        forall|m: int| 0 <= m < k ==> s.contains(#[trigger] perms(s, k)[j][m]),
    decreases k, s.len() + 1,
{
    if k > 0 {
        lemma_perms_from_entries(s, k, 0, j);
    }
}

proof fn lemma_perms_from_entries(s: Seq<u8>, k: nat, i: nat, j: int)
    requires
        k > 0,
        0 <= j < perms_from(s, k, i).len(),
    ensures
        perms_from(s, k, i)[j].len() == k,
        forall|m: int| 0 <= m < k ==> s.contains(#[trigger] perms_from(s, k, i)[j][m]),
    decreases k, s.len() - i,
{
    let t = s.remove(i as int);
    let head = perms(t, (k - 1) as nat).map_values(|p: Seq<u8>| seq![s[i as int]] + p);
    if j < head.len() {
        lemma_perms_entries(t, (k - 1) as nat, j);
        let p = perms(t, (k - 1) as nat)[j];
        assert(perms_from(s, k, i)[j] == seq![s[i as int]] + p);
        assert forall|m: int| 0 <= m < k implies s.contains(#[trigger] perms_from(s, k, i)[j][m]) by {
            if m == 0 {
                assert(s[i as int] == perms_from(s, k, i)[j][m]);
            } else {
                assert(t.contains(p[m - 1]));
                let w = choose|w: int| 0 <= w < t.len() && t[w] == p[m - 1];
                if w < i {
                    assert(s[w] == t[w]);
                } else {
                    assert(s[w + 1] == t[w]);
                }
            }
        }
    } else {
        lemma_perms_from_entries(s, k, i + 1, j - head.len());
    }
}

} // verus!
