//! Selecting the candidates closest to a target identifier.

use vstd::prelude::*;

verus! {

/// The rank of a log2 distance: `None` (the candidate is the target itself) comes before every
/// distance, and distances are ordered as numbers.
pub open spec fn dist_rank(d: Option<u32>) -> int {
    match d {
        None => -1,
        Some(d) => d as int,
    }
}

/// `result` is made of `k` candidates (all of them if there are fewer), taken at the distinct
/// indices `picked`, in order of increasing distance, and no candidate left out is closer than
/// one taken.
pub open spec fn selects_closest<E>(
    cands: Seq<E>,
    dists: Seq<Option<u32>>,
    k: nat,
    result: Seq<E>,
    picked: Seq<int>,
) -> bool {
    &&& result.len() == if k < cands.len() { k } else { cands.len() }
    &&& picked.len() == result.len()
    &&& picked.no_duplicates()
    &&& forall|a: int|
        0 <= a < picked.len() ==> 0 <= #[trigger] picked[a] < cands.len() && result[a]
            == cands[picked[a]]
    &&& forall|a: int, b: int|
        0 <= a < b < picked.len() ==> dist_rank(dists[#[trigger] picked[a]]) <= dist_rank(
            dists[#[trigger] picked[b]],
        )
    &&& forall|j: int, a: int|
        0 <= j < cands.len() && !picked.contains(j) && 0 <= a < picked.len() ==> dist_rank(
            dists[#[trigger] picked[a]],
        ) <= dist_rank(#[trigger] dists[j])
}

/// `result` holds the `k` closest candidates, as `selects_closest` describes.
pub open spec fn is_closest_selection<E>(
    cands: Seq<E>,
    dists: Seq<Option<u32>>,
    k: nat,
    result: Seq<E>,
) -> bool {
    exists|picked: Seq<int>| selects_closest(cands, dists, k, result, picked)
}

/// Returns whether distance `a` ranks before distance `b`.
pub fn rank_lt(a: Option<u32>, b: Option<u32>) -> (lt: bool)
    ensures
        lt == (dist_rank(a) < dist_rank(b)),
{
    match (a, b) {
        (None, None) => false,
        (None, Some(_)) => true,
        (Some(_), None) => false,
        (Some(x), Some(y)) => x < y,
    }
}

/// Returns the `k` candidates closest to a target (all of them if there are fewer), in order of
/// increasing distance; `dists[j]` is the distance of `cands[j]` to the target.
pub fn select_closest<E: Copy>(cands: &Vec<E>, dists: &Vec<Option<u32>>, k: usize) -> (result:
    Vec<E>)
    requires
        dists@.len() == cands@.len(),
    ensures
        is_closest_selection(cands@, dists@, k as nat, result@),
{
    let n = cands.len();
    let want = if k < n {
        k
    } else {
        n
    };
    let mut taken: Vec<bool> = Vec::new();
    while taken.len() < n
        invariant
            taken@.len() <= n,
            forall|j: int| 0 <= j < taken@.len() ==> !taken@[j],
        decreases n - taken@.len(),
    {
        taken.push(false);
    }
    let mut result: Vec<E> = Vec::new();
    let ghost mut picked: Seq<int> = Seq::empty();
    while result.len() < want
        invariant
            n == cands@.len(),
            dists@.len() == n,
            want <= n,
            want == if k < n { k } else { n },
            taken@.len() == n,
            result@.len() <= want,
            picked.len() == result@.len(),
            picked.no_duplicates(),
            forall|a: int|
                0 <= a < picked.len() ==> 0 <= #[trigger] picked[a] < n && result@[a]
                    == cands@[picked[a]] && taken@[picked[a]],
            forall|j: int| 0 <= j < n && #[trigger] taken@[j] ==> picked.contains(j),
            forall|a: int, b: int|
                0 <= a < b < picked.len() ==> dist_rank(dists@[#[trigger] picked[a]]) <= dist_rank(
                    dists@[#[trigger] picked[b]],
                ),
            forall|j: int, a: int|
                0 <= j < n && !taken@[j] && 0 <= a < picked.len() ==> dist_rank(
                    dists@[#[trigger] picked[a]],
                ) <= dist_rank(#[trigger] dists@[j]),
        decreases want - result@.len(),
    {
        // Fewer candidates are taken than there are, so one is left.
        proof {
            assert(exists|j: int| 0 <= j < n && !taken@[j]) by {
                if forall|j: int| 0 <= j < n ==> taken@[j] {
                    assert forall|j: int| 0 <= j < n implies picked.contains(j) by {
                        assert(taken@[j]);
                    }
                    lemma_covering_seq_is_long(picked, n as int);
                }
            }
        }
        let mut best: usize = 0;
        let mut found = false;
        let mut j: usize = 0;
        while j < n
            invariant
                n == cands@.len(),
                dists@.len() == n,
                taken@.len() == n,
                j <= n,
                found ==> best < j && !taken@[best as int],
                found ==> forall|m: int|
                    0 <= m < j && !taken@[m] ==> dist_rank(dists@[best as int]) <= dist_rank(
                        dists@[m],
                    ),
                !found ==> forall|m: int| 0 <= m < j ==> taken@[m],
            decreases n - j,
        {
            if !taken[j] {
                if !found || rank_lt(dists[j], dists[best]) {
                    best = j;
                    found = true;
                }
            }
            j = j + 1;
        }
        let ghost old_taken = taken@;
        taken.set(best, true);
        result.push(cands[best]);
        proof {
            let old_picked = picked;
            picked = picked.push(best as int);
            assert forall|x: int, y: int|
                0 <= x < picked.len() && 0 <= y < picked.len() && x != y implies picked[x]
                != picked[y] by {
                if x == old_picked.len() {
                    assert(old_taken[picked[y]]);
                }
                if y == old_picked.len() {
                    assert(old_taken[picked[x]]);
                }
            }
            assert forall|a: int| 0 <= a < picked.len() implies 0 <= #[trigger] picked[a] < n
                && result@[a] == cands@[picked[a]] && taken@[picked[a]] by {
                if a < old_picked.len() {
                    assert(picked[a] == old_picked[a]);
                }
            }
            assert forall|m: int| 0 <= m < n && #[trigger] taken@[m] implies picked.contains(m) by {
                if m == best {
                    assert(picked[picked.len() - 1] == m);
                } else {
                    assert(old_taken[m]);
                    let a = choose|a: int| 0 <= a < old_picked.len() && old_picked[a] == m;
                    assert(picked[a] == m);
                }
            }
            assert forall|a: int, b: int| 0 <= a < b < picked.len() implies dist_rank(
                dists@[#[trigger] picked[a]],
            ) <= dist_rank(dists@[#[trigger] picked[b]]) by {
                assert(picked[a] == old_picked[a]);
                if b < old_picked.len() {
                    assert(picked[b] == old_picked[b]);
                } else {
                    assert(!old_taken[best as int]);
                }
            }
            assert forall|m: int, a: int|
                0 <= m < n && !taken@[m] && 0 <= a < picked.len() implies dist_rank(
                dists@[#[trigger] picked[a]],
            ) <= dist_rank(#[trigger] dists@[m]) by {
                assert(!old_taken[m]);
                if a < old_picked.len() {
                    assert(picked[a] == old_picked[a]);
                }
            }
        }
    }
    proof {
        assert forall|j: int, a: int|
            0 <= j < n && !picked.contains(j) && 0 <= a < picked.len() implies dist_rank(
            dists@[#[trigger] picked[a]],
        ) <= dist_rank(#[trigger] dists@[j]) by {
            if taken@[j] {
                assert(picked.contains(j));
            }
        }
        assert(selects_closest(cands@, dists@, k as nat, result@, picked));
    }
    result
}

/// A sequence without duplicates that contains every index below `n` has at least `n` entries.
proof fn lemma_covering_seq_is_long(s: Seq<int>, n: int)
    requires
        s.no_duplicates(),
        0 <= n,
        forall|j: int| 0 <= j < n ==> s.contains(j),
    ensures
        s.len() >= n,
{
    let all = Set::new(|j: int| 0 <= j < n);
    assert(all =~= vstd::set_lib::set_int_range(0, n));
    vstd::set_lib::lemma_int_range(0, n);
    assert(all.subset_of(s.to_set()));
    vstd::set_lib::lemma_len_subset(all, s.to_set());
    s.unique_seq_to_set();
}

} // verus!
