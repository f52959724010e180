//! The routing table that the routers share: buckets of connected identifiers, the peer list and
//! the identifier list.

use vstd::prelude::*;

use crate::assoc::{key_index, keys_unique, lemma_key_index};
use crate::id::{log2_distance_spec, Id};
use crate::outside::choose_id;

verus! {

/// The number of buckets: one per bit of an identifier.
pub const NUM_BUCKETS: usize = 256;

/// The core routing table data structure.
#[derive(Debug, Clone)]
pub(crate) struct RoutingTable<T, U> {
    /// The node's local identifier.
    pub(crate) local_id: Id,
    /// The maximum number of identifiers that can be contained in a bucket.
    pub(crate) max_bucket_size: u8,
    /// The number of addresses to share when responding to a FIND_K_NODES query.
    pub(crate) k: u8,
    /// Bucket `i` holds the connected identifiers at log2 distance `i` from the local identifier;
    /// `None` where no bucket has been made yet.
    pub(crate) buckets: Vec<Option<Vec<Id>>>,
    /// Identifiers and their peer meta data (connected and disconnected).
    pub(crate) peer_list: Vec<(Id, U)>,
    /// Connection identifiers and the peer identifiers they belong to.
    pub(crate) id_list: Vec<(T, Id)>,
}

/// Bucket `i` of a list of buckets, as a set; empty where there is no bucket.
pub open spec fn bucket_of(buckets: Seq<Option<Vec<Id>>>, i: int) -> Set<Id> {
    if 0 <= i < buckets.len() {
        match buckets[i] {
            Some(b) => b@.to_set(),
            None => Set::empty(),
        }
    } else {
        Set::empty()
    }
}

/// The buckets that exist, as a map from bucket index to the set of identifiers in it.
pub open spec fn bucket_map(buckets: Seq<Option<Vec<Id>>>) -> Map<u32, Set<Id>> {
    Map::new(
        |i: u32| i < buckets.len() && buckets[i as int] is Some,
        |i: u32| bucket_of(buckets, i as int),
    )
}

impl<T, U> RoutingTable<T, U> {
    /// Bucket `i`, if it exists, is well formed: no identifier occurs twice, it holds at most
    /// `max_bucket_size` identifiers, each at log2 distance `i` and each in the peer list.
    pub(crate) open spec fn bucket_wf(&self, i: int) -> bool {
        match self.buckets@[i] {
            Some(b) => {
                &&& b@.no_duplicates()
                &&& b@.len() <= self.max_bucket_size
                &&& forall|j: int|
                    0 <= j < b@.len() ==> log2_distance_spec(self.local_id, #[trigger] b@[j])
                        == Some(i as u32) && key_index(self.peer_list@, b@[j]) >= 0
            },
            None => true,
        }
    }

    /// The invariant shared by all routers.
    pub(crate) open spec fn base_wf(&self) -> bool {
        &&& self.buckets@.len() == NUM_BUCKETS
        &&& forall|i: int| 0 <= i < NUM_BUCKETS ==> #[trigger] self.bucket_wf(i)
        &&& keys_unique(self.peer_list@)
        &&& keys_unique(self.id_list@)
        &&& forall|j: int| 0 <= j < self.id_list@.len() ==> #[trigger] self.id_list@[j].1 != self.local_id
    }

    pub(crate) open spec fn buckets_view(&self) -> Map<u32, Set<Id>> {
        bucket_map(self.buckets@)
    }

    pub(crate) open spec fn bucket(&self, i: u32) -> Set<Id> {
        bucket_of(self.buckets@, i as int)
    }

    /// Creates an empty routing table.
    pub(crate) fn new(local_id: Id, max_bucket_size: u8, k: u8) -> (rt: Self)
        ensures
            rt.base_wf(),
            rt.local_id == local_id,
            rt.max_bucket_size == max_bucket_size,
            rt.k == k,
            rt.buckets_view() == Map::<u32, Set<Id>>::empty(),
            rt.peer_list@ == Seq::<(Id, U)>::empty(),
            rt.id_list@ == Seq::<(T, Id)>::empty(),
    {
        let mut buckets: Vec<Option<Vec<Id>>> = Vec::new();
        while buckets.len() < NUM_BUCKETS
            invariant
                buckets@.len() <= NUM_BUCKETS,
                forall|i: int| 0 <= i < buckets@.len() ==> buckets@[i] is None,
            decreases NUM_BUCKETS - buckets@.len(),
        {
            buckets.push(None);
        }
        let rt = RoutingTable {
            local_id,
            max_bucket_size,
            k,
            buckets,
            peer_list: Vec::new(),
            id_list: Vec::new(),
        };
        assert(rt.buckets_view() =~= Map::<u32, Set<Id>>::empty());
        rt
    }

    /// Returns the index of the peer list entry for `id`, if there is one.
    pub(crate) fn find_peer(&self, id: &Id) -> (found: Option<usize>)
        ensures
            match found {
                Some(i) => i == key_index(self.peer_list@, *id),
                None => key_index(self.peer_list@, *id) == -1,
            },
    {
        broadcast use lemma_key_index;

        let mut i = self.peer_list.len();
        while i > 0
            invariant
                i <= self.peer_list@.len(),
                forall|j: int| i <= j < self.peer_list@.len() ==> self.peer_list@[j].0 != *id,
            decreases i,
        {
            i = i - 1;
            if self.peer_list[i].0 == *id {
                proof {
                    crate::assoc::lemma_key_index_at(self.peer_list@, *id, i as int);
                }
                return Some(i);
            }
        }
        None
    }

    /// Returns whether there is space in the bucket of `id`, and the bucket's index if there is;
    /// makes the bucket if it does not exist yet.
    pub(crate) fn can_connect(&mut self, id: Id) -> (res: (bool, Option<u32>))
        requires
            old(self).base_wf(),
        ensures
            final(self).base_wf(),
            final(self).local_id == old(self).local_id,
            final(self).max_bucket_size == old(self).max_bucket_size,
            final(self).k == old(self).k,
            final(self).peer_list@ == old(self).peer_list@,
            final(self).id_list@ == old(self).id_list@,
            match log2_distance_spec(old(self).local_id, id) {
                None => final(self).buckets_view() == old(self).buckets_view() && res == (
                false, None::<u32>),
                Some(i) => {
                    &&& final(self).buckets_view() == old(self).buckets_view().insert(
                        i,
                        old(self).bucket(i),
                    )
                    &&& res == if old(self).bucket(i).len() < old(self).max_bucket_size {
                        (true, Some(i))
                    } else {
                        (false, None)
                    }
                },
            },
    {
        let i = match self.local_id.log2_distance(&id) {
            Some(i) => i,
            None => return (false, None),
        };
        proof {
            lemma_log2_distance_bound(self.local_id, id);
        }
        let idx = i as usize;
        if self.buckets[idx].is_none() {
            let ghost before = self.buckets@;
            self.buckets.set(idx, Some(Vec::new()));
            proof {
                assert(self.bucket_wf(idx as int));
                assert forall|j: int| 0 <= j < NUM_BUCKETS implies #[trigger] self.bucket_wf(j) by {
                    if j != idx {
                        assert(self.buckets@[j] == before[j]);
                        assert(old(self).bucket_wf(j));
                    }
                }
                assert(bucket_of(before, idx as int) =~= Set::<Id>::empty());
                assert(Seq::<Id>::empty().to_set() =~= Set::<Id>::empty());
                assert(bucket_of(self.buckets@, idx as int) =~= Set::<Id>::empty());
                assert forall|m: int| m != idx implies bucket_of(self.buckets@, m) == bucket_of(
                    before,
                    m,
                ) by {
                    if 0 <= m < NUM_BUCKETS {
                        assert(self.buckets@[m] == before[m]);
                    }
                }
                assert(self.buckets_view() =~= bucket_map(before).insert(
                    i,
                    bucket_of(before, idx as int),
                ));
            }
        } else {
            proof {
                assert(self.buckets_view() =~= self.buckets_view().insert(i, self.bucket(i)));
            }
        }
        let len = match &self.buckets[idx] {
            Some(b) => b.len(),
            None => 0,
        };
        proof {
            assert(self.bucket_wf(idx as int));
            let b = self.buckets@[idx as int]->Some_0;
            b@.unique_seq_to_set();
        }
        if len < self.max_bucket_size as usize {
            (true, Some(i))
        } else {
            (false, None)
        }
    }

    /// Adds `id` to the existing bucket `i`.
    pub(crate) fn bucket_insert(&mut self, i: u32, id: Id)
        requires
            old(self).base_wf(),
            old(self).buckets_view().contains_key(i),
            log2_distance_spec(old(self).local_id, id) == Some(i),
            old(self).bucket(i).len() < old(self).max_bucket_size,
            key_index(old(self).peer_list@, id) >= 0,
        ensures
            final(self).base_wf(),
            final(self).local_id == old(self).local_id,
            final(self).max_bucket_size == old(self).max_bucket_size,
            final(self).k == old(self).k,
            final(self).peer_list@ == old(self).peer_list@,
            final(self).id_list@ == old(self).id_list@,
            final(self).buckets_view() == old(self).buckets_view().insert(
                i,
                old(self).bucket(i).insert(id),
            ),
    {
        proof {
            lemma_log2_distance_bound(self.local_id, id);
        }
        let idx = i as usize;
        let ghost before = self.buckets@;
        let mut b = match self.buckets[idx].take() {
            Some(b) => b,
            None => Vec::new(),
        };
        proof {
            assert(self.buckets@ == before.update(idx as int, None));
            assert(before[idx as int] == Some(b));
            assert(old(self).bucket_wf(idx as int));
            b@.unique_seq_to_set();
        }
        let mut present = false;
        let mut j: usize = 0;
        while j < b.len()
            invariant
                j <= b@.len(),
                present <==> exists|m: int| 0 <= m < j && b@[m] == id,
            decreases b@.len() - j,
        {
            if b[j] == id {
                present = true;
            }
            j = j + 1;
        }
        let ghost b_old = b@;
        if !present {
            b.push(id);
            proof {
                b_old.lemma_push_to_set_commute(id);
                assert(b@.to_set() =~= b_old.to_set().insert(id));
                assert forall|x: int, y: int| 0 <= x < b@.len() && 0 <= y < b@.len() && x != y
                    implies b@[x] != b@[y] by {
                    if y == b_old.len() {
                        assert(b_old[x] == b@[x]);
                    }
                    if x == b_old.len() {
                        assert(b_old[y] == b@[y]);
                    }
                }
            }
        } else {
            proof {
                let m = choose|m: int| 0 <= m < j && b@[m] == id;
                assert(b@[m] == id);
                assert(b@.contains(id));
                assert(b@.to_set().contains(id));
                assert forall|x: Id| #[trigger] b_old.to_set().insert(id).contains(x)
                    == b@.to_set().contains(x) by {
                    if x == id {
                        assert(b_old.to_set().insert(id).contains(x));
                    }
                }
                assert(b@.to_set() =~= b_old.to_set().insert(id));
            }
        }
        self.buckets.set(idx, Some(b));
        proof {
            assert forall|m: int| 0 <= m < NUM_BUCKETS implies #[trigger] self.bucket_wf(m) by {
                if m != idx {
                    assert(self.buckets@[m] == before[m]);
                    assert(old(self).bucket_wf(m));
                } else {
                    b_old.unique_seq_to_set();
                    assert(old(self).bucket_wf(m));
                    assert forall|x: int| 0 <= x < b@.len() implies log2_distance_spec(
                        self.local_id,
                        #[trigger] b@[x],
                    ) == Some(m as u32) && key_index(self.peer_list@, b@[x]) >= 0 by {
                        if x < b_old.len() {
                            assert(b_old[x] == b@[x]);
                        }
                    }
                }
            }
            assert(self.buckets_view() =~= bucket_map(before).insert(
                i,
                bucket_of(before, idx as int).insert(id),
            ));
        }
    }

    /// Removes `id` from the existing bucket `i`, returning whether it was there.
    pub(crate) fn bucket_remove(&mut self, i: u32, id: Id) -> (removed: bool)
        requires
            old(self).base_wf(),
            old(self).buckets_view().contains_key(i),
        ensures
            final(self).base_wf(),
            final(self).local_id == old(self).local_id,
            final(self).max_bucket_size == old(self).max_bucket_size,
            final(self).k == old(self).k,
            final(self).peer_list@ == old(self).peer_list@,
            final(self).id_list@ == old(self).id_list@,
            removed == old(self).bucket(i).contains(id),
            final(self).buckets_view() == old(self).buckets_view().insert(
                i,
                old(self).bucket(i).remove(id),
            ),
    {
        let idx = i as usize;
        let ghost before = self.buckets@;
        let mut b = match self.buckets[idx].take() {
            Some(b) => b,
            None => Vec::new(),
        };
        proof {
            assert(before[idx as int] == Some(b));
            assert(old(self).bucket_wf(idx as int));
        }
        let ghost b_old = b@;
        let mut j: usize = 0;
        let mut found: Option<usize> = None;
        while j < b.len()
            invariant
                j <= b@.len(),
                b@ == b_old,
                match found {
                    Some(m) => m < b@.len() && b@[m as int] == id,
                    None => forall|m: int| 0 <= m < j ==> b@[m] != id,
                },
            decreases b@.len() - j,
        {
            if b[j] == id {
                found = Some(j);
            }
            j = j + 1;
        }
        let removed = match found {
            Some(m) => {
                b.remove(m);
                proof {
                    assert forall|x: Id| b@.to_set().contains(x) == b_old.to_set().remove(
                        id,
                    ).contains(x) by {
                        if b@.contains(x) {
                            let p = choose|p: int| 0 <= p < b@.len() && b@[p] == x;
                            if p < m {
                                assert(b_old[p] == x);
                            } else {
                                assert(b_old[p + 1] == x);
                            }
                        }
                        if b_old.contains(x) && x != id {
                            let p = choose|p: int| 0 <= p < b_old.len() && b_old[p] == x;
                            assert(p != m);
                            if p < m {
                                assert(b@[p] == x);
                            } else {
                                assert(b@[p - 1] == x);
                            }
                        }
                    }
                    assert(b@.to_set() =~= b_old.to_set().remove(id));
                    assert(b_old.to_set().contains(id));
                }
                true
            },
            None => {
                proof {
                    assert(b@.to_set() =~= b_old.to_set().remove(id));
                }
                false
            },
        };
        self.buckets.set(idx, Some(b));
        proof {
            assert forall|m: int| 0 <= m < NUM_BUCKETS implies #[trigger] self.bucket_wf(m) by {
                assert(old(self).bucket_wf(m));
                if m != idx {
                    assert(self.buckets@[m] == before[m]);
                } else {
                    assert forall|x: int, y: int|
                        0 <= x < b@.len() && 0 <= y < b@.len() && x != y implies b@[x] != b@[y] by {
                        if let Some(r) = found {
                            let x2 = if x < r { x } else { x + 1 };
                            let y2 = if y < r { y } else { y + 1 };
                            assert(b@[x] == b_old[x2]);
                            assert(b@[y] == b_old[y2]);
                        }
                    }
                    assert forall|x: int| 0 <= x < b@.len() implies log2_distance_spec(
                        self.local_id,
                        #[trigger] b@[x],
                    ) == Some(m as u32) && key_index(self.peer_list@, b@[x]) >= 0 by {
                        if let Some(r) = found {
                            let x2 = if x < r { x } else { x + 1 };
                            assert(b@[x] == b_old[x2]);
                        }
                    }
                }
            }
            assert(self.buckets_view() =~= bucket_map(before).insert(
                i,
                bucket_of(before, idx as int).remove(id),
            ));
        }
        removed
    }

    /// Picks one identifier of bucket `h` at random; `None` when there is no such bucket or it is
    /// empty.
    pub(crate) fn bucket_choose(&self, h: u32) -> (chosen: Option<Id>)
        requires
            self.base_wf(),
        ensures
            chosen is None <==> self.bucket(h).is_empty(),
            chosen matches Some(id) ==> self.bucket(h).contains(id),
    {
        if (h as usize) < self.buckets.len() {
            match &self.buckets[h as usize] {
                Some(b) => {
                    let chosen = choose_id(b);
                    proof {
                        if b@.len() > 0 {
                            assert(b@.to_set().contains(b@[0]));
                        } else {
                            assert(b@.to_set() =~= Set::<Id>::empty());
                        }
                    }
                    chosen
                },
                None => None,
            }
        } else {
            None
        }
    }
}

impl<T, U> RoutingTable<T, U> {
    /// Bucket `i` read through the map of existing buckets.
    pub(crate) proof fn lemma_bucket_view(&self)
        requires
            self.buckets@.len() == NUM_BUCKETS,
        ensures
            forall|i: u32| #[trigger]
                self.bucket(i) == if self.buckets_view().contains_key(i) {
                    self.buckets_view()[i]
                } else {
                    Set::empty()
                },
            forall|i: u32| #[trigger] self.buckets_view().contains_key(i) ==> i < NUM_BUCKETS,
    {
    }

    /// A bucket holds the identifiers of its vector.
    pub(crate) proof fn lemma_bucket_members(&self, i: int)
        requires
            self.base_wf(),
            0 <= i < NUM_BUCKETS,
        ensures
            forall|id: Id| #[trigger]
                self.bucket(i as u32).contains(id) ==> log2_distance_spec(self.local_id, id) == Some(
                    i as u32,
                ) && key_index(self.peer_list@, id) >= 0,
            self.bucket(i as u32).finite(),
            self.bucket(i as u32).len() <= self.max_bucket_size,
    {
        assert(self.bucket_wf(i));
        match self.buckets@[i] {
            Some(b) => {
                assert forall|id: Id| #[trigger] self.bucket(i as u32).contains(id) implies
                    log2_distance_spec(self.local_id, id) == Some(i as u32) && key_index(
                    self.peer_list@,
                    id,
                ) >= 0 by {
                    let j = choose|j: int| 0 <= j < b@.len() && b@[j] == id;
                }
                b@.unique_seq_to_set();
            },
            None => {},
        }
    }
}

/// Changing the meta data of one peer keeps the shared invariant and every key's index.
pub(crate) proof fn lemma_base_wf_peer_update<T, U>(
    a: RoutingTable<T, U>,
    b: RoutingTable<T, U>,
    p: int,
    m: U,
)
    requires
        a.base_wf(),
        0 <= p < a.peer_list@.len(),
        b.peer_list@ == a.peer_list@.update(p, (a.peer_list@[p].0, m)),
        b.buckets@ == a.buckets@,
        b.id_list@ == a.id_list@,
        b.local_id == a.local_id,
        b.max_bucket_size == a.max_bucket_size,
    ensures
        b.base_wf(),
        forall|k: Id| key_index(b.peer_list@, k) == key_index(a.peer_list@, k),
{
    crate::assoc::lemma_assoc_update(a.peer_list@, p, m);
    assert forall|i: int| 0 <= i < NUM_BUCKETS implies #[trigger] b.bucket_wf(i) by {
        assert(a.bucket_wf(i));
    }
}

/// Adding a peer under a new identifier keeps the shared invariant and the index of every other
/// key.
pub(crate) proof fn lemma_base_wf_peer_push<T, U>(
    a: RoutingTable<T, U>,
    b: RoutingTable<T, U>,
    id: Id,
    m: U,
)
    requires
        a.base_wf(),
        key_index(a.peer_list@, id) == -1,
        b.peer_list@ == a.peer_list@.push((id, m)),
        b.buckets@ == a.buckets@,
        b.id_list@ == a.id_list@,
        b.local_id == a.local_id,
        b.max_bucket_size == a.max_bucket_size,
    ensures
        b.base_wf(),
        key_index(b.peer_list@, id) == a.peer_list@.len(),
        forall|k: Id| k != id ==> key_index(b.peer_list@, k) == key_index(a.peer_list@, k),
{
    crate::assoc::lemma_assoc_push(a.peer_list@, id, m);
    assert forall|i: int| 0 <= i < NUM_BUCKETS implies #[trigger] b.bucket_wf(i) by {
        assert(a.bucket_wf(i));
        match a.buckets@[i] {
            Some(bk) => {
                assert forall|j: int| 0 <= j < bk@.len() implies key_index(
                    b.peer_list@,
                    #[trigger] bk@[j],
                ) >= 0 by {
                    if bk@[j] == id {
                        assert(key_index(a.peer_list@, bk@[j]) >= 0);
                    }
                }
            },
            None => {},
        }
    }
}

/// Changing the identifier list, keeping its keys unique and the local identifier out of its
/// values, keeps the shared invariant.
pub(crate) proof fn lemma_base_wf_ids<T, U>(a: RoutingTable<T, U>, b: RoutingTable<T, U>)
    requires
        a.base_wf(),
        keys_unique(b.id_list@),
        forall|j: int| 0 <= j < b.id_list@.len() ==> #[trigger] b.id_list@[j].1 != b.local_id,
        b.peer_list@ == a.peer_list@,
        b.buckets@ == a.buckets@,
        b.local_id == a.local_id,
        b.max_bucket_size == a.max_bucket_size,
    ensures
        b.base_wf(),
{
    assert forall|i: int| 0 <= i < NUM_BUCKETS implies #[trigger] b.bucket_wf(i) by {
        assert(a.bucket_wf(i));
    }
}

/// A log2 distance is the index of one of the 256 bits.
pub proof fn lemma_log2_distance_bound(a: Id, b: Id)
    ensures
        log2_distance_spec(a, b) matches Some(i) ==> i < 256,
{
    lemma_highest_bit_bound(a@, b@, 256);
}

proof fn lemma_highest_bit_bound(a: Seq<u8>, b: Seq<u8>, n: nat)
    ensures
        crate::id::highest_differing_bit(a, b, n) matches Some(i) ==> i < n,
    decreases n,
{
    if n > 0 {
        lemma_highest_bit_bound(a, b, (n - 1) as nat);
    }
}

} // verus!
