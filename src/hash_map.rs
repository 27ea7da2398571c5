use vstd::prelude::*;
use crate::peek_queue::MsQueueWithPeak;
use std::collections::HashMap;

verus! {

broadcast use vstd::std_specs::hash::group_hash_axioms;

/// The position of the last occurrence of `key` in `keys`, or -1.
pub open spec fn key_index(keys: Seq<(u64, u32)>, key: (u64, u32)) -> int
    decreases keys.len(),
{
    if keys.len() == 0 {
        -1
    } else if keys.last() == key {
        keys.len() - 1
    } else {
        key_index(keys.drop_last(), key)
    }
}

pub proof fn lemma_key_index(keys: Seq<(u64, u32)>, key: (u64, u32))
    ensures
        -1 <= key_index(keys, key) < keys.len(),
        key_index(keys, key) >= 0 ==> keys[key_index(keys, key)] == key,
        key_index(keys, key) == -1 <==> !keys.contains(key),
    decreases keys.len(),
{
    if keys.len() > 0 {
        lemma_key_index(keys.drop_last(), key);
        if keys.last() != key && keys.contains(key) {
            let i = choose|i: int| 0 <= i < keys.len() && keys[i] == key;
            assert(keys.drop_last()[i] == key);
        }
    }
}

/// The ids among `ids` whose fingerprint (at the same position in `fps`) is `f`,
/// in their order.
pub open spec fn ids_with_fingerprint(ids: Seq<u64>, fps: Seq<u32>, f: u32) -> Seq<u64>
    decreases ids.len(),
{
    if ids.len() == 0 || fps.len() < ids.len() {
        Seq::empty()
    } else {
        let rest = ids_with_fingerprint(ids.drop_last(), fps.take(ids.len() - 1), f);
        if fps[ids.len() - 1] == f {
            rest.push(ids.last())
        } else {
            rest
        }
    }
}

/// Within one size, each entry lands in the group of its own fingerprint,
/// and a group holds only entries of that fingerprint: entries of equal
/// fingerprint are grouped together and entries of different fingerprints apart.
pub proof fn lemma_grouped_by_fingerprint(ids: Seq<u64>, fps: Seq<u32>)
    requires
        fps.len() == ids.len(),
    ensures
        forall|m: int|
            0 <= m < ids.len() ==> #[trigger] ids_with_fingerprint(ids, fps, fps[m]).contains(ids[m]),
        forall|f: u32, x: u64|
            #[trigger] ids_with_fingerprint(ids, fps, f).contains(x) ==> exists|m: int|
                0 <= m < ids.len() && ids[m] == x && fps[m] == f,
    decreases ids.len(),
{
    if ids.len() > 0 {
        let n = ids.len() - 1;
        let ids0 = ids.drop_last();
        let fps0 = fps.take(n);
        lemma_grouped_by_fingerprint(ids0, fps0);
        assert forall|m: int| 0 <= m < ids.len() implies #[trigger] ids_with_fingerprint(ids, fps, fps[m]).contains(ids[m]) by {
            let g = ids_with_fingerprint(ids, fps, fps[m]);
            if m < n {
                assert(ids0[m] == ids[m] && fps0[m] == fps[m]);
                assert(ids_with_fingerprint(ids0, fps0, fps0[m]).contains(ids0[m]));
                let rest = ids_with_fingerprint(ids0, fps0, fps[m]);
                let k = choose|k: int| 0 <= k < rest.len() && rest[k] == ids[m];
                if fps[n] == fps[m] {
                    assert(g[k] == ids[m]);
                } else {
                    assert(g[k] == ids[m]);
                }
            } else {
                assert(g.last() == ids[m]);
            }
        }
        assert forall|f: u32, x: u64| #[trigger] ids_with_fingerprint(ids, fps, f).contains(x) implies exists|m: int|
                0 <= m < ids.len() && ids[m] == x && fps[m] == f by {
            let g = ids_with_fingerprint(ids, fps, f);
            let rest = ids_with_fingerprint(ids0, fps0, f);
            if fps[n] == f && x == ids[n] {
                assert(ids[n] == x && fps[n] == f);
            } else {
                let k = choose|k: int| 0 <= k < g.len() && g[k] == x;
                if fps[n] == f {
                    assert(k < rest.len());
                }
                assert(rest[k] == x);
                assert(rest.contains(x));
                let m = choose|m: int| 0 <= m < ids0.len() && ids0[m] == x && fps0[m] == f;
                assert(ids[m] == x && fps[m] == f);
            }
        }
    }
}

/// Two distinct entries of one size lie in the same fingerprint group
/// exactly when their fingerprints are equal.
pub proof fn lemma_same_group_iff_same_fingerprint(ids: Seq<u64>, fps: Seq<u32>, m1: int, m2: int)
    requires
        fps.len() == ids.len(),
        ids.no_duplicates(),
        0 <= m1 < ids.len(),
        0 <= m2 < ids.len(),
    ensures
        ids_with_fingerprint(ids, fps, fps[m2]).contains(ids[m1]) <==> fps[m1] == fps[m2],
{
    lemma_grouped_by_fingerprint(ids, fps);
    if ids_with_fingerprint(ids, fps, fps[m2]).contains(ids[m1]) {
        let m = choose|m: int| 0 <= m < ids.len() && ids[m] == ids[m1] && fps[m] == fps[m2];
        assert(m == m1);
    }
    if fps[m1] == fps[m2] {
        assert(ids_with_fingerprint(ids, fps, fps[m1]).contains(ids[m1]));
    }
}

/// A fingerprint group of distinct entries holds each of them at most once.
pub proof fn lemma_group_no_duplicates(ids: Seq<u64>, fps: Seq<u32>, f: u32)
    requires
        fps.len() == ids.len(),
        ids.no_duplicates(),
    ensures
        ids_with_fingerprint(ids, fps, f).no_duplicates(),
    decreases ids.len(),
{
    if ids.len() > 0 {
        let n = ids.len() - 1;
        let ids0 = ids.drop_last();
        let fps0 = fps.take(n);
        assert(ids0.no_duplicates()) by {
            assert forall|a: int, b: int| 0 <= a < b < ids0.len() implies ids0[a] != ids0[b] by {
                assert(ids0[a] == ids[a] && ids0[b] == ids[b]);
            }
        }
        lemma_group_no_duplicates(ids0, fps0, f);
        lemma_grouped_by_fingerprint(ids0, fps0);
        let rest = ids_with_fingerprint(ids0, fps0, f);
        if fps[n] == f {
            let g = rest.push(ids[n]);
            assert(!rest.contains(ids[n])) by {
                if rest.contains(ids[n]) {
                    let m = choose|m: int| 0 <= m < ids0.len() && ids0[m] == ids[n] && fps0[m] == f;
                    assert(ids[m] == ids[n]);
                }
            }
            assert forall|a: int, b: int| 0 <= a < b < g.len() implies #[trigger] g[a] != #[trigger] g[b] by {
                if b == rest.len() {
                    assert(rest[a] == g[a]);
                } else {
                    assert(rest[a] == g[a] && rest[b] == g[b]);
                }
            }
        }
    }
}

/// Within one size, each of its distinct entries is fingerprinted into
/// exactly one group: the group of its own fingerprint holds it exactly once,
/// and no group of another fingerprint holds it.
pub proof fn lemma_each_entry_in_one_group(ids: Seq<u64>, fps: Seq<u32>, m: int)
    requires
        fps.len() == ids.len(),
        ids.no_duplicates(),
        0 <= m < ids.len(),
    ensures
        ids_with_fingerprint(ids, fps, fps[m]).contains(ids[m]),
        ids_with_fingerprint(ids, fps, fps[m]).no_duplicates(),
        forall|f: u32| f != fps[m] ==> !(#[trigger] ids_with_fingerprint(ids, fps, f)).contains(ids[m]),
{
    lemma_grouped_by_fingerprint(ids, fps);
    lemma_group_no_duplicates(ids, fps, fps[m]);
    assert forall|f: u32| f != fps[m] implies !(#[trigger] ids_with_fingerprint(ids, fps, f)).contains(ids[m]) by {
        if ids_with_fingerprint(ids, fps, f).contains(ids[m]) {
            let k = choose|k: int| 0 <= k < ids.len() && ids[k] == ids[m] && fps[k] == f;
            assert(k == m);
        }
    }
}

/// The ids whose fingerprint was computed (`Some` at the same position), in order.
pub open spec fn kept_ids(ids: Seq<u64>, results: Seq<Option<u32>>) -> Seq<u64>
    decreases ids.len(),
{
    if ids.len() == 0 || results.len() < ids.len() {
        Seq::empty()
    } else {
        let rest = kept_ids(ids.drop_last(), results.take(ids.len() - 1));
        match results[ids.len() - 1] {
            Some(_) => rest.push(ids.last()),
            None => rest,
        }
    }
}

/// The fingerprints that were computed, in order.
pub open spec fn kept_fingerprints(results: Seq<Option<u32>>) -> Seq<u32>
    decreases results.len(),
{
    if results.len() == 0 {
        Seq::empty()
    } else {
        let rest = kept_fingerprints(results.drop_last());
        match results.last() {
            Some(f) => rest.push(f),
            None => rest,
        }
    }
}

/// Drops from each candidate bucket the entries whose fingerprint could not be
/// computed (`None` in `results`, at the same position as the id), and gives
/// the fingerprints of those kept, ready for `build_size_by_hash_map`.
pub fn keep_fingerprinted(buckets: &Vec<(u64, Vec<u64>)>, results: &Vec<Vec<Option<u32>>>) -> (r: (
    Vec<(u64, Vec<u64>)>,
    Vec<Vec<u32>>,
))
    requires
        results@.len() == buckets@.len(),
        forall|j: int| 0 <= j < buckets@.len() ==> (#[trigger] results@[j])@.len() == buckets@[j].1@.len(),
    ensures
        r.0@.len() == buckets@.len(),
        r.1@.len() == buckets@.len(),
        forall|j: int|
            0 <= j < buckets@.len() ==> (#[trigger] r.0@[j]).0 == buckets@[j].0 && r.0@[j].1@ == kept_ids(
                buckets@[j].1@,
                results@[j]@,
            ) && r.1@[j]@ == kept_fingerprints(results@[j]@) && r.1@[j]@.len() == r.0@[j].1@.len(),
{
    let mut kept: Vec<(u64, Vec<u64>)> = Vec::new();
    let mut fps: Vec<Vec<u32>> = Vec::new();
    let mut j: usize = 0;
    while j < buckets.len()
        invariant
            j <= buckets@.len(),
            results@.len() == buckets@.len(),
            forall|jj: int| 0 <= jj < buckets@.len() ==> (#[trigger] results@[jj])@.len() == buckets@[jj].1@.len(),
            kept@.len() == j,
            fps@.len() == j,
            forall|jj: int|
                0 <= jj < j ==> (#[trigger] kept@[jj]).0 == buckets@[jj].0 && kept@[jj].1@ == kept_ids(
                    buckets@[jj].1@,
                    results@[jj]@,
                ) && fps@[jj]@ == kept_fingerprints(results@[jj]@) && fps@[jj]@.len() == kept@[jj].1@.len(),
        decreases buckets@.len() - j,
    {
        let ids = &buckets[j].1;
        let res = &results[j];
        let mut bucket_ids: Vec<u64> = Vec::new();
        let mut bucket_fps: Vec<u32> = Vec::new();
        let mut m: usize = 0;
        while m < ids.len()
            invariant
                m <= ids@.len(),
                res@.len() == ids@.len(),
                bucket_ids@ == kept_ids(ids@.take(m as int), res@.take(m as int)),
                bucket_fps@ == kept_fingerprints(res@.take(m as int)),
                bucket_fps@.len() == bucket_ids@.len(),
            decreases ids@.len() - m,
        {
            assert(ids@.take(m + 1).drop_last() =~= ids@.take(m as int));
            assert(res@.take(m + 1).take(m as int) =~= res@.take(m as int));
            assert(res@.take(m + 1).drop_last() =~= res@.take(m as int));
            match res[m] {
                Some(f) => {
                    bucket_ids.push(ids[m]);
                    bucket_fps.push(f);
                },
                None => {},
            }
            m = m + 1;
        }
        assert(ids@.take(ids@.len() as int) =~= ids@);
        assert(res@.take(res@.len() as int) =~= res@);
        kept.push((buckets[j].0, bucket_ids));
        fps.push(bucket_fps);
        j = j + 1;
    }
    (kept, fps)
}

/// Entry ids grouped by size, then by fingerprint.
pub struct SizeHashMap {
    sizes: Vec<u64>,
    keys: Vec<(u64, u32)>,
    groups: Vec<MsQueueWithPeak>,
    index: HashMap<u64, HashMap<u32, usize>>,
}

impl SizeHashMap {
    /// Whether a group for size `s` was created.
    pub closed spec fn has_size(&self, s: u64) -> bool {
        self.sizes@.contains(s)
    }

    /// The ids of size `s` and fingerprint `f`, in the order they were added.
    pub closed spec fn group(&self, s: u64, f: u32) -> Seq<u64> {
        let k = key_index(self.keys@, (s, f));
        if k >= 0 {
            self.groups@[k]@
        } else {
            Seq::empty()
        }
    }

    pub closed spec fn wf(&self) -> bool {
        &&& self.keys@.len() == self.groups@.len()
        &&& forall|a: int, b: int| 0 <= a < b < self.sizes@.len() ==> self.sizes@[a] != self.sizes@[b]
        &&& forall|a: int, b: int| 0 <= a < b < self.keys@.len() ==> self.keys@[a] != self.keys@[b]
        &&& forall|k: int| 0 <= k < self.keys@.len() ==> self.sizes@.contains((#[trigger] self.keys@[k]).0)
        &&& forall|k: int| 0 <= k < self.keys@.len() ==> (#[trigger] self.groups@[k])@.len() > 0
        &&& forall|s: u64| #[trigger] self.index@.contains_key(s) == self.sizes@.contains(s)
        &&& forall|k: int|
            0 <= k < self.keys@.len() ==> self.index@.contains_key((#[trigger] self.keys@[k]).0)
                && self.index@[self.keys@[k].0]@.contains_key(self.keys@[k].1)
                && self.index@[self.keys@[k].0]@[self.keys@[k].1] == k
        &&& forall|s: u64, f: u32|
            self.index@.contains_key(s) && #[trigger] self.index@[s]@.contains_key(f) ==> self.index@[s]@[f]
                < self.keys@.len() && self.keys@[self.index@[s]@[f] as int] == (s, f)
    }

    pub fn new() -> (r: SizeHashMap)
        ensures
            r.wf(),
            forall|s: u64| !r.has_size(s),
            forall|s: u64, f: u32| r.group(s, f).len() == 0,
    {
        SizeHashMap { sizes: Vec::new(), keys: Vec::new(), groups: Vec::new(), index: HashMap::new() }
    }

    /// Creates the (empty) fingerprint groups of size `size`; gives false and
    /// changes nothing when they already exist.
    pub fn insert_new(&mut self, size: u64) -> (r: bool)
        requires
            old(self).wf(),
        ensures
            final(self).wf(),
            r == !old(self).has_size(size),
            forall|s: u64| final(self).has_size(s) == (old(self).has_size(s) || s == size),
            forall|s: u64, f: u32| final(self).group(s, f) == old(self).group(s, f),
    {
        if self.index.contains_key(&size) {
            return false;
        }
        assert(!self.sizes@.contains(size));
        self.sizes.push(size);
        self.index.insert(size, HashMap::new());
        assert forall|a: int, b: int| 0 <= a < b < self.sizes@.len() implies self.sizes@[a] != self.sizes@[b] by {
            if b == self.sizes@.len() - 1 {
                assert(old(self).sizes@.contains(self.sizes@[a]));
            }
        }
        assert forall|k: int| 0 <= k < self.keys@.len() implies self.index@.contains_key((#[trigger] self.keys@[k]).0)
                && self.index@[self.keys@[k].0]@.contains_key(self.keys@[k].1)
                && self.index@[self.keys@[k].0]@[self.keys@[k].1] == k by {
            assert(old(self).sizes@.contains(self.keys@[k].0));
            assert(old(self).index@.contains_key(self.keys@[k].0));
        }
        assert forall|t: u64, f: u32|
            self.index@.contains_key(t) && #[trigger] self.index@[t]@.contains_key(f) implies self.index@[t]@[f]
                < self.keys@.len() && self.keys@[self.index@[t]@[f] as int] == (t, f) by {
            if t != size {
                assert(old(self).index@.contains_key(t));
            }
        }
        assert forall|s: u64| self.has_size(s) == (old(self).has_size(s) || s == size) by {
            if old(self).has_size(s) {
                let j = choose|j: int| 0 <= j < old(self).sizes@.len() && old(self).sizes@[j] == s;
                assert(self.sizes@[j] == s);
            }
            if s == size {
                assert(self.sizes@.last() == s);
            }
        }
        assert forall|k: int| 0 <= k < self.keys@.len() implies self.sizes@.contains((#[trigger] self.keys@[k]).0) by {
            assert(old(self).sizes@.contains(self.keys@[k].0));
            let j = choose|j: int| 0 <= j < old(self).sizes@.len() && old(self).sizes@[j] == self.keys@[k].0;
            assert(self.sizes@[j] == self.keys@[k].0);
        }
        assert forall|t: u64| #[trigger] self.index@.contains_key(t) == self.sizes@.contains(t) by {
            assert(self.has_size(t) == (old(self).has_size(t) || t == size));
            assert(old(self).index@.contains_key(t) == old(self).sizes@.contains(t));
        }
        true
    }

    /// Adds id `id` to the group of size `size` and fingerprint `fp`.
    pub fn insert_into2(&mut self, size: u64, fp: u32, id: u64)
        requires
            old(self).wf(),
            old(self).has_size(size),
        ensures
            final(self).wf(),
            forall|s: u64| final(self).has_size(s) == old(self).has_size(s),
            final(self).group(size, fp) == old(self).group(size, fp).push(id),
            forall|s: u64, f: u32|
                (s, f) != (size, fp) ==> final(self).group(s, f) == old(self).group(s, f),
    {
        let ghost key = (size, fp);
        proof {
            lemma_key_index(self.keys@, key);
        }
        assert(self.index@.contains_key(size));
        let k: usize = match self.index.get(&size) {
            Some(inner) => match inner.get(&fp) {
                Some(k) => *k,
                None => self.keys.len(),
            },
            None => self.keys.len(),
        };
        assert(k < self.keys@.len() ==> self.keys@[k as int] == key);
        assert(k == self.keys@.len() ==> !self.keys@.contains(key)) by {
            if k == self.keys@.len() && self.keys@.contains(key) {
                let j = choose|j: int| 0 <= j < self.keys@.len() && self.keys@[j] == key;
                assert(self.index@[self.keys@[j].0]@.contains_key(self.keys@[j].1));
            }
        }
        if k < self.keys.len() {
            assert(self.keys@[k as int] == key);
            assert(key_index(self.keys@, key) == k) by {
                let i = key_index(self.keys@, key);
                if i != k {
                    assert(self.keys@[i] == key);
                }
            }
            self.groups[k].push(id);
            assert forall|s: u64, f: u32| (s, f) != (size, fp) implies self.group(s, f) == old(self).group(s, f) by {
                lemma_key_index(self.keys@, (s, f));
            }
        } else {
            assert(!self.keys@.contains(key));
            let mut q = MsQueueWithPeak::new();
            q.push(id);
            let ghost old_inner = old(self).index@[size];
            let mut inner = match self.index.remove(&size) {
                Some(m) => m,
                None => HashMap::new(),
            };
            assert(inner@ == old_inner@);
            inner.insert(fp, k);
            self.index.insert(size, inner);
            assert(self.index@ == old(self).index@.insert(size, inner));
            self.keys.push((size, fp));
            self.groups.push(q);
            assert(self.keys@.drop_last() =~= old(self).keys@);
            assert forall|j: int| 0 <= j < self.keys@.len() implies self.index@.contains_key((#[trigger] self.keys@[j]).0)
                    && self.index@[self.keys@[j].0]@.contains_key(self.keys@[j].1)
                    && self.index@[self.keys@[j].0]@[self.keys@[j].1] == j by {
                if j < k {
                    assert(self.keys@[j] == old(self).keys@[j]);
                    assert(old(self).keys@[j] != key);
                }
            }
            assert forall|t: u64, f: u32|
                self.index@.contains_key(t) && #[trigger] self.index@[t]@.contains_key(f) implies self.index@[t]@[f]
                    < self.keys@.len() && self.keys@[self.index@[t]@[f] as int] == (t, f) by {
                if t != size || f != fp {
                    assert(old(self).index@.contains_key(t));
                    assert(old(self).index@[t]@.contains_key(f));
                    assert(self.keys@[old(self).index@[t]@[f] as int] == old(self).keys@[old(self).index@[t]@[f] as int]);
                }
            }
            assert(key_index(self.keys@, key) == old(self).keys@.len());
            assert(old(self).group(size, fp) =~= Seq::<u64>::empty());
            assert(self.group(size, fp) =~= old(self).group(size, fp).push(id));
            assert forall|s: u64, f: u32| (s, f) != (size, fp) implies self.group(s, f) == old(self).group(s, f) by {
                lemma_key_index(old(self).keys@, (s, f));
                let i = key_index(old(self).keys@, (s, f));
                if i >= 0 {
                    assert(self.groups@[i] == old(self).groups@[i]);
                }
            }
            assert forall|k: int| 0 <= k < self.keys@.len() implies self.sizes@.contains((#[trigger] self.keys@[k]).0) by {
                if k < old(self).keys@.len() {
                    assert(old(self).keys@[k] == self.keys@[k]);
                }
            }
        }
    }

    /// Groups the entries of each candidate bucket by fingerprint: `fps[j][m]`
    /// is the fingerprint of entry `buckets[j].1[m]`, whose size is `buckets[j].0`.
    pub fn build_size_by_hash_map(buckets: &Vec<(u64, Vec<u64>)>, fps: &Vec<Vec<u32>>) -> (r: SizeHashMap)
        requires
            fps@.len() == buckets@.len(),
            forall|j: int| 0 <= j < buckets@.len() ==> (#[trigger] fps@[j])@.len() == buckets@[j].1@.len(),
            forall|a: int, b: int| 0 <= a < b < buckets@.len() ==> buckets@[a].0 != buckets@[b].0,
        ensures
            r.wf(),
            forall|s: u64| r.has_size(s) <==> exists|j: int| 0 <= j < buckets@.len() && (#[trigger] buckets@[j]).0 == s,
            forall|j: int, f: u32|
                0 <= j < buckets@.len() ==> #[trigger] r.group(buckets@[j].0, f) == ids_with_fingerprint(
                    buckets@[j].1@,
                    fps@[j]@,
                    f,
                ),
            forall|s: u64, f: u32| !r.has_size(s) ==> #[trigger] r.group(s, f).len() == 0,
    {
        let mut map = SizeHashMap::new();
        let mut j: usize = 0;
        while j < buckets.len()
            invariant
                j <= buckets@.len(),
                fps@.len() == buckets@.len(),
                forall|jj: int| 0 <= jj < buckets@.len() ==> (#[trigger] fps@[jj])@.len() == buckets@[jj].1@.len(),
                forall|a: int, b: int| 0 <= a < b < buckets@.len() ==> buckets@[a].0 != buckets@[b].0,
                map.wf(),
                forall|s: u64| map.has_size(s) <==> exists|jj: int| 0 <= jj < j && (#[trigger] buckets@[jj]).0 == s,
                forall|jj: int, f: u32|
                    0 <= jj < j ==> #[trigger] map.group(buckets@[jj].0, f) == ids_with_fingerprint(
                        buckets@[jj].1@,
                        fps@[jj]@,
                        f,
                    ),
                forall|s: u64, f: u32| !map.has_size(s) ==> #[trigger] map.group(s, f).len() == 0,
            decreases buckets@.len() - j,
        {
            let size = buckets[j].0;
            let ids = &buckets[j].1;
            let fs = &fps[j];
            assert(!map.has_size(size)) by {
                if map.has_size(size) {
                    let jj = choose|jj: int| 0 <= jj < j && (#[trigger] buckets@[jj]).0 == size;
                }
            }
            let ghost m0 = map;
            let created = map.insert_new(size);
            let mut m: usize = 0;
            while m < ids.len()
                invariant
                    m <= ids@.len(),
                    ids@.len() == fs@.len(),
                    map.wf(),
                    forall|s: u64| map.has_size(s) == (m0.has_size(s) || s == size),
                    forall|s: u64, f: u32| s != size ==> map.group(s, f) == m0.group(s, f),
                    forall|f: u32| map.group(size, f) == ids_with_fingerprint(ids@.take(m as int), fs@.take(m as int), f),
                decreases ids@.len() - m,
            {
                let ghost before = map;
                map.insert_into2(size, fs[m], ids[m]);
                assert forall|f: u32| map.group(size, f) == ids_with_fingerprint(ids@.take(m + 1), fs@.take(m + 1), f) by {
                    let t = ids@.take(m + 1);
                    assert(t.drop_last() =~= ids@.take(m as int));
                    assert(fs@.take(m + 1).take(m as int) =~= fs@.take(m as int));
                    if f != fs@[m as int] {
                        assert(map.group(size, f) == before.group(size, f));
                    }
                }
                m = m + 1;
            }
            assert(ids@.take(ids@.len() as int) =~= ids@);
            assert(fs@.take(fs@.len() as int) =~= fs@);
            assert forall|s: u64| map.has_size(s) <==> exists|jj: int| 0 <= jj < j + 1 && (#[trigger] buckets@[jj]).0 == s by {
                if s == size {
                    assert(buckets@[j as int].0 == s);
                }
            }
            assert forall|jj: int, f: u32| 0 <= jj < j + 1 implies #[trigger] map.group(buckets@[jj].0, f) == ids_with_fingerprint(
                        buckets@[jj].1@,
                        fps@[jj]@,
                        f,
                    ) by {
                if jj < j {
                    assert(buckets@[jj].0 != size);
                }
            }
            j = j + 1;
        }
        map
    }

    /// Hands out every group that holds more than one id, with its size and
    /// fingerprint; the map is used up.
    pub fn duplicate_groups(self) -> (r: Vec<(u64, u32, Vec<u64>)>)
        requires
            self.wf(),
        ensures
            forall|j: int|
                0 <= j < r@.len() ==> (#[trigger] r@[j]).2@ == self.group(r@[j].0, r@[j].1) && r@[j].2@.len() > 1,
            forall|a: int, b: int| 0 <= a < b < r@.len() ==> (r@[a].0, r@[a].1) != (r@[b].0, r@[b].1),
            forall|s: u64, f: u32|
                #[trigger] self.group(s, f).len() > 1 ==> exists|j: int|
                    0 <= j < r@.len() && r@[j].0 == s && r@[j].1 == f,
    {
        let ghost this = self;
        let SizeHashMap { sizes, keys, groups, index: _ } = self;
        let ghost old_groups = groups@;
        let mut groups = groups;
        let mut out: Vec<(u64, u32, Vec<u64>)> = Vec::new();
        let mut k: usize = 0;
        while k < keys.len()
            invariant
                k <= keys@.len(),
                keys@ == this.keys@,
                old_groups == this.groups@,
                this.wf(),
                keys@.len() == groups@.len(),
                forall|j: int| k <= j < keys@.len() ==> groups@[j] == old_groups[j],
                forall|j: int|
                    0 <= j < out@.len() ==> (#[trigger] out@[j]).2@ == this.group(out@[j].0, out@[j].1) && out@[j].2@.len() > 1,
                forall|j: int|
                    0 <= j < out@.len() ==> exists|kk: int| 0 <= kk < k && keys@[kk] == ((#[trigger] out@[j]).0, out@[j].1),
                forall|a: int, b: int| 0 <= a < b < out@.len() ==> (out@[a].0, out@[a].1) != (out@[b].0, out@[b].1),
                forall|kk: int|
                    0 <= kk < k && (#[trigger] old_groups[kk])@.len() > 1 ==> exists|j: int|
                        0 <= j < out@.len() && (out@[j].0, out@[j].1) == keys@[kk],
            decreases keys@.len() - k,
        {
            let ghost key = keys@[k as int];
            proof {
                lemma_key_index(keys@, key);
                let i = key_index(keys@, key);
                if i != k {
                    assert(keys@[i] == key);
                }
                assert(this.group(key.0, key.1) == old_groups[k as int]@);
            }
            if groups[k].has_more_than_one_element() {
                let ids = groups[k].drain();
                let ghost prev = out@;
                out.push((keys[k].0, keys[k].1, ids));
                assert forall|a: int, b: int| 0 <= a < b < out@.len() implies (out@[a].0, out@[a].1) != (out@[b].0, out@[b].1) by {
                    if b == out@.len() - 1 {
                        let kk = choose|kk: int| 0 <= kk < k && keys@[kk] == (prev[a].0, prev[a].1);
                        assert(out@[a] == prev[a]);
                    } else {
                        assert(out@[a] == prev[a] && out@[b] == prev[b]);
                    }
                }
                assert forall|j: int| 0 <= j < out@.len() implies exists|kk: int| 0 <= kk < k + 1 && keys@[kk] == ((#[trigger] out@[j]).0, out@[j].1) by {
                    if j == out@.len() - 1 {
                        assert(keys@[k as int] == (out@[j].0, out@[j].1));
                    } else {
                        assert(out@[j] == prev[j]);
                        let kk = choose|kk: int| 0 <= kk < k && keys@[kk] == (prev[j].0, prev[j].1);
                    }
                }
                assert forall|kk: int| 0 <= kk < k + 1 && (#[trigger] old_groups[kk])@.len() > 1 implies exists|j: int|
                        0 <= j < out@.len() && (out@[j].0, out@[j].1) == keys@[kk] by {
                    if kk == k {
                        assert((out@[out@.len() - 1].0, out@[out@.len() - 1].1) == keys@[kk]);
                    } else {
                        let j = choose|j: int| 0 <= j < prev.len() && (prev[j].0, prev[j].1) == keys@[kk];
                        assert(out@[j] == prev[j]);
                    }
                }
            }
            k = k + 1;
        }
        proof {
            assert forall|s: u64, f: u32| #[trigger] this.group(s, f).len() > 1 implies exists|j: int|
                    0 <= j < out@.len() && out@[j].0 == s && out@[j].1 == f by {
                lemma_key_index(keys@, (s, f));
                let i = key_index(keys@, (s, f));
                assert(old_groups[i]@.len() > 1);
                let j = choose|j: int| 0 <= j < out@.len() && (out@[j].0, out@[j].1) == keys@[i];
            }
        }
        out
    }
}

} // verus!
