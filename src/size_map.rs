use vstd::prelude::*;
use crate::peek_queue::MsQueueWithPeak;
use std::collections::HashMap;

verus! {

broadcast use vstd::std_specs::hash::group_hash_axioms;

/// What a found file is: a file on disk, or a member of a zip archive
/// (the archive's path and the member's name inside it).
#[derive(Clone, Debug)]
pub enum FilePaths {
    Default(String),
    Zip(String, String),
}

/// The ids (positions in `sizes`) of the entries of size `s`, in ascending order.
pub open spec fn ids_of_size(sizes: Seq<u64>, s: u64) -> Seq<u64>
    decreases sizes.len(),
{
    if sizes.len() == 0 {
        Seq::empty()
    } else {
        let rest = ids_of_size(sizes.drop_last(), s);
        if sizes.last() == s {
            rest.push((sizes.len() - 1) as u64)
        } else {
            rest
        }
    }
}

/// Whether some other entry has the same size as entry `i`.
pub open spec fn size_is_shared(sizes: Seq<u64>, i: int) -> bool {
    ids_of_size(sizes, sizes[i]).len() > 1
}

/// The ids of a size are distinct ids of entries of that size, and every
/// entry of that size is among them.
pub proof fn lemma_ids_of_size_members(sizes: Seq<u64>, s: u64)
    requires
        sizes.len() <= u64::MAX,
    ensures
        forall|j: int|
            0 <= j < ids_of_size(sizes, s).len() ==> (#[trigger] ids_of_size(sizes, s)[j]) < sizes.len()
                && sizes[ids_of_size(sizes, s)[j] as int] == s,
        forall|i: int|
            0 <= i < sizes.len() && sizes[i] == s ==> ids_of_size(sizes, s).contains(i as u64),
        ids_of_size(sizes, s).len() <= sizes.len(),
        ids_of_size(sizes, s).no_duplicates(),
    decreases sizes.len(),
{
    if sizes.len() > 0 {
        let rest = sizes.drop_last();
        lemma_ids_of_size_members(rest, s);
        if sizes.last() == s {
            let r = ids_of_size(rest, s);
            let p = r.push((sizes.len() - 1) as u64);
            assert forall|a: int, b: int| 0 <= a < b < p.len() implies #[trigger] p[a] != #[trigger] p[b] by {
                if b == r.len() {
                    assert(r[a] < rest.len());
                } else {
                    assert(p[a] == r[a] && p[b] == r[b]);
                }
            }
        }
        assert forall|i: int| 0 <= i < sizes.len() && sizes[i] == s implies ids_of_size(
            sizes,
            s,
        ).contains(i as u64) by {
            if i < rest.len() {
                assert(rest[i] == s);
                let k = choose|k: int| 0 <= k < ids_of_size(rest, s).len() && ids_of_size(rest, s)[k] == i as u64;
                assert(ids_of_size(sizes, s)[k] == i as u64);
            } else {
                assert(ids_of_size(sizes, s).last() == i as u64);
            }
        }
    }
}

/// Every found entry, grouped by size: one bucket per size that occurs,
/// holding the ids of the entries of that size in the order they came.
pub struct SizeMap {
    keys: Vec<u64>,
    index: HashMap<u64, usize>,
    buckets: Vec<MsQueueWithPeak>,
    entries: Vec<FilePaths>,
    entry_sizes: Vec<u64>,
}

impl SizeMap {
    /// The size of each entry, indexed by entry id.
    pub closed spec fn sizes(&self) -> Seq<u64> {
        self.entry_sizes@
    }

    /// The entries, indexed by entry id.
    pub closed spec fn entries(&self) -> Seq<FilePaths> {
        self.entries@
    }

    /// The sizes that have a bucket, in the order they first occurred.
    pub closed spec fn bucket_sizes(&self) -> Seq<u64> {
        self.keys@
    }

    pub closed spec fn wf(&self) -> bool {
        &&& self.keys@.len() == self.buckets@.len()
        &&& forall|k: int|
            0 <= k < self.keys@.len() ==> self.index@.contains_key(#[trigger] self.keys@[k])
                && self.index@[self.keys@[k]] == k
        &&& forall|s: u64|
            #[trigger] self.index@.contains_key(s) ==> self.index@[s] < self.keys@.len()
                && self.keys@[self.index@[s] as int] == s
        &&& self.entries@.len() == self.entry_sizes@.len()
        &&& self.entry_sizes@.len() < u64::MAX
        &&& forall|a: int, b: int|
            0 <= a < b < self.keys@.len() ==> self.keys@[a] != self.keys@[b]
        &&& forall|k: int|
            0 <= k < self.keys@.len() ==> (#[trigger] self.buckets@[k])@ == ids_of_size(
                self.entry_sizes@,
                self.keys@[k],
            )
        &&& forall|i: int|
            0 <= i < self.entry_sizes@.len() ==> self.keys@.contains(
                #[trigger] self.entry_sizes@[i],
            )
    }

    pub fn new() -> (r: SizeMap)
        ensures
            r.wf(),
            r.sizes().len() == 0,
            r.entries().len() == 0,
            r.bucket_sizes().len() == 0,
    {
        SizeMap { keys: Vec::new(), index: HashMap::new(), buckets: Vec::new(), entries: Vec::new(), entry_sizes: Vec::new() }
    }

    /// The number of entries.
    pub fn len(&self) -> (r: usize)
        requires
            self.wf(),
        ensures
            r == self.sizes().len(),
            r == self.entries().len(),
    {
        self.entry_sizes.len()
    }

    /// The entry with id `id`.
    pub fn entry(&self, id: u64) -> (r: &FilePaths)
        requires
            self.wf(),
            id < self.sizes().len(),
        ensures
            *r == self.entries()[id as int],
    {
        let n = self.entries.len();
        assert(id < n);
        &self.entries[id as usize]
    }

    /// Adds an entry of size `size`: it joins the bucket of that size, which is
    /// created if this is the first entry of that size. Its id is returned.
    pub fn insert_into(&mut self, size: u64, entry: FilePaths) -> (r: u64)
        requires
            old(self).wf(),
            old(self).sizes().len() < u64::MAX - 1,
        ensures
            final(self).wf(),
            r == old(self).sizes().len(),
            final(self).sizes() == old(self).sizes().push(size),
            final(self).entries() == old(self).entries().push(entry),
            final(self).entries().len() == final(self).sizes().len(),
            old(self).bucket_sizes().contains(size) ==> final(self).bucket_sizes() == old(
                self,
            ).bucket_sizes(),
            !old(self).bucket_sizes().contains(size) ==> final(self).bucket_sizes() == old(
                self,
            ).bucket_sizes().push(size),
    {
        let id = self.entry_sizes.len() as u64;
        self.entries.push(entry);
        self.entry_sizes.push(size);
        let ghost es = self.entry_sizes@;
        assert(es.drop_last() =~= old(self).entry_sizes@);
        assert forall|s: u64| s != size implies ids_of_size(es, s) == ids_of_size(
            old(self).entry_sizes@,
            s,
        ) by {}
        assert(ids_of_size(es, size) == ids_of_size(old(self).entry_sizes@, size).push(id));
        let k: usize = match self.index.get(&size) {
            Some(k) => *k,
            None => self.keys.len(),
        };
        assert(k < self.keys@.len() ==> self.keys@[k as int] == size);
        assert(k == self.keys@.len() ==> forall|j: int| 0 <= j < k ==> self.keys@[j] != size);
        if k < self.keys.len() {
            assert(self.keys@[k as int] == size);
            self.buckets[k].push(id);
            assert(self.keys@ == old(self).keys@);
            assert forall|j: int| 0 <= j < self.keys@.len() implies (#[trigger] self.buckets@[j])@
                == ids_of_size(self.entry_sizes@, self.keys@[j]) by {
                if j != k {
                    assert(self.buckets@[j] == old(self).buckets@[j]);
                }
            }
            assert(old(self).keys@.contains(size));
        } else {
            let mut q = MsQueueWithPeak::new();
            q.push(id);
            assert(ids_of_size(old(self).entry_sizes@, size) =~= Seq::<u64>::empty()) by {
                lemma_ids_of_size_members(old(self).entry_sizes@, size);
                if ids_of_size(old(self).entry_sizes@, size).len() > 0 {
                    let i = ids_of_size(old(self).entry_sizes@, size)[0];
                    assert(old(self).keys@.contains(old(self).entry_sizes@[i as int]));
                }
            }
            self.index.insert(size, k);
            self.keys.push(size);
            self.buckets.push(q);
            assert(!old(self).keys@.contains(size));
            assert forall|j: int| 0 <= j < self.keys@.len() implies self.index@.contains_key(#[trigger] self.keys@[j])
                && self.index@[self.keys@[j]] == j by {
                if j < k {
                    assert(self.keys@[j] == old(self).keys@[j]);
                }
            }
            assert forall|t: u64| #[trigger] self.index@.contains_key(t) implies self.index@[t] < self.keys@.len()
                && self.keys@[self.index@[t] as int] == t by {
                if t != size {
                    assert(old(self).index@.contains_key(t));
                }
            }
        }
        assert forall|i: int| 0 <= i < self.entry_sizes@.len() implies self.keys@.contains(
            #[trigger] self.entry_sizes@[i],
        ) by {
            if i < old(self).entry_sizes@.len() {
                assert(old(self).entry_sizes@[i] == self.entry_sizes@[i]);
                let j = choose|j: int| 0 <= j < old(self).keys@.len() && old(self).keys@[j] == self.entry_sizes@[i];
                assert(self.keys@[j] == self.entry_sizes@[i]);
            } else {
                assert(self.entry_sizes@[i] == size);
                if k < old(self).keys@.len() {
                    assert(self.keys@[k as int] == size);
                } else {
                    assert(self.keys@.last() == size);
                }
            }
        }
        id
    }
    /// Ends the walk: hands back the entries and, for each size held by more
    /// than one entry, that size with the ids of its entries. Sizes held by a
    /// single entry are left out, so those entries are never fingerprinted.
    pub fn into_candidates(self) -> (r: (Vec<FilePaths>, Vec<(u64, Vec<u64>)>))
        requires
            self.wf(),
        ensures
            r.0@ == self.entries(),
            r.0@.len() == self.sizes().len(),
            forall|j: int|
                0 <= j < r.1@.len() ==> (#[trigger] r.1@[j]).1@ == ids_of_size(self.sizes(), r.1@[j].0)
                    && r.1@[j].1@.len() > 1 && r.1@[j].1@.no_duplicates(),
            forall|a: int, b: int| 0 <= a < b < r.1@.len() ==> r.1@[a].0 != r.1@[b].0,
            forall|i: int|
                0 <= i < self.sizes().len() && size_is_shared(self.sizes(), i) ==> exists|j: int|
                    0 <= j < r.1@.len() && (#[trigger] r.1@[j]).0 == self.sizes()[i],
            forall|i: int, j: int|
                0 <= i < self.sizes().len() && !size_is_shared(self.sizes(), i) && 0 <= j
                    < r.1@.len() ==> #[trigger] r.1@[j].0 != #[trigger] self.sizes()[i],
    {
        let SizeMap { keys, index: _, buckets, entries, entry_sizes } = self;
        let ghost es = entry_sizes@;
        let ghost old_buckets = buckets@;
        let mut buckets = buckets;
        let mut out: Vec<(u64, Vec<u64>)> = Vec::new();
        assert(es == self.sizes());
        let mut k: usize = 0;
        while k < keys.len()
            invariant
                k <= keys@.len(),
                keys@.len() == buckets@.len(),
                old_buckets.len() == keys@.len(),
                forall|a: int, b: int| 0 <= a < b < keys@.len() ==> keys@[a] != keys@[b],
                forall|j: int| k <= j < keys@.len() ==> buckets@[j] == old_buckets[j],
                forall|j: int|
                    0 <= j < keys@.len() ==> (#[trigger] old_buckets[j])@ == ids_of_size(es, keys@[j]),
                forall|j: int|
                    0 <= j < out@.len() ==> (#[trigger] out@[j]).1@ == ids_of_size(es, out@[j].0)
                        && out@[j].1@.len() > 1,
                forall|j: int|
                    0 <= j < out@.len() ==> exists|kk: int| 0 <= kk < k && keys@[kk] == (#[trigger] out@[j]).0,
                forall|a: int, b: int| 0 <= a < b < out@.len() ==> out@[a].0 != out@[b].0,
                forall|kk: int|
                    0 <= kk < k && (#[trigger] old_buckets[kk])@.len() > 1 ==> exists|j: int|
                        0 <= j < out@.len() && out@[j].0 == keys@[kk],
            decreases keys@.len() - k,
        {
            assert(buckets@[k as int] == old_buckets[k as int]);
            if buckets[k].has_more_than_one_element() {
                let ids = buckets[k].drain();
                let ghost prev = out@;
                out.push((keys[k], ids));
                assert forall|a: int, b: int| 0 <= a < b < out@.len() implies out@[a].0 != out@[b].0 by {
                    if b == out@.len() - 1 {
                        let kk = choose|kk: int| 0 <= kk < k && keys@[kk] == prev[a].0;
                        assert(out@[a] == prev[a]);
                    } else {
                        assert(out@[a] == prev[a] && out@[b] == prev[b]);
                    }
                }
                assert forall|j: int| 0 <= j < out@.len() implies exists|kk: int| 0 <= kk < k + 1 && keys@[kk] == (#[trigger] out@[j]).0 by {
                    if j == out@.len() - 1 {
                        assert(keys@[k as int] == out@[j].0);
                    } else {
                        assert(out@[j] == prev[j]);
                        let kk = choose|kk: int| 0 <= kk < k && keys@[kk] == prev[j].0;
                    }
                }
                assert forall|kk: int| 0 <= kk < k + 1 && (#[trigger] old_buckets[kk])@.len() > 1 implies exists|j: int|
                        0 <= j < out@.len() && out@[j].0 == keys@[kk] by {
                    if kk == k {
                        assert(out@[out@.len() - 1].0 == keys@[kk]);
                    } else {
                        let j = choose|j: int| 0 <= j < prev.len() && prev[j].0 == keys@[kk];
                        assert(out@[j] == prev[j]);
                    }
                }
            }
            k = k + 1;
        }
        proof {
            assert forall|i: int| 0 <= i < es.len() && size_is_shared(es, i) implies exists|j: int|
                    0 <= j < out@.len() && (#[trigger] out@[j]).0 == es[i] by {
                assert(keys@.contains(es[i]));
                let kk = choose|kk: int| 0 <= kk < keys@.len() && keys@[kk] == es[i];
                assert(old_buckets[kk]@ == ids_of_size(es, keys@[kk]));
                assert(old_buckets[kk]@.len() > 1);
            }
        }
        let r = (entries, out);
        proof {
            assert forall|j: int| 0 <= j < r.1@.len() implies (#[trigger] r.1@[j]).1@.no_duplicates() by {
                lemma_ids_of_size_members(es, r.1@[j].0);
            }
            assert forall|i: int| 0 <= i < es.len() && size_is_shared(es, i) implies exists|j: int|
                    0 <= j < r.1@.len() && (#[trigger] r.1@[j]).0 == es[i] by {
                let j = choose|j: int| 0 <= j < out@.len() && (#[trigger] out@[j]).0 == es[i];
                assert(r.1@[j] == out@[j]);
            }
        }
        r
    }
}

} // verus!
