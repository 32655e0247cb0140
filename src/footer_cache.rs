//! The split footer cache: footer bytes by split id, bounded in bytes, evicting the least
//! recently used footers first.
use vstd::prelude::*;

use crate::request::SplitIdAndFooterOffsets;

verus! {

pub struct FooterEntry {
    pub split_id: String,
    pub bytes: Vec<u8>,
}

pub open spec fn entries_map(s: Seq<FooterEntry>) -> Map<Seq<char>, Seq<u8>>
    decreases s.len(),
{
    if s.len() == 0 {
        Map::empty()
    } else {
        entries_map(s.drop_last()).insert(s.last().split_id@, s.last().bytes@)
    }
}

pub open spec fn total_bytes(s: Seq<FooterEntry>) -> nat
    decreases s.len(),
{
    if s.len() == 0 {
        0
    } else {
        total_bytes(s.drop_last()) + s.last().bytes@.len()
    }
}

pub open spec fn unique_ids(s: Seq<FooterEntry>) -> bool {
    forall|i: int, j: int| 0 <= i < s.len() && 0 <= j < s.len() && i != j ==> (#[trigger] s[i]).split_id@ != (#[trigger] s[j]).split_id@
}

/// Footers by split id, least recently used first.
pub struct SplitFooterCache {
    pub capacity_bytes: u64,
    pub used_bytes: u64,
    pub entries: Vec<FooterEntry>,
}

proof fn lemma_entries_map_index(s: Seq<FooterEntry>)
    requires
        unique_ids(s),
    ensures
        forall|k: Seq<char>| entries_map(s).contains_key(k) <==> exists|i: int| 0 <= i < s.len() && (#[trigger] s[i]).split_id@ == k,
        forall|i: int| 0 <= i < s.len() ==> entries_map(s)[(#[trigger] s[i]).split_id@] == s[i].bytes@,
    decreases s.len(),
{
    if s.len() > 0 {
        let t = s.drop_last();
        assert(unique_ids(t));
        lemma_entries_map_index(t);
        assert(entries_map(s) == entries_map(t).insert(s.last().split_id@, s.last().bytes@));
        assert forall|k: Seq<char>| entries_map(s).contains_key(k) <==> exists|i: int| 0 <= i < s.len() && (#[trigger] s[i]).split_id@ == k by {
            if entries_map(s).contains_key(k) && k != s.last().split_id@ {
                assert(entries_map(t).contains_key(k));
                let i = choose|i: int| 0 <= i < t.len() && (#[trigger] t[i]).split_id@ == k;
                assert(s[i] == t[i]);
            }
            if exists|i: int| 0 <= i < s.len() && (#[trigger] s[i]).split_id@ == k {
                let i = choose|i: int| 0 <= i < s.len() && (#[trigger] s[i]).split_id@ == k;
                if i < t.len() {
                    assert(t[i] == s[i]);
                }
            }
        }
        assert forall|i: int| 0 <= i < s.len() implies entries_map(s)[(#[trigger] s[i]).split_id@] == s[i].bytes@ by {
            if i < t.len() {
                assert(t[i] == s[i]);
                assert(s[i].split_id@ != s[s.len() - 1].split_id@);
            }
        }
    }
}

/// Removing entry `i` removes its key and its bytes.
proof fn lemma_remove_entry(s: Seq<FooterEntry>, i: int)
    requires
        unique_ids(s),
        0 <= i < s.len(),
    ensures
        unique_ids(s.remove(i)),
        entries_map(s.remove(i)) == entries_map(s).remove(s[i].split_id@),
        total_bytes(s.remove(i)) == total_bytes(s) - s[i].bytes@.len(),
    decreases s.len(),
{
    let r = s.remove(i);
    assert forall|a: int, b: int| 0 <= a < r.len() && 0 <= b < r.len() && a != b implies (#[trigger] r[a]).split_id@ != (#[trigger] r[b]).split_id@ by {
        let aa = if a < i { a } else { a + 1 };
        let bb = if b < i { b } else { b + 1 };
        assert(r[a] == s[aa] && r[b] == s[bb]);
    }
    lemma_entries_map_index(s);
    lemma_entries_map_index(r);
    let m = entries_map(s).remove(s[i].split_id@);
    assert forall|k: Seq<char>| #[trigger] entries_map(r).contains_key(k) <==> m.contains_key(k) by {
        if m.contains_key(k) {
            let j = choose|j: int| 0 <= j < s.len() && (#[trigger] s[j]).split_id@ == k;
            assert(j != i);
            let jj = if j < i { j } else { j - 1 };
            assert(r[jj] == s[j]);
        }
        if entries_map(r).contains_key(k) {
            let j = choose|j: int| 0 <= j < r.len() && (#[trigger] r[j]).split_id@ == k;
            let jj = if j < i { j } else { j + 1 };
            assert(r[j] == s[jj]);
            assert(jj != i);
        }
    }
    assert forall|k: Seq<char>| #[trigger] entries_map(r).contains_key(k) implies entries_map(r)[k] == m[k] by {
        let j = choose|j: int| 0 <= j < r.len() && (#[trigger] r[j]).split_id@ == k;
        let jj = if j < i { j } else { j + 1 };
        assert(r[j] == s[jj]);
    }
    assert(entries_map(r) =~= m);
    if i == s.len() - 1 {
        assert(r =~= s.drop_last());
    } else {
        let t = s.drop_last();
        assert(unique_ids(t));
        lemma_remove_entry(t, i);
        assert(r.drop_last() =~= t.remove(i));
        assert(r.last() == s.last());
    }
}

proof fn lemma_push_entry(s: Seq<FooterEntry>, e: FooterEntry)
    requires
        unique_ids(s),
        !entries_map(s).contains_key(e.split_id@),
    ensures
        unique_ids(s.push(e)),
        entries_map(s.push(e)) == entries_map(s).insert(e.split_id@, e.bytes@),
        total_bytes(s.push(e)) == total_bytes(s) + e.bytes@.len(),
{
    let p = s.push(e);
    assert(p.drop_last() =~= s);
    lemma_entries_map_index(s);
    assert forall|a: int, b: int| 0 <= a < p.len() && 0 <= b < p.len() && a != b implies (#[trigger] p[a]).split_id@ != (#[trigger] p[b]).split_id@ by {
        if a < s.len() && b < s.len() {
            assert(p[a] == s[a] && p[b] == s[b]);
        } else if a < s.len() {
            assert(p[a] == s[a]);
        } else {
            assert(p[b] == s[b]);
        }
    }
}

fn copy_bytes(b: &Vec<u8>) -> (r: Vec<u8>)
    ensures
        r@ == b@,
{
    let mut r: Vec<u8> = Vec::new();
    let mut i: usize = 0;
    while i < b.len()
        invariant
            i <= b@.len(),
            r@ == b@.take(i as int),
        decreases b@.len() - i,
    {
        r.push(b[i]);
        proof {
            assert(b@.take(i as int + 1) =~= b@.take(i as int).push(b@[i as int]));
        }
        i = i + 1;
    }
    proof {
        assert(b@.take(b@.len() as int) =~= b@);
    }
    r
}

impl SplitFooterCache {
    pub open spec fn wf(&self) -> bool {
        &&& unique_ids(self.entries@)
        &&& self.used_bytes == total_bytes(self.entries@)
        &&& self.used_bytes <= self.capacity_bytes
    }

    pub open spec fn view(&self) -> Map<Seq<char>, Seq<u8>> {
        entries_map(self.entries@)
    }

    pub fn new(capacity_bytes: u64) -> (r: Self)
        ensures
            r.wf(),
            r@ == Map::<Seq<char>, Seq<u8>>::empty(),
            r.capacity_bytes == capacity_bytes,
    {
        SplitFooterCache { capacity_bytes, used_bytes: 0, entries: Vec::new() }
    }

    fn position(&self, split_id: &String) -> (r: Option<usize>)
        requires
            self.wf(),
        ensures
            r.is_none() ==> !self@.contains_key(split_id@),
            r matches Some(i) ==> i < self.entries@.len() && self.entries@[i as int].split_id@ == split_id@,
    {
        proof {
            lemma_entries_map_index(self.entries@);
        }
        let mut i: usize = 0;
        while i < self.entries.len()
            invariant
                i <= self.entries@.len(),
                forall|k: int| 0 <= k < i ==> (#[trigger] self.entries@[k]).split_id@ != split_id@,
            decreases self.entries@.len() - i,
        {
            if self.entries[i].split_id == *split_id {
                return Some(i);
            }
            i = i + 1;
        }
        None
    }

    /// The footer of `split_id`, if cached; a hit makes it the most recently used.
    pub fn get(&mut self, split_id: &String) -> (r: Option<Vec<u8>>)
        requires
            old(self).wf(),
        ensures
            final(self).wf(),
            final(self)@ == old(self)@,
            final(self).capacity_bytes == old(self).capacity_bytes,
            r.is_some() == old(self)@.contains_key(split_id@),
            r matches Some(b) ==> b@ == old(self)@[split_id@],
    {
        match self.position(split_id) {
            None => None,
            Some(i) => {
                let ghost before = self.entries@;
                proof {
                    lemma_entries_map_index(before);
                    lemma_remove_entry(before, i as int);
                }
                let entry = self.entries.remove(i);
                let bytes = copy_bytes(&entry.bytes);
                proof {
                    assert(self.entries@ == before.remove(i as int));
                    lemma_push_entry(self.entries@, entry);
                    assert(entries_map(self.entries@.push(entry)) =~= entries_map(before));
                }
                self.entries.push(entry);
                Some(bytes)
            },
        }
    }

    /// Caches the footer of `split_id`, evicting the least recently used footers until it fits;
    /// a footer larger than the whole cache is not kept.
    pub fn put(&mut self, split_id: String, bytes: Vec<u8>)
        requires
            old(self).wf(),
        ensures
            final(self).wf(),
            final(self).capacity_bytes == old(self).capacity_bytes,
            bytes@.len() <= old(self).capacity_bytes ==> final(self)@.contains_key(split_id@) && final(self)@[split_id@] == bytes@,
            bytes@.len() > old(self).capacity_bytes ==> final(self)@ == old(self)@,
            forall|k: Seq<char>|
                k != split_id@ && #[trigger] final(self)@.contains_key(k) ==> old(self)@.contains_key(k) && final(self)@[k]
                    == old(self)@[k],
    {
        let len = bytes.len() as u64;
        if len > self.capacity_bytes {
            return;
        }
        let ghost original = self@;
        let ghost capacity = self.capacity_bytes;
        match self.position(&split_id) {
            Some(i) => {
                let ghost before = self.entries@;
                proof {
                    lemma_remove_entry(before, i as int);
                    lemma_entries_map_index(before);
                }
                let old_entry = self.entries.remove(i);
                self.used_bytes = self.used_bytes - old_entry.bytes.len() as u64;
            },
            None => {},
        }
        while self.used_bytes > self.capacity_bytes - len && self.entries.len() > 0
            invariant
                unique_ids(self.entries@),
                self.used_bytes == total_bytes(self.entries@),
                self.used_bytes <= self.capacity_bytes,
                len <= self.capacity_bytes,
                self.capacity_bytes == capacity,
                !self@.contains_key(split_id@),
                forall|k: Seq<char>| #[trigger] self@.contains_key(k) ==> original.contains_key(k) && self@[k] == original[k],
            decreases self.entries@.len(),
        {
            let ghost before = self.entries@;
            proof {
                lemma_remove_entry(before, 0);
            }
            let evicted = self.entries.remove(0);
            self.used_bytes = self.used_bytes - evicted.bytes.len() as u64;
        }
        proof {
            if self.entries@.len() == 0 {
                assert(total_bytes(self.entries@) == 0);
            }
            lemma_push_entry(self.entries@, FooterEntry { split_id, bytes });
        }
        self.entries.push(FooterEntry { split_id, bytes });
        self.used_bytes = self.used_bytes + len;
    }
}

/// Where a split's footer comes from: the cache, or a ranged read of the split's file.
pub enum FooterSource {
    Cached(Vec<u8>),
    Fetch { file_name: String, start: u64, end: u64 },
}

/// Looks the split's footer up in `cache`; on a miss, names the bytes to read, which the
/// caller then reads and puts back with [`SplitFooterCache::put`].
pub fn split_footer_from_cache_or_fetch(cache: &mut SplitFooterCache, split: &SplitIdAndFooterOffsets) -> (r: FooterSource)
    requires
        old(cache).wf(),
    ensures
        final(cache).wf(),
        final(cache)@ == old(cache)@,
        final(cache).capacity_bytes == old(cache).capacity_bytes,
        old(cache)@.contains_key(split.split_id@) ==> (r matches FooterSource::Cached(b) && b@ == old(cache)@[split.split_id@]),
        !old(cache)@.contains_key(split.split_id@) ==> (r matches FooterSource::Fetch { file_name, start, end } && file_name@
            == split.split_id@ + ".split"@ && start == split.split_footer_start && end == split.split_footer_end),
{
    match cache.get(&split.split_id) {
        Some(bytes) => FooterSource::Cached(bytes),
        None => {
            let (start, end) = split.footer_range();
            FooterSource::Fetch { file_name: split.split_file_name(), start, end }
        },
    }
}

} // verus!
