//! Per-partition checkpoint deltas and their chaining algebra.
use vstd::prelude::*;

verus! {

/// What a delta says of each partition: the position it starts from and the one it ends at.
pub type DeltaMap = Map<u64, (u64, u64)>;

/// `b` chains onto `a`: every partition they share resumes exactly where `a` stopped.
pub open spec fn chains(a: DeltaMap, b: DeltaMap) -> bool {
    forall|p: u64| a.contains_key(p) && b.contains_key(p) ==> #[trigger] a[p].1 == b[p].0
}

/// The delta that covers `a` followed by `b`.
pub open spec fn compose(a: DeltaMap, b: DeltaMap) -> DeltaMap {
    Map::new(
        |p: u64| a.contains_key(p) || b.contains_key(p),
        |p: u64|
            if a.contains_key(p) && b.contains_key(p) {
                (a[p].0, b[p].1)
            } else if a.contains_key(p) {
                a[p]
            } else {
                b[p]
            },
    )
}

/// The movement of one partition, from `from` (inclusive) to `to` (exclusive).
#[derive(Clone, Copy, Debug, PartialEq, Eq, Structural)]
pub struct PartitionDelta {
    pub partition_id: u64,
    pub from: u64,
    pub to: u64,
}

/// The delta `b` does not chain onto the existing one on `partition_id`.
#[derive(Clone, Copy, Debug, PartialEq, Eq, Structural)]
pub struct IncompatibleCheckpointDelta {
    pub partition_id: u64,
    pub current_position: u64,
    pub delta_from_position: u64,
}

/// A set of partition movements, one entry per partition.
#[derive(Clone, Debug)]
pub struct CheckpointDelta {
    pub per_partition: Vec<PartitionDelta>,
}

pub open spec fn entries_map(s: Seq<PartitionDelta>) -> DeltaMap
    decreases s.len(),
{
    if s.len() == 0 {
        Map::empty()
    } else {
        let last = s.last();
        entries_map(s.drop_last()).insert(last.partition_id, (last.from, last.to))
    }
}

pub open spec fn unique_partitions(s: Seq<PartitionDelta>) -> bool {
    forall|i: int, j: int|
        0 <= i < s.len() && 0 <= j < s.len() && i != j ==> #[trigger] s[i].partition_id
            != #[trigger] s[j].partition_id
}

proof fn lemma_entries_map_index(s: Seq<PartitionDelta>)
    requires
        unique_partitions(s),
    ensures
        forall|p: u64|
            entries_map(s).contains_key(p) <==> exists|i: int|
                0 <= i < s.len() && #[trigger] s[i].partition_id == p,
        forall|i: int|
            0 <= i < s.len() ==> #[trigger] entries_map(s)[s[i].partition_id] == (
                s[i].from,
                s[i].to,
            ),
    decreases s.len(),
{
    if s.len() > 0 {
        let t = s.drop_last();
        assert(unique_partitions(t));
        lemma_entries_map_index(t);
        assert(entries_map(s) == entries_map(t).insert(s.last().partition_id, (s.last().from, s.last().to)));
        assert forall|p: u64|
            entries_map(s).contains_key(p) <==> exists|i: int|
                0 <= i < s.len() && #[trigger] s[i].partition_id == p by {
            if entries_map(s).contains_key(p) && p != s.last().partition_id {
                assert(entries_map(t).contains_key(p));
                let i = choose|i: int| 0 <= i < t.len() && #[trigger] t[i].partition_id == p;
                assert(t[i] == s[i]);
                assert(s[i].partition_id == p);
            }
            if exists|i: int| 0 <= i < s.len() && #[trigger] s[i].partition_id == p {
                let i = choose|i: int| 0 <= i < s.len() && #[trigger] s[i].partition_id == p;
                if i < t.len() {
                    assert(t[i].partition_id == p);
                }
            }
        }
        assert forall|i: int| 0 <= i < s.len() implies #[trigger] entries_map(s)[s[i].partition_id]
            == (s[i].from, s[i].to) by {
            if i < t.len() {
                assert(t[i] == s[i]);
                assert(s[i].partition_id != s[s.len() - 1].partition_id);
            }
        }
    }
}

impl CheckpointDelta {
    pub open spec fn wf(&self) -> bool {
        unique_partitions(self.per_partition@)
    }

    pub open spec fn view(&self) -> DeltaMap {
        entries_map(self.per_partition@)
    }

    /// Whether each partition has at most one entry.
    pub fn is_well_formed(&self) -> (r: bool)
        ensures
            r == self.wf(),
    {
        let n = self.per_partition.len();
        let mut i: usize = 0;
        while i < n
            invariant
                n == self.per_partition@.len(),
                i <= n,
                forall|a: int, b: int|
                    0 <= a < i && 0 <= b < n && a != b ==> #[trigger] self.per_partition@[a].partition_id
                        != #[trigger] self.per_partition@[b].partition_id,
            decreases n - i,
        {
            let mut j: usize = 0;
            while j < n
                invariant
                    n == self.per_partition@.len(),
                    i < n,
                    j <= n,
                    forall|a: int, b: int|
                        0 <= a < i && 0 <= b < n && a != b ==> #[trigger] self.per_partition@[a].partition_id
                            != #[trigger] self.per_partition@[b].partition_id,
                    forall|b: int| 0 <= b < j && b != i ==> self.per_partition@[i as int].partition_id
                        != #[trigger] self.per_partition@[b].partition_id,
                decreases n - j,
            {
                if j != i && self.per_partition[i].partition_id == self.per_partition[j].partition_id {
                    return false;
                }
                j = j + 1;
            }
            i = i + 1;
        }
        true
    }

    /// The delta that moves nothing.
    pub fn new() -> (r: Self)
        ensures
            r.wf(),
            r@ == DeltaMap::empty(),
    {
        CheckpointDelta { per_partition: Vec::new() }
    }

    /// The delta that moves partition 0 from `start` to `end`.
    pub fn from_range(start: u64, end: u64) -> (r: Self)
        ensures
            r.wf(),
            r@ == DeltaMap::empty().insert(0u64, (start, end)),
    {
        let mut v: Vec<PartitionDelta> = Vec::new();
        v.push(PartitionDelta { partition_id: 0, from: start, to: end });
        let r = CheckpointDelta { per_partition: v };
        proof {
            assert(r.per_partition@.len() == 1);
            assert(r.per_partition@.drop_last() =~= Seq::<PartitionDelta>::empty());
            assert(entries_map(Seq::<PartitionDelta>::empty()) == DeltaMap::empty());
        }
        r
    }

    pub fn is_empty(&self) -> (r: bool)
        requires
            self.wf(),
        ensures
            r == (self@ == DeltaMap::empty()),
    {
        proof {
            lemma_entries_map_index(self.per_partition@);
            if self.per_partition@.len() > 0 {
                let p = self.per_partition@[0].partition_id;
                assert(self@.contains_key(p));
            } else {
                assert(self@ =~= DeltaMap::empty());
            }
        }
        self.per_partition.len() == 0
    }

    pub fn num_partitions(&self) -> (r: usize)
        requires
            self.wf(),
        ensures
            r == self@.dom().len(),
    {
        proof {
            lemma_entries_map_len(self.per_partition@);
        }
        self.per_partition.len()
    }

    /// Where partition `partition_id` stands in `per_partition`, if it is there.
    fn find(&self, partition_id: u64) -> (r: Option<usize>)
        requires
            self.wf(),
        ensures
            r.is_none() ==> !self@.contains_key(partition_id),
            r.is_some() ==> r.unwrap() < self.per_partition@.len()
                && self.per_partition@[r.unwrap() as int].partition_id == partition_id,
    {
        proof {
            lemma_entries_map_index(self.per_partition@);
        }
        let mut i: usize = 0;
        while i < self.per_partition.len()
            invariant
                i <= self.per_partition@.len(),
                forall|k: int| 0 <= k < i ==> #[trigger] self.per_partition@[k].partition_id
                    != partition_id,
            decreases self.per_partition@.len() - i,
        {
            if self.per_partition[i].partition_id == partition_id {
                return Some(i);
            }
            i = i + 1;
        }
        None
    }

    /// The movement of `partition_id`, if this delta has one.
    pub fn get(&self, partition_id: u64) -> (r: Option<(u64, u64)>)
        requires
            self.wf(),
        ensures
            r.is_some() == self@.contains_key(partition_id),
            r.is_some() ==> r.unwrap() == self@[partition_id],
    {
        proof {
            lemma_entries_map_index(self.per_partition@);
        }
        match self.find(partition_id) {
            Some(i) => Some((self.per_partition[i].from, self.per_partition[i].to)),
            None => None,
        }
    }

    /// Records that `partition_id` moved from `from` to `to`: a partition already in the delta
    /// must resume where it stopped.
    pub fn record_partition_delta(&mut self, partition_id: u64, from: u64, to: u64) -> (r: Result<(), IncompatibleCheckpointDelta>)
        requires
            old(self).wf(),
        ensures
            final(self).wf(),
            r.is_ok() == (!old(self)@.contains_key(partition_id) || old(self)@[partition_id].1 == from),
            r.is_ok() ==> final(self)@ == old(self)@.insert(
                partition_id,
                if old(self)@.contains_key(partition_id) {
                    (old(self)@[partition_id].0, to)
                } else {
                    (from, to)
                },
            ),
            r.is_err() ==> *final(self) == *old(self),
    {
        let mut single: Vec<PartitionDelta> = Vec::new();
        single.push(PartitionDelta { partition_id, from, to });
        let other = CheckpointDelta { per_partition: single };
        proof {
            assert(other.per_partition@.drop_last() =~= Seq::<PartitionDelta>::empty());
            assert(entries_map(Seq::<PartitionDelta>::empty()) == DeltaMap::empty());
            assert(other@ == DeltaMap::empty().insert(partition_id, (from, to)));
        }
        let r = self.extend(&other);
        proof {
            if r.is_ok() {
                assert(compose(old(self)@, other@) =~= old(self)@.insert(
                    partition_id,
                    if old(self)@.contains_key(partition_id) {
                        (old(self)@[partition_id].0, to)
                    } else {
                        (from, to)
                    },
                ));
            }
        }
        r
    }

    /// Appends `other` to this delta. Fails, leaving this delta as it was, when a partition
    /// that both name does not resume in `other` exactly where this delta stops.
    pub fn extend(&mut self, other: &CheckpointDelta) -> (r: Result<(), IncompatibleCheckpointDelta>)
        requires
            old(self).wf(),
            other.wf(),
        ensures
            final(self).wf(),
            r.is_ok() == chains(old(self)@, other@),
            r.is_ok() ==> final(self)@ == compose(old(self)@, other@),
            r.is_err() ==> *final(self) == *old(self),
            r matches Err(e) ==> old(self)@.contains_key(e.partition_id) && other@.contains_key(
                e.partition_id,
            ) && old(self)@[e.partition_id].1 == e.current_position && other@[e.partition_id].0
                == e.delta_from_position && e.current_position != e.delta_from_position,
    {
        proof {
            lemma_entries_map_index(self.per_partition@);
            lemma_entries_map_index(other.per_partition@);
        }
        let n = other.per_partition.len();
        let mut i: usize = 0;
        while i < n
            invariant
                n == other.per_partition@.len(),
                i <= n,
                self.wf(),
                other.wf(),
                forall|k: int|
                    0 <= k < i ==> {
                        let p = #[trigger] other.per_partition@[k].partition_id;
                        self@.contains_key(p) ==> self@[p].1 == other@[p].0
                    },
            decreases n - i,
        {
            let pd = other.per_partition[i];
            proof {
                lemma_entries_map_index(self.per_partition@);
                lemma_entries_map_index(other.per_partition@);
            }
            match self.find(pd.partition_id) {
                Some(j) => {
                    let current = self.per_partition[j].to;
                    if current != pd.from {
                        proof {
                            assert(self@[pd.partition_id].1 == current);
                            assert(other@[pd.partition_id].0 == pd.from);
                            assert(!chains(self@, other@));
                        }
                        return Err(
                            IncompatibleCheckpointDelta {
                                partition_id: pd.partition_id,
                                current_position: current,
                                delta_from_position: pd.from,
                            },
                        );
                    }
                },
                None => {},
            }
            i = i + 1;
        }
        proof {
            assert forall|p: u64| self@.contains_key(p) && other@.contains_key(p) implies #[trigger] self@[p].1
                == other@[p].0 by {
                let k = choose|k: int| 0 <= k < other.per_partition@.len() && #[trigger] other.per_partition@[k].partition_id == p;
            }
        }
        let ghost old_map = self@;
        let ghost old_seq = self.per_partition@;
        let mut i: usize = 0;
        while i < n
            invariant
                n == other.per_partition@.len(),
                i <= n,
                self.wf(),
                other.wf(),
                chains(old_map, other@),
                self@ == compose(old_map, entries_map(other.per_partition@.take(i as int))),
            decreases n - i,
        {
            let pd = other.per_partition[i];
            let ghost before_map = self@;
            proof {
                lemma_entries_map_index(self.per_partition@);
                lemma_entries_map_index(other.per_partition@);
                let tk = other.per_partition@.take(i as int);
                assert(unique_partitions(tk));
                lemma_entries_map_index(tk);
                if entries_map(tk).contains_key(pd.partition_id) {
                    let k = choose|k: int| 0 <= k < tk.len() && #[trigger] tk[k].partition_id == pd.partition_id;
                    assert(other.per_partition@[k].partition_id == other.per_partition@[i as int].partition_id);
                }
                assert(!entries_map(tk).contains_key(pd.partition_id));
                assert(before_map.contains_key(pd.partition_id) == old_map.contains_key(pd.partition_id));
            }
            match self.find(pd.partition_id) {
                Some(j) => {
                    let ghost before = self.per_partition@;
                    let updated = PartitionDelta {
                        partition_id: pd.partition_id,
                        from: self.per_partition[j].from,
                        to: pd.to,
                    };
                    self.per_partition.set(j, updated);
                    proof {
                        lemma_entries_map_update(before, j as int, updated);
                        assert(before_map[pd.partition_id] == (before[j as int].from, before[j as int].to));
                        assert(old_map.contains_key(pd.partition_id));
                    }
                },
                None => {
                    let ghost before = self.per_partition@;
                    self.per_partition.push(pd);
                    proof {
                        assert(self.per_partition@.drop_last() =~= before);
                        assert forall|a: int, b: int|
                            0 <= a < self.per_partition@.len() && 0 <= b < self.per_partition@.len()
                                && a != b implies #[trigger] self.per_partition@[a].partition_id
                            != #[trigger] self.per_partition@[b].partition_id by {
                            if a < before.len() && b < before.len() {
                            } else if a < before.len() {
                                assert(entries_map(before).contains_key(before[a].partition_id));
                            } else {
                                assert(entries_map(before).contains_key(before[b].partition_id));
                            }
                        }
                    }
                },
            }
            proof {
                let tk = other.per_partition@.take(i as int);
                let tk1 = other.per_partition@.take(i as int + 1);
                assert(tk1.drop_last() =~= tk);
                assert(tk1.last() == pd);
                assert(!entries_map(tk).contains_key(pd.partition_id)) by {
                    lemma_entries_map_index(other.per_partition@);
                    assert(unique_partitions(tk));
                    lemma_entries_map_index(tk);
                    if entries_map(tk).contains_key(pd.partition_id) {
                        let k = choose|k: int| 0 <= k < tk.len() && #[trigger] tk[k].partition_id == pd.partition_id;
                        assert(other.per_partition@[k].partition_id == other.per_partition@[i as int].partition_id);
                    }
                }
                assert(other@.contains_key(pd.partition_id)) by {
                    lemma_entries_map_index(other.per_partition@);
                }
                assert(other@[pd.partition_id] == (pd.from, pd.to)) by {
                    lemma_entries_map_index(other.per_partition@);
                }
                assert(entries_map(tk1) == entries_map(tk).insert(pd.partition_id, (pd.from, pd.to)));
                assert(self@ =~= compose(old_map, entries_map(tk1)));
            }
            i = i + 1;
        }
        proof {
            assert(other.per_partition@.take(n as int) =~= other.per_partition@);
        }
        Ok(())
    }
}

proof fn lemma_entries_map_update(s: Seq<PartitionDelta>, j: int, e: PartitionDelta)
    requires
        unique_partitions(s),
        0 <= j < s.len(),
        e.partition_id == s[j].partition_id,
    ensures
        unique_partitions(s.update(j, e)),
        entries_map(s.update(j, e)) == entries_map(s).insert(e.partition_id, (e.from, e.to)),
{
    let u = s.update(j, e);
    assert forall|a: int, b: int| 0 <= a < u.len() && 0 <= b < u.len() && a != b implies #[trigger] u[a].partition_id
        != #[trigger] u[b].partition_id by {
        assert(s[a].partition_id != s[b].partition_id);
    }
    lemma_entries_map_index(s);
    lemma_entries_map_index(u);
    let m = entries_map(s).insert(e.partition_id, (e.from, e.to));
    assert forall|p: u64| #[trigger] entries_map(u).contains_key(p) <==> m.contains_key(p) by {
        if m.contains_key(p) && p != e.partition_id {
            let i = choose|i: int| 0 <= i < s.len() && #[trigger] s[i].partition_id == p;
            assert(u[i].partition_id == p);
        }
        if entries_map(u).contains_key(p) {
            let i = choose|i: int| 0 <= i < u.len() && #[trigger] u[i].partition_id == p;
            if i != j {
                assert(s[i].partition_id == p);
            }
        }
        if p == e.partition_id {
            assert(u[j].partition_id == p);
        }
    }
    assert forall|p: u64| #[trigger] entries_map(u).contains_key(p) implies entries_map(u)[p] == m[p] by {
        let i = choose|i: int| 0 <= i < u.len() && #[trigger] u[i].partition_id == p;
        if i != j {
            assert(s[i] == u[i]);
        }
    }
    assert(entries_map(u) =~= m);
}

proof fn lemma_entries_map_len(s: Seq<PartitionDelta>)
    requires
        unique_partitions(s),
    ensures
        entries_map(s).dom().finite(),
        entries_map(s).dom().len() == s.len(),
    decreases s.len(),
{
    if s.len() > 0 {
        let t = s.drop_last();
        assert(unique_partitions(t));
        lemma_entries_map_len(t);
        lemma_entries_map_index(t);
        assert(!entries_map(t).contains_key(s.last().partition_id)) by {
            if entries_map(t).contains_key(s.last().partition_id) {
                let i = choose|i: int| 0 <= i < t.len() && #[trigger] t[i].partition_id == s.last().partition_id;
                assert(s[i].partition_id == s[s.len() - 1].partition_id);
            }
        }
    }
}

/// The delta that covers every delta of `s`, in order.
pub open spec fn compose_all(s: Seq<DeltaMap>) -> DeltaMap
    decreases s.len(),
{
    if s.len() == 0 {
        DeltaMap::empty()
    } else {
        compose(compose_all(s.drop_last()), s.last())
    }
}

/// Each delta of `s` chains onto the composition of those before it.
pub open spec fn all_chain(s: Seq<DeltaMap>) -> bool
    decreases s.len(),
{
    s.len() == 0 || (all_chain(s.drop_last()) && chains(compose_all(s.drop_last()), s.last()))
}

/// `compose_all(s)` moves `p` from where the first delta of `s` that names `p` starts it
/// to where the last one that names `p` leaves it.
pub open spec fn spans(s: Seq<DeltaMap>, p: u64, i: int, j: int) -> bool {
    &&& 0 <= i <= j < s.len()
    &&& s[i].contains_key(p)
    &&& s[j].contains_key(p)
    &&& forall|k: int| 0 <= k < i ==> !(#[trigger] s[k]).contains_key(p)
    &&& forall|k: int| j < k < s.len() ==> !(#[trigger] s[k]).contains_key(p)
}

/// Extending a pending delta batch after batch accumulates exactly the union of the
/// batches' deltas: a partition is covered iff some batch names it, and it runs from where
/// the first batch naming it starts to where the last batch naming it ends.
pub proof fn lemma_chained_deltas_union(s: Seq<DeltaMap>)
    requires
        all_chain(s),
    ensures
        forall|p: u64|
            compose_all(s).contains_key(p) <==> exists|k: int|
                0 <= k < s.len() && (#[trigger] s[k]).contains_key(p),
        forall|p: u64| #[trigger]
            compose_all(s).contains_key(p) ==> exists|i: int, j: int|
                spans(s, p, i, j) && compose_all(s)[p] == (s[i][p].0, s[j][p].1),
    decreases s.len(),
{
    if s.len() > 0 {
        let t = s.drop_last();
        let d = s.last();
        let n = s.len() - 1;
        lemma_chained_deltas_union(t);
        assert forall|p: u64|
            compose_all(s).contains_key(p) <==> exists|k: int|
                0 <= k < s.len() && (#[trigger] s[k]).contains_key(p) by {
            if compose_all(t).contains_key(p) {
                let k = choose|k: int| 0 <= k < t.len() && (#[trigger] t[k]).contains_key(p);
                assert(s[k] == t[k]);
            }
            if exists|k: int| 0 <= k < s.len() && (#[trigger] s[k]).contains_key(p) {
                let k = choose|k: int| 0 <= k < s.len() && (#[trigger] s[k]).contains_key(p);
                if k < n {
                    assert(s[k] == t[k]);
                }
            }
        }
        assert forall|p: u64| #[trigger] compose_all(s).contains_key(p) implies exists|i: int, j: int|
            spans(s, p, i, j) && compose_all(s)[p] == (s[i][p].0, s[j][p].1) by {
            if compose_all(t).contains_key(p) {
                let (i, j) = choose|i: int, j: int|
                    spans(t, p, i, j) && compose_all(t)[p] == (t[i][p].0, t[j][p].1);
                assert(s[i] == t[i] && s[j] == t[j]);
                assert forall|k: int| 0 <= k < i implies !(#[trigger] s[k]).contains_key(p) by {
                    assert(s[k] == t[k]);
                }
                if d.contains_key(p) {
                    assert forall|k: int| n < k < s.len() implies !(#[trigger] s[k]).contains_key(p) by {}
                    assert(spans(s, p, i, n));
                } else {
                    assert forall|k: int| j < k < s.len() implies !(#[trigger] s[k]).contains_key(p) by {
                        if k < n {
                            assert(s[k] == t[k]);
                        }
                    }
                    assert(spans(s, p, i, j));
                }
            } else {
                assert forall|k: int| 0 <= k < n implies !(#[trigger] s[k]).contains_key(p) by {
                    assert(s[k] == t[k]);
                    if t[k].contains_key(p) {
                        assert(exists|k: int| 0 <= k < t.len() && (#[trigger] t[k]).contains_key(p));
                    }
                }
                assert(spans(s, p, n, n));
            }
        }
    }
}

/// A delta that would move some partition back from where the pending delta left it does not
/// chain, so extending with it is refused.
pub proof fn lemma_backward_delta_rejected(a: DeltaMap, b: DeltaMap, p: u64)
    requires
        a.contains_key(p),
        b.contains_key(p),
        b[p].0 < a[p].1,
    ensures
        !chains(a, b),
{
}

} // verus!
