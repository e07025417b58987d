use vstd::prelude::*;

use crate::digest::Digest;
use crate::node::subvec;

verus! {

/// The errors the maintenance operations report.
#[derive(Clone, Copy, Debug, PartialEq, Eq, Structural)]
pub enum TrieError {
    /// A root hash did not resolve to a stored node.
    UnknownRoot,
    /// A write would push a store past its configured byte budget.
    OutOfSpace,
    /// Stored bytes did not deserialize as a node, or an interior hash was
    /// missing: possible data corruption.
    CorruptNode,
    /// A fresh destination was requested but the destination already holds
    /// nodes.
    DestinationExists,
    /// A purge was asked to work in chunks of zero keys.
    InvalidBatchSize,
}

/// What a store is mathematically: its hash-to-bytes mapping, the bytes it
/// has consumed, and its byte budget.
pub ghost struct StoreView {
    pub nodes: Map<Seq<u8>, Seq<u8>>,
    pub used: nat,
    pub cap: nat,
}

/// The bytes one stored entry consumes: its 32-byte hash plus its payload.
pub open spec fn entry_cost(e: (Digest, Vec<u8>)) -> nat {
    32 + e.1@.len()
}

pub open spec fn entries_map(es: Seq<(Digest, Vec<u8>)>) -> Map<Seq<u8>, Seq<u8>>
    decreases es.len(),
{
    if es.len() == 0 {
        Map::empty()
    } else {
        entries_map(es.drop_last()).insert(es.last().0@, es.last().1@)
    }
}

pub open spec fn entries_cost(es: Seq<(Digest, Vec<u8>)>) -> nat
    decreases es.len(),
{
    if es.len() == 0 {
        0
    } else {
        entries_cost(es.drop_last()) + entry_cost(es.last())
    }
}

pub open spec fn distinct_keys(es: Seq<(Digest, Vec<u8>)>) -> bool {
    forall|i: int, j: int|
        0 <= i < j < es.len() ==> (#[trigger] es[i]).0@ != (#[trigger] es[j]).0@
}

pub proof fn lemma_entries_map_index(es: Seq<(Digest, Vec<u8>)>, i: int)
    requires
        distinct_keys(es),
        0 <= i < es.len(),
    ensures
        entries_map(es).contains_key(es[i].0@),
        entries_map(es)[es[i].0@] == es[i].1@,
    decreases es.len(),
{
    if i == es.len() - 1 {
    } else {
        lemma_entries_map_index(es.drop_last(), i);
        assert(es.drop_last()[i] == es[i]);
        assert(es[i].0@ != es.last().0@);
    }
}

pub proof fn lemma_entries_map_dom(es: Seq<(Digest, Vec<u8>)>)
    ensures
        forall|k: Seq<u8>|
            entries_map(es).contains_key(k) ==> exists|i: int|
                0 <= i < es.len() && (#[trigger] es[i]).0@ == k,
    decreases es.len(),
{
    if es.len() == 0 {
    } else {
        lemma_entries_map_dom(es.drop_last());
        assert forall|k: Seq<u8>| entries_map(es).contains_key(k) implies exists|i: int|
            0 <= i < es.len() && (#[trigger] es[i]).0@ == k by {
            if k == es.last().0@ {
                assert(es[es.len() - 1].0@ == k);
            } else {
                assert(entries_map(es.drop_last()).contains_key(k));
                let i = choose|i: int|
                    0 <= i < es.drop_last().len() && (#[trigger] es.drop_last()[i]).0@ == k;
                assert(es[i].0@ == k);
            }
        }
    }
}

pub proof fn lemma_entries_map_finite(es: Seq<(Digest, Vec<u8>)>)
    ensures
        entries_map(es).dom().finite(),
    decreases es.len(),
{
    if es.len() == 0 {
    } else {
        lemma_entries_map_finite(es.drop_last());
    }
}

pub proof fn lemma_entries_cost_take_le(es: Seq<(Digest, Vec<u8>)>, i: int)
    requires
        0 <= i <= es.len(),
    ensures
        entries_cost(es.take(i)) <= entries_cost(es),
    decreases es.len(),
{
    if i == es.len() {
        assert(es.take(i) =~= es);
    } else {
        assert(es.take(i) =~= es.drop_last().take(i));
        lemma_entries_cost_take_le(es.drop_last(), i);
    }
}

pub proof fn lemma_entries_cost_concat(a: Seq<(Digest, Vec<u8>)>, b: Seq<(Digest, Vec<u8>)>)
    ensures
        entries_cost(a + b) == entries_cost(a) + entries_cost(b),
    decreases b.len(),
{
    if b.len() == 0 {
        assert(a + b =~= a);
    } else {
        lemma_entries_cost_concat(a, b.drop_last());
        assert((a + b).drop_last() =~= a + b.drop_last());
        assert((a + b).last() == b.last());
    }
}

pub proof fn lemma_entries_map_concat(a: Seq<(Digest, Vec<u8>)>, b: Seq<(Digest, Vec<u8>)>)
    ensures
        entries_map(a + b) == entries_map(a).union_prefer_right(entries_map(b)),
    decreases b.len(),
{
    if b.len() == 0 {
        assert(a + b =~= a);
        assert(entries_map(a).union_prefer_right(entries_map(b)) =~= entries_map(a));
    } else {
        lemma_entries_map_concat(a, b.drop_last());
        assert((a + b).drop_last() =~= a + b.drop_last());
        assert((a + b).last() == b.last());
        assert(entries_map(a).union_prefer_right(
            entries_map(b.drop_last()).insert(b.last().0@, b.last().1@),
        ) =~= entries_map(a).union_prefer_right(entries_map(b.drop_last())).insert(
            b.last().0@,
            b.last().1@,
        ));
    }
}

/// A bounded, append-only, content-addressed node store.
///
/// Hashes map to node bytes; an entry, once written, is never overwritten
/// or deleted.  Writes land in all-or-nothing batches and the total bytes
/// held never pass the byte budget fixed at creation.
pub struct TrieStore {
    entries: Vec<(Digest, Vec<u8>)>,
    used: usize,
    cap: usize,
}

impl View for TrieStore {
    type V = StoreView;

    closed spec fn view(&self) -> StoreView {
        StoreView {
            nodes: entries_map(self.entries@),
            used: self.used as nat,
            cap: self.cap as nat,
        }
    }
}

impl TrieStore {
    /// Keys are stored once each, and the byte bookkeeping is exact.
    pub closed spec fn wf(&self) -> bool {
        distinct_keys(self.entries@) && self.used as nat == entries_cost(self.entries@)
            && self.used <= self.cap
    }

    pub proof fn lemma_wf_bounds(&self)
        requires
            self.wf(),
        ensures
            self@.used <= self@.cap,
            self@.nodes.dom().finite(),
    {
        lemma_entries_map_finite(self.entries@);
    }

    /// Opens a fresh, empty store with the given byte budget.
    pub fn new(cap: usize) -> (r: TrieStore)
        ensures
            r.wf(),
            r@.nodes == Map::<Seq<u8>, Seq<u8>>::empty(),
            r@.used == 0,
            r@.cap == cap,
    {
        TrieStore { entries: Vec::new(), used: 0, cap }
    }

    pub fn capacity(&self) -> (r: usize)
        ensures
            r == self@.cap,
    {
        self.cap
    }

    pub fn bytes_used(&self) -> (r: usize)
        ensures
            r == self@.used,
    {
        self.used
    }

    pub fn is_empty(&self) -> (r: bool)
        requires
            self.wf(),
        ensures
            r == (self@.nodes == Map::<Seq<u8>, Seq<u8>>::empty()),
    {
        if self.entries.len() == 0 {
            true
        } else {
            proof {
                lemma_entries_map_index(self.entries@, 0);
                assert(self@.nodes.contains_key(self.entries@[0].0@));
            }
            false
        }
    }

    /// Drops every entry, keeping the byte budget.
    pub fn clear(&mut self)
        ensures
            final(self).wf(),
            final(self)@.nodes == Map::<Seq<u8>, Seq<u8>>::empty(),
            final(self)@.used == 0,
            final(self)@.cap == old(self)@.cap,
    {
        self.entries = Vec::new();
        self.used = 0;
    }

    pub fn contains(&self, h: &Digest) -> (r: bool)
        requires
            self.wf(),
        ensures
            r == self@.nodes.contains_key(h@),
    {
        let mut i: usize = 0;
        while i < self.entries.len()
            invariant
                self.wf(),
                i <= self.entries@.len(),
                forall|j: int| 0 <= j < i ==> (#[trigger] self.entries@[j]).0@ != h@,
            decreases self.entries@.len() - i,
        {
            if self.entries[i].0.same_as(h) {
                proof {
                    lemma_entries_map_index(self.entries@, i as int);
                }
                return true;
            }
            i = i + 1;
        }
        proof {
            lemma_entries_map_dom(self.entries@);
        }
        false
    }

    /// Reads the bytes stored under a hash, if any.
    pub fn get(&self, h: &Digest) -> (r: Option<Vec<u8>>)
        requires
            self.wf(),
        ensures
            match r {
                Some(v) => self@.nodes.contains_key(h@) && v@ == self@.nodes[h@],
                None => !self@.nodes.contains_key(h@),
            },
    {
        let mut i: usize = 0;
        while i < self.entries.len()
            invariant
                self.wf(),
                i <= self.entries@.len(),
                forall|j: int| 0 <= j < i ==> (#[trigger] self.entries@[j]).0@ != h@,
            decreases self.entries@.len() - i,
        {
            if self.entries[i].0.same_as(h) {
                proof {
                    lemma_entries_map_index(self.entries@, i as int);
                }
                let v = subvec(&self.entries[i].1, 0, self.entries[i].1.len());
                proof {
                    assert(v@ =~= self.entries@[i as int].1@);
                }
                return Some(v);
            }
            i = i + 1;
        }
        proof {
            lemma_entries_map_dom(self.entries@);
        }
        None
    }

    /// Writes a batch of fresh entries atomically: either all land and the
    /// byte bookkeeping grows by their exact cost, or nothing changes and
    /// the write reports `OutOfSpace`.
    pub fn put_batch(&mut self, items: &Vec<(Digest, Vec<u8>)>) -> (r: Result<(), TrieError>)
        requires
            old(self).wf(),
            distinct_keys(items@),
            forall|i: int|
                0 <= i < items@.len() ==> !old(self)@.nodes.contains_key(
                    (#[trigger] items@[i]).0@,
                ),
        ensures
            final(self).wf(),
            final(self)@.cap == old(self)@.cap,
            old(self)@.used + entries_cost(items@) <= old(self)@.cap ==> r == Ok::<
                (),
                TrieError,
            >(()) && final(self)@.nodes == old(self)@.nodes.union_prefer_right(
                entries_map(items@),
            ) && final(self)@.used == old(self)@.used + entries_cost(items@),
            old(self)@.used + entries_cost(items@) > old(self)@.cap ==> r == Err::<
                (),
                TrieError,
            >(TrieError::OutOfSpace) && *final(self) == *old(self),
    {
        let mut total: usize = 0;
        let mut i: usize = 0;
        while i < items.len()
            invariant
                old(self).wf(),
                *self == *old(self),
                i <= items@.len(),
                total == entries_cost(items@.take(i as int)),
                self.used + total <= self.cap,
            decreases items@.len() - i,
        {
            let c = items[i].1.len();
            let room = self.cap - self.used - total;
            if room < 32 || c > room - 32 {
                proof {
                    assert(items@.take(i + 1).drop_last() =~= items@.take(i as int));
                    assert(items@.take(i + 1).last() == items@[i as int]);
                    lemma_entries_cost_take_le(items@, i + 1);
                    assert(old(self)@.used + entries_cost(items@) > old(self)@.cap);
                }
                return Err(TrieError::OutOfSpace);
            }
            total = total + 32 + c;
            proof {
                assert(items@.take(i + 1).drop_last() =~= items@.take(i as int));
                assert(items@.take(i + 1).last() == items@[i as int]);
            }
            i = i + 1;
        }
        proof {
            assert(items@.take(items@.len() as int) =~= items@);
        }
        let ghost old_nodes: Map<Seq<u8>, Seq<u8>> = entries_map(self.entries@);
        let ghost old_used: nat = self.used as nat;
        let mut k: usize = 0;
        while k < items.len()
            invariant
                distinct_keys(items@),
                forall|t: int|
                    0 <= t < items@.len() ==> !old_nodes.contains_key((#[trigger] items@[t]).0@),
                old_nodes == old(self)@.nodes,
                old_used == old(self)@.used,
                old_used + entries_cost(items@) <= self.cap as nat,
                self.cap == old(self).cap,
                k <= items@.len(),
                distinct_keys(self.entries@),
                entries_map(self.entries@) == old_nodes.union_prefer_right(
                    entries_map(items@.take(k as int)),
                ),
                self.used as nat == entries_cost(self.entries@),
                self.used as nat == old_used + entries_cost(items@.take(k as int)),
                forall|t: int|
                    k <= t < items@.len() ==> !entries_map(self.entries@).contains_key(
                        (#[trigger] items@[t]).0@,
                    ),
            decreases items@.len() - k,
        {
            let h = items[k].0;
            let c = items[k].1.len();
            let bts = subvec(&items[k].1, 0, c);
            let ghost pre: Seq<(Digest, Vec<u8>)> = self.entries@;
            proof {
                assert(bts@ =~= items@[k as int].1@);
                lemma_entries_cost_take_le(items@, k + 1);
                assert(items@.take(k + 1).drop_last() =~= items@.take(k as int));
                assert(items@.take(k + 1).last() == items@[k as int]);
            }
            self.entries.push((h, bts));
            self.used = self.used + 32 + c;
            proof {
                assert(self.entries@.drop_last() =~= pre);
                assert(self.entries@.last() == (h, bts));
                assert(entries_map(self.entries@) == entries_map(pre).insert(h@, bts@));
                assert(entries_map(self.entries@) =~= old_nodes.union_prefer_right(
                    entries_map(items@.take(k + 1)),
                ));
                // the pushed key is fresh, so distinctness is kept
                assert forall|i1: int| 0 <= i1 < pre.len() implies (#[trigger] pre[i1]).0@ != h@ by {
                    if pre[i1].0@ == h@ {
                        lemma_entries_map_index(pre, i1);
                    }
                }
                assert forall|i1: int, j1: int|
                    0 <= i1 < j1 < self.entries@.len() implies (#[trigger] self.entries@[i1]).0@
                    != (#[trigger] self.entries@[j1]).0@ by {
                    if j1 < self.entries@.len() - 1 {
                        assert(self.entries@[i1] == pre[i1] && self.entries@[j1] == pre[j1]);
                    } else {
                        assert(self.entries@[i1] == pre[i1]);
                        assert(self.entries@[j1].0@ == h@);
                    }
                }
                // later items stay absent from the grown map
                assert forall|t: int|
                    k + 1 <= t < items@.len() implies !entries_map(self.entries@).contains_key(
                    (#[trigger] items@[t]).0@,
                ) by {
                    assert(items@[t].0@ != items@[k as int].0@);
                }
            }
            k = k + 1;
        }
        proof {
            assert(items@.take(items@.len() as int) =~= items@);
        }
        Ok(())
    }

    /// Hands out every entry of the store, hashes and bytes, for an outside
    /// caller to persist or inspect.
    pub fn export_entries(&self) -> (r: Vec<(Digest, Vec<u8>)>)
        requires
            self.wf(),
        ensures
            distinct_keys(r@),
            entries_map(r@) == self@.nodes,
            r@.len() == self.entry_count_spec(),
    {
        let mut out: Vec<(Digest, Vec<u8>)> = Vec::new();
        let mut i: usize = 0;
        proof {
            assert(self.entries@.take(0) =~= Seq::<(Digest, Vec<u8>)>::empty());
        }
        while i < self.entries.len()
            invariant
                self.wf(),
                i <= self.entries@.len(),
                out@.len() == i,
                forall|j: int|
                    0 <= j < i ==> (#[trigger] out@[j]).0 == self.entries@[j].0 && out@[j].1@
                        == self.entries@[j].1@,
                distinct_keys(out@),
                entries_map(out@) == entries_map(self.entries@.take(i as int)),
            decreases self.entries@.len() - i,
        {
            let h = self.entries[i].0;
            let b = subvec(&self.entries[i].1, 0, self.entries[i].1.len());
            let ghost pre = out@;
            proof {
                assert(b@ =~= self.entries@[i as int].1@);
            }
            out.push((h, b));
            proof {
                assert(out@.drop_last() =~= pre);
                assert(self.entries@.take(i + 1).drop_last() =~= self.entries@.take(i as int));
                assert(self.entries@.take(i + 1).last() == self.entries@[i as int]);
                assert(entries_map(out@) =~= entries_map(self.entries@.take(i + 1)));
                assert forall|i1: int, j1: int|
                    0 <= i1 < j1 < out@.len() implies (#[trigger] out@[i1]).0@ != (
                #[trigger] out@[j1]).0@ by {
                    if j1 < out@.len() - 1 {
                        assert(out@[i1] == pre[i1] && out@[j1] == pre[j1]);
                    } else {
                        assert(out@[i1].0@ == self.entries@[i1].0@);
                        assert(out@[j1].0@ == self.entries@[i as int].0@);
                    }
                }
            }
            i = i + 1;
        }
        proof {
            assert(self.entries@.take(self.entries@.len() as int) =~= self.entries@);
        }
        out
    }

    /// How many distinct node entries the store holds.
    pub closed spec fn entry_count_spec(&self) -> nat {
        self.entries@.len()
    }

    pub fn entry_count(&self) -> (r: usize)
        ensures
            r == self.entry_count_spec(),
    {
        self.entries.len()
    }
}

} // verus!
