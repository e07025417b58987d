use vstd::prelude::*;
use vstd::set_lib::lemma_len_subset;

use crate::digest::Digest;
use crate::node::{child_hashes, decode, spec_decode, Node, NodeV};
use crate::store::{entries_cost, entries_map, lemma_entries_map_dom, lemma_entries_map_index, TrieError, TrieStore};
use crate::state::{find_idx, lemma_find_idx_props, spec_lookup, staged_wf};

verus! {

/// What to do with the destination store.
#[derive(Clone, Copy, Debug, PartialEq, Eq, Structural)]
pub enum DestinationOptions {
    /// The destination must start empty.
    New,
    /// Keep what the destination holds; skip nodes already present.
    Append,
    /// Drop what the destination holds, then copy.
    Overwrite,
}

/// Counts from one compaction run.
#[derive(Clone, Copy, Debug, PartialEq, Eq, Structural)]
pub struct CompactionStats {
    /// Distinct reachable nodes the traversal visited.
    pub visited: usize,
    /// Nodes actually written, excluding ones the destination already held.
    pub copied: usize,
    /// Bytes the destination grew by, hashes included.
    pub bytes_written: usize,
}

/// The hashes a sequence of digests names.
pub open spec fn dset(s: Seq<Digest>) -> Set<Seq<u8>> {
    Set::new(|h: Seq<u8>| exists|i: int| 0 <= i < s.len() && (#[trigger] s[i])@ == h)
}

pub open spec fn digests_distinct(s: Seq<Digest>) -> bool {
    forall|i: int, j: int| 0 <= i < j < s.len() ==> (#[trigger] s[i])@ != (#[trigger] s[j])@
}

pub proof fn lemma_dset_last(s: Seq<Digest>)
    requires
        s.len() > 0,
    ensures
        dset(s) == dset(s.drop_last()).insert(s.last()@),
{
    assert forall|h: Seq<u8>| dset(s).contains(h) implies dset(s.drop_last()).insert(
        s.last()@,
    ).contains(h) by {
        let i = choose|i: int| 0 <= i < s.len() && (#[trigger] s[i])@ == h;
        if i < s.len() - 1 {
            assert(s.drop_last()[i]@ == h);
        }
    }
    assert forall|h: Seq<u8>| dset(s.drop_last()).insert(s.last()@).contains(h) implies dset(
        s,
    ).contains(h) by {
        if h == s.last()@ {
            assert(s[s.len() - 1]@ == h);
        } else {
            let i = choose|i: int|
                0 <= i < s.drop_last().len() && (#[trigger] s.drop_last()[i])@ == h;
            assert(s[i]@ == h);
        }
    }
    assert(dset(s) =~= dset(s.drop_last()).insert(s.last()@));
}

pub proof fn lemma_dset_props(s: Seq<Digest>)
    ensures
        dset(s).finite(),
        digests_distinct(s) ==> dset(s).len() == s.len(),
    decreases s.len(),
{
    if s.len() == 0 {
        assert(dset(s) =~= Set::<Seq<u8>>::empty());
    } else {
        lemma_dset_props(s.drop_last());
        lemma_dset_last(s);
        if digests_distinct(s) {
            assert(digests_distinct(s.drop_last()));
            assert(!dset(s.drop_last()).contains(s.last()@)) by {
                if dset(s.drop_last()).contains(s.last()@) {
                    let i = choose|i: int|
                        0 <= i < s.drop_last().len() && (#[trigger] s.drop_last()[i])@
                            == s.last()@;
                    assert(s[i]@ == s[s.len() - 1]@);
                }
            }
        }
    }
}

/// A traversal step: `to` is a child hash of the decodable node at `from`.
pub open spec fn reach_step(m: Map<Seq<u8>, Seq<u8>>, from: Seq<u8>, to: Seq<u8>) -> bool {
    m.contains_key(from) && match spec_decode(m[from]) {
        Some(n) => child_hashes(n).contains(to),
        None => false,
    }
}

pub open spec fn reaches_n(m: Map<Seq<u8>, Seq<u8>>, roots: Set<Seq<u8>>, h: Seq<u8>, n: nat) -> bool
    decreases n,
{
    if n == 0 {
        roots.contains(h)
    } else {
        exists|g: Seq<u8>| reaches_n(m, roots, g, (n - 1) as nat) && reach_step(m, g, h)
    }
}

/// Every hash reachable from the root set through stored, decodable nodes,
/// the roots themselves included.
pub open spec fn reachable(m: Map<Seq<u8>, Seq<u8>>, roots: Set<Seq<u8>>) -> Set<Seq<u8>> {
    Set::new(|h: Seq<u8>| exists|n: nat| reaches_n(m, roots, h, n))
}

/// Every reachable hash resolves to stored bytes that decode as a node.
pub open spec fn source_ok(m: Map<Seq<u8>, Seq<u8>>, roots: Set<Seq<u8>>) -> bool {
    forall|h: Seq<u8>|
        reachable(m, roots).contains(h) ==> m.contains_key(h) && spec_decode(m[h]) is Some
}

/// The destination holds its original content unchanged, and anything else
/// it holds is a reachable source node copied verbatim.
pub open spec fn partial_copy_ok(
    dest_nodes: Map<Seq<u8>, Seq<u8>>,
    base: Map<Seq<u8>, Seq<u8>>,
    src: Map<Seq<u8>, Seq<u8>>,
    reach: Set<Seq<u8>>,
) -> bool {
    (forall|k: Seq<u8>| #[trigger]
        base.contains_key(k) ==> dest_nodes.contains_key(k) && dest_nodes[k] == base[k])
        && (forall|k: Seq<u8>| #[trigger]
        dest_nodes.contains_key(k) ==> base.contains_key(k) || (reach.contains(k)
            && src.contains_key(k) && dest_nodes[k] == src[k]))
}

/// The bytes a copy of the node set `s` out of `src` consumes: a 32-byte
/// hash plus the payload, per node.
pub open spec fn copy_cost(src: Map<Seq<u8>, Seq<u8>>, s: Set<Seq<u8>>) -> nat
    decreases s.len(),
{
    if !s.finite() || s.len() == 0 {
        0
    } else {
        let x = s.choose();
        32 + src[x].len() + copy_cost(src, s.remove(x))
    }
}

pub proof fn lemma_copy_cost_remove(src: Map<Seq<u8>, Seq<u8>>, s: Set<Seq<u8>>, x: Seq<u8>)
    requires
        s.finite(),
        s.contains(x),
    ensures
        copy_cost(src, s) == 32 + src[x].len() + copy_cost(src, s.remove(x)),
    decreases s.len(),
{
    if s.len() == 0 {
        assert(s =~= Set::<Seq<u8>>::empty());
    } else {
        let c = s.choose();
        if c == x {
        } else {
            lemma_copy_cost_remove(src, s.remove(c), x);
            lemma_copy_cost_remove(src, s.remove(x), c);
            assert(s.remove(c).remove(x) =~= s.remove(x).remove(c));
        }
    }
}

pub proof fn lemma_copy_cost_insert(src: Map<Seq<u8>, Seq<u8>>, s: Set<Seq<u8>>, x: Seq<u8>)
    requires
        s.finite(),
        !s.contains(x),
    ensures
        copy_cost(src, s.insert(x)) == copy_cost(src, s) + 32 + src[x].len(),
{
    lemma_copy_cost_remove(src, s.insert(x), x);
    assert(s.insert(x).remove(x) =~= s);
}

pub proof fn lemma_copy_cost_subset(src: Map<Seq<u8>, Seq<u8>>, a: Set<Seq<u8>>, b: Set<Seq<u8>>)
    requires
        b.finite(),
        a.subset_of(b),
    ensures
        copy_cost(src, a) <= copy_cost(src, b),
    decreases b.len(),
{
    lemma_len_subset(a, b);
    if b.len() == 0 {
        assert(a =~= Set::<Seq<u8>>::empty());
    } else {
        let c = b.choose();
        if a.contains(c) {
            lemma_copy_cost_remove(src, a, c);
            lemma_copy_cost_remove(src, b, c);
            lemma_copy_cost_subset(src, a.remove(c), b.remove(c));
        } else {
            lemma_copy_cost_remove(src, b, c);
            lemma_copy_cost_subset(src, a, b.remove(c));
        }
    }
}

/// The reachable part of the source mapping.
pub open spec fn restrict_reachable(m: Map<Seq<u8>, Seq<u8>>, roots: Set<Seq<u8>>) -> Map<
    Seq<u8>,
    Seq<u8>,
> {
    m.restrict(reachable(m, roots))
}

proof fn lemma_reaches_in(
    m: Map<Seq<u8>, Seq<u8>>,
    roots: Set<Seq<u8>>,
    vs: Set<Seq<u8>>,
    h: Seq<u8>,
    n: nat,
)
    requires
        roots.subset_of(vs),
        forall|a: Seq<u8>, b: Seq<u8>|
            vs.contains(a) && #[trigger] reach_step(m, a, b) ==> vs.contains(b),
        reaches_n(m, roots, h, n),
    ensures
        vs.contains(h),
    decreases n,
{
    if n == 0 {
    } else {
        let g = choose|g: Seq<u8>| reaches_n(m, roots, g, (n - 1) as nat) && reach_step(m, g, h);
        lemma_reaches_in(m, roots, vs, g, (n - 1) as nat);
    }
}

/// A set that holds the roots and is closed under traversal steps holds
/// every reachable hash.
pub proof fn lemma_reachable_closed(
    m: Map<Seq<u8>, Seq<u8>>,
    roots: Set<Seq<u8>>,
    vs: Set<Seq<u8>>,
)
    requires
        roots.subset_of(vs),
        forall|a: Seq<u8>, b: Seq<u8>|
            vs.contains(a) && #[trigger] reach_step(m, a, b) ==> vs.contains(b),
    ensures
        reachable(m, roots).subset_of(vs),
{
    assert forall|h: Seq<u8>| reachable(m, roots).contains(h) implies vs.contains(h) by {
        let n = choose|n: nat| reaches_n(m, roots, h, n);
        lemma_reaches_in(m, roots, vs, h, n);
    }
}

/// The child hashes of a decoded node, in node order.
fn node_children(n: &Node) -> (r: Vec<Digest>)
    ensures
        r@.map_values(|d: Digest| d@) == child_hashes(n@),
{
    let mut out: Vec<Digest> = Vec::new();
    match n {
        Node::Leaf { .. } => {
            proof {
                assert(out@.map_values(|d: Digest| d@) =~= child_hashes(n@));
            }
        }
        Node::Extension { child, .. } => {
            out.push(*child);
            proof {
                assert(out@.map_values(|d: Digest| d@) =~= child_hashes(n@));
            }
        }
        Node::Branch { children, .. } => {
            let mut i: usize = 0;
            while i < children.len()
                invariant
                    i <= children@.len(),
                    out@.len() == i,
                    forall|t: int| 0 <= t < i ==> (#[trigger] out@[t])@ == children@[t].1@,
                decreases children@.len() - i,
            {
                out.push(children[i].1);
                i = i + 1;
            }
            proof {
                assert(out@.map_values(|d: Digest| d@) =~= child_hashes(n@));
            }
        }
    }
    out
}

fn digests_contain(s: &Vec<Digest>, h: &Digest) -> (r: bool)
    ensures
        r == dset(s@).contains(h@),
{
    let mut i: usize = 0;
    while i < s.len()
        invariant
            i <= s@.len(),
            forall|j: int| 0 <= j < i ==> (#[trigger] s@[j])@ != h@,
        decreases s@.len() - i,
    {
        if s[i].same_as(h) {
            proof {
                assert(dset(s@).contains(h@));
            }
            return true;
        }
        i = i + 1;
    }
    proof {
        assert(!dset(s@).contains(h@));
    }
    false
}

/// Nodes queued between two destination commits.
const FLUSH_NODES: usize = 64;

/// Copies every node reachable from `live_roots` out of `source` into
/// `dest`, in batches, each batch committed atomically.
///
/// `New` insists on an empty destination, `Overwrite` clears it first, and
/// `Append` keeps what is there and skips any node hash already present.
/// On success the destination holds exactly what it held before plus the
/// reachable part of the source; every reachable node was visited exactly
/// once.  A reachable hash that is missing or undecodable in the source
/// stops the run with `CorruptNode`.  `OutOfSpace` comes only when the
/// bytes still to copy (`copy_cost` of the reachable stored nodes the
/// destination lacks) overrun the destination's byte budget, and it keeps
/// the batches already committed; conversely, when every live root
/// resolves, the reachable set is clean, and those bytes fit the budget,
/// the run is owed success.
#[verifier::rlimit(100)]
#[verifier::spinoff_prover]
#[verifier::loop_isolation(false)]
pub fn compact(
    source: &TrieStore,
    dest: &mut TrieStore,
    live_roots: &Vec<Digest>,
    mode: DestinationOptions,
) -> (r: Result<CompactionStats, TrieError>)
    requires
        source.wf(),
        old(dest).wf(),
    ensures
        final(dest).wf(),
        final(dest)@.cap == old(dest)@.cap,
        (mode == DestinationOptions::New && old(dest)@.nodes != Map::<Seq<u8>, Seq<u8>>::empty())
            <==> r == Err::<CompactionStats, TrieError>(TrieError::DestinationExists),
        r == Err::<CompactionStats, TrieError>(TrieError::DestinationExists) ==> *final(dest)
            == *old(dest),
        ({
            let base = if mode == DestinationOptions::Overwrite {
                Map::<Seq<u8>, Seq<u8>>::empty()
            } else {
                old(dest)@.nodes
            };
            let base_used: nat = if mode == DestinationOptions::Overwrite {
                0
            } else {
                old(dest)@.used
            };
            let rset = dset(live_roots@);
            let reach = reachable(source@.nodes, rset);
            &&& (r != Err::<CompactionStats, TrieError>(TrieError::DestinationExists) ==> ((r
                == Err::<CompactionStats, TrieError>(TrieError::UnknownRoot)) <==> exists|i: int|
                0 <= i < live_roots@.len() && !source@.nodes.contains_key(
                    (#[trigger] live_roots@[i])@,
                )))
            &&& (r == Err::<CompactionStats, TrieError>(TrieError::UnknownRoot)
                ==> final(dest)@.nodes == base)
            &&& (r matches Ok(stats) ==> source_ok(source@.nodes, rset) && final(dest)@.nodes
                == restrict_reachable(source@.nodes, rset).union_prefer_right(base)
                && stats.visited == reach.len() && stats.copied == reach.difference(
                base.dom(),
            ).len() && stats.bytes_written == final(dest)@.used - base_used)
            &&& (r == Err::<CompactionStats, TrieError>(TrieError::CorruptNode) ==> !source_ok(
                source@.nodes,
                rset,
            ))
            &&& ((r == Err::<CompactionStats, TrieError>(TrieError::CorruptNode) || r == Err::<
                CompactionStats,
                TrieError,
            >(TrieError::OutOfSpace)) ==> partial_copy_ok(
                final(dest)@.nodes,
                base,
                source@.nodes,
                reach,
            ))
            &&& (r == Err::<CompactionStats, TrieError>(TrieError::OutOfSpace) ==> base_used
                + copy_cost(
                    source@.nodes,
                    reach.intersect(source@.nodes.dom()).difference(base.dom()),
                ) > old(dest)@.cap)
            &&& ((mode == DestinationOptions::New ==> old(dest)@.nodes == Map::<
                Seq<u8>,
                Seq<u8>,
            >::empty()) && (forall|i: int|
                0 <= i < live_roots@.len() ==> source@.nodes.contains_key(
                    (#[trigger] live_roots@[i])@,
                )) && source_ok(source@.nodes, rset) && base_used + copy_cost(
                source@.nodes,
                reach.intersect(source@.nodes.dom()).difference(base.dom()),
            ) <= old(dest)@.cap ==> r matches Ok(_))
        }),
{
    match mode {
        DestinationOptions::New => {
            if !dest.is_empty() {
                return Err(TrieError::DestinationExists);
            }
        }
        DestinationOptions::Overwrite => {
            dest.clear();
        }
        DestinationOptions::Append => {}
    }
    let ghost base: Map<Seq<u8>, Seq<u8>> = if mode == DestinationOptions::Overwrite {
        Map::<Seq<u8>, Seq<u8>>::empty()
    } else {
        old(dest)@.nodes
    };
    let ghost base_used: nat = if mode == DestinationOptions::Overwrite {
        0
    } else {
        old(dest)@.used
    };
    proof {
        assert(dest@.nodes == base);
        assert(dest@.used == base_used);
    }
    let start_used = dest.bytes_used();
    let ghost rset = dset(live_roots@);
    let ghost src = source@.nodes;
    let ghost reach = reachable(src, rset);

    // every live root must resolve in the source
    let mut ri: usize = 0;
    while ri < live_roots.len()
        invariant
            source.wf(),
            ri <= live_roots@.len(),
            src == source@.nodes,
            forall|j: int|
                0 <= j < ri ==> source@.nodes.contains_key((#[trigger] live_roots@[j])@),
        decreases live_roots@.len() - ri,
    {
        if !source.contains(&live_roots[ri]) {
            return Err(TrieError::UnknownRoot);
        }
        ri = ri + 1;
    }

    let mut stack: Vec<Digest> = Vec::new();
    let mut si: usize = 0;
    while si < live_roots.len()
        invariant
            si <= live_roots@.len(),
            stack@.len() == si,
            forall|j: int| 0 <= j < si ==> (#[trigger] stack@[j]) == live_roots@[j],
        decreases live_roots@.len() - si,
    {
        stack.push(live_roots[si]);
        si = si + 1;
    }
    proof {
        assert forall|h: Seq<u8>| rset.contains(h) implies dset(stack@).contains(h) by {
            let i = choose|i: int| 0 <= i < live_roots@.len() && (#[trigger] live_roots@[i])@ == h;
            assert(stack@[i]@ == h);
        }
        assert forall|j: int| 0 <= j < stack@.len() implies reach.contains(
            (#[trigger] stack@[j])@,
        ) by {
            assert(reaches_n(src, rset, stack@[j]@, 0));
        }
        source.lemma_wf_bounds();
    }

    let mut visited: Vec<Digest> = Vec::new();
    let mut pending: Vec<(Digest, Vec<u8>)> = Vec::new();
    let mut copied: usize = 0;
    proof {
        assert(entries_map(pending@) =~= Map::<Seq<u8>, Seq<u8>>::empty());
        lemma_dset_props(visited@);
        assert(dset(visited@) =~= Set::<Seq<u8>>::empty());
        assert(dset(visited@).difference(base.dom()) =~= Set::<Seq<u8>>::empty());
        assert(copy_cost(src, Set::<Seq<u8>>::empty()) == 0);
    }

    while stack.len() > 0
        invariant
            source.wf(),
            dest.wf(),
            src == source@.nodes,
            rset == dset(live_roots@),
            reach == reachable(src, rset),
            dest@.cap == old(dest)@.cap,
            dest@.used >= base_used,
            digests_distinct(visited@),
            dset(visited@).finite(),
            // everything seen is reachable
            forall|j: int| 0 <= j < visited@.len() ==> reach.contains((#[trigger] visited@[j])@),
            forall|j: int| 0 <= j < stack@.len() ==> reach.contains((#[trigger] stack@[j])@),
            // every visited node resolved and decoded
            forall|j: int|
                0 <= j < visited@.len() ==> src.contains_key((#[trigger] visited@[j])@)
                    && spec_decode(src[visited@[j]@]) is Some,
            // children of visited nodes are visited or still queued
            forall|a: Seq<u8>, b: Seq<u8>|
                dset(visited@).contains(a) && #[trigger] reach_step(src, a, b) ==> dset(
                    visited@,
                ).contains(b) || dset(stack@).contains(b),
            // the roots are covered
            rset.subset_of(dset(visited@).union(dset(stack@))),
            // destination bookkeeping
            staged_wf(dest@, pending@),
            partial_copy_ok(dest@.nodes, base, src, reach),
            forall|k: Seq<u8>|
                dest@.nodes.contains_key(k) ==> base.contains_key(k) || dset(
                    visited@,
                ).contains(k),
            forall|j: int|
                0 <= j < visited@.len() ==> dest@.nodes.contains_key((#[trigger] visited@[j])@)
                    || entries_map(pending@).contains_key(visited@[j]@),
            forall|k: Seq<u8>| #[trigger]
                entries_map(pending@).contains_key(k) ==> dset(visited@).contains(k)
                    && reach.contains(k) && src.contains_key(k) && entries_map(pending@)[k]
                    == src[k],
            copied as nat == dset(visited@).difference(base.dom()).len(),
            copied <= visited@.len(),
            dest@.used + entries_cost(pending@) == base_used + copy_cost(
                src,
                dset(visited@).difference(base.dom()),
            ),
        decreases src.dom().difference(dset(visited@)).len(), stack@.len(),
    {
        let ghost stack_top = stack@;
        let h = stack.pop().unwrap();
        proof {
            assert(stack@ =~= stack_top.drop_last());
            assert(reach.contains(h@));
        }
        if !digests_contain(&visited, &h) {
            let bytes = match source.get(&h) {
                Some(b) => b,
                None => {
                    proof {
                        assert(reach.contains(h@) && !src.contains_key(h@));
                        assert(!source_ok(src, rset));
                    }
                    return Err(TrieError::CorruptNode);
                }
            };
            let node = match decode(&bytes) {
                Some(n) => n,
                None => {
                    proof {
                        assert(reach.contains(h@) && spec_decode(src[h@]) is None);
                        assert(!source_ok(src, rset));
                    }
                    return Err(TrieError::CorruptNode);
                }
            };
            let ghost vpre = visited@;
            visited.push(h);
            proof {
                assert(visited@.drop_last() =~= vpre);
                lemma_dset_last(visited@);
                assert(dset(visited@) == dset(vpre).insert(h@));
                assert(src.dom().difference(dset(visited@)) =~= src.dom().difference(
                    dset(vpre),
                ).remove(h@));
            }
            let kids = node_children(&node);
            let mut ki: usize = 0;
            let ghost stack_mid = stack@;
            proof {
                assert(forall|j: int|
                    0 <= j < stack_mid.len() ==> reach.contains((#[trigger] stack_mid[j])@));
            }
            while ki < kids.len()
                invariant
                    ki <= kids@.len(),
                    src.contains_key(h@),
                    spec_decode(src[h@]) == Some(node@),
                    kids@.map_values(|d: Digest| d@) == child_hashes(node@),
                    reach.contains(h@),
                    reach == reachable(src, rset),
                    src == source@.nodes,
                    stack@.len() == stack_mid.len() + ki,
                    forall|j: int| 0 <= j < stack_mid.len() ==> stack@[j] == stack_mid[j],
                    forall|j: int|
                        stack_mid.len() <= j < stack@.len() ==> (#[trigger] stack@[j])
                            == kids@[j - stack_mid.len()],
                decreases kids@.len() - ki,
            {
                stack.push(kids[ki]);
                ki = ki + 1;
            }
            proof {
                // each pushed child is reachable in one more step
                assert forall|j: int| 0 <= j < stack@.len() implies reach.contains(
                    (#[trigger] stack@[j])@,
                ) by {
                    if j < stack_mid.len() {
                        assert(stack@[j] == stack_mid[j]);
                        assert(reach.contains(stack_mid[j]@));
                    } else {
                        let kd = kids@[j - stack_mid.len()];
                        assert(child_hashes(node@).contains(kd@)) by {
                            assert(kids@.map_values(|d: Digest| d@)[j - stack_mid.len()] == kd@);
                        }
                        assert(reach_step(src, h@, kd@));
                        assert(reach.contains(h@));
                        let n0 = choose|n0: nat| reaches_n(src, rset, h@, n0);
                        assert(reaches_n(src, rset, kd@, n0 + 1));
                    }
                }
                // children of the newly visited node are all on the stack
                assert forall|a: Seq<u8>, b: Seq<u8>|
                    dset(visited@).contains(a) && #[trigger] reach_step(src, a, b) implies dset(
                    visited@,
                ).contains(b) || dset(stack@).contains(b) by {
                    if a == h@ {
                        let cs = child_hashes(node@);
                        assert(cs.contains(b));
                        let ci = choose|ci: int| 0 <= ci < cs.len() && cs[ci] == b;
                        assert(kids@.map_values(|d: Digest| d@)[ci] == b);
                        assert(stack@[stack_mid.len() + ci]@ == b);
                        assert(dset(stack@).contains(b));
                    } else {
                        assert(dset(vpre).contains(a));
                        if dset(stack_top).contains(b) {
                            let bi = choose|bi: int|
                                0 <= bi < stack_top.len() && (#[trigger] stack_top[bi])@ == b;
                            if bi < stack_top.len() - 1 {
                                assert(stack_mid[bi] == stack_top[bi]);
                                assert(stack@[bi]@ == b);
                            } else {
                                assert(stack_top[bi] == h);
                                assert(dset(visited@).contains(b));
                            }
                        }
                    }
                }
                // roots still covered
                assert forall|x: Seq<u8>| rset.contains(x) implies dset(visited@).union(
                    dset(stack@),
                ).contains(x) by {
                    if dset(stack_top).contains(x) {
                        let bi = choose|bi: int|
                            0 <= bi < stack_top.len() && (#[trigger] stack_top[bi])@ == x;
                        if bi < stack_top.len() - 1 {
                            assert(stack_mid[bi] == stack_top[bi]);
                            assert(stack@[bi]@ == x);
                        } else {
                            assert(stack_top[bi] == h);
                            assert(dset(visited@).contains(x));
                        }
                    } else {
                        assert(dset(vpre).contains(x));
                    }
                }
            }
            if !dest.contains(&h) {
                let ghost ppre = pending@;
                pending.push((h, bytes));
                proof {
                    assert(pending@.drop_last() =~= ppre);
                    assert(entries_map(pending@) == entries_map(ppre).insert(
                        h@,
                        pending@.last().1@,
                    ));
                    assert forall|i1: int| 0 <= i1 < ppre.len() implies (#[trigger] ppre[i1]).0@
                        != h@ by {
                        if ppre[i1].0@ == h@ {
                            lemma_entries_map_index(ppre, i1);
                        }
                    }
                    assert(!entries_map(ppre).contains_key(h@)) by {
                        lemma_entries_map_dom(ppre);
                    }
                    assert forall|i1: int, j1: int|
                        0 <= i1 < j1 < pending@.len() implies (#[trigger] pending@[i1]).0@ != (
                    #[trigger] pending@[j1]).0@ by {
                        if j1 < pending@.len() - 1 {
                            assert(pending@[i1] == ppre[i1] && pending@[j1] == ppre[j1]);
                        } else {
                            assert(pending@[i1] == ppre[i1]);
                        }
                    }
                    assert(!base.dom().contains(h@)) by {
                        assert(partial_copy_ok(dest@.nodes, base, src, reach));
                        if base.contains_key(h@) {
                            assert(dest@.nodes.contains_key(h@));
                        }
                    }
                    assert(dset(visited@).difference(base.dom()) =~= dset(vpre).difference(
                        base.dom(),
                    ).insert(h@));
                    assert(!dset(vpre).difference(base.dom()).contains(h@));
                    lemma_copy_cost_insert(src, dset(vpre).difference(base.dom()), h@);
                    assert(entries_cost(pending@) == entries_cost(ppre) + 32 + bytes@.len());
                }
                let vcount = visited.len();
                proof {
                    assert(copied < vcount);
                }
                copied = copied + 1;
            } else {
                proof {
                    assert(base.contains_key(h@));
                    assert(dset(visited@).difference(base.dom()) =~= dset(vpre).difference(
                        base.dom(),
                    ));
                }
            }
            if pending.len() >= FLUSH_NODES {
                let ghost pend = pending@;
                let ghost pm = entries_map(pend);
                let ghost dpre = dest@.nodes;
                proof {
                    assert(forall|t: int|
                        0 <= t < pend.len() ==> !dpre.contains_key((#[trigger] pend[t]).0@));
                }
                match dest.put_batch(&pending) {
                    Ok(()) => {
                        proof {
                            lemma_entries_map_dom(pend);
                            assert forall|k: Seq<u8>| base.contains_key(k) implies
                                dest@.nodes.contains_key(k) && dest@.nodes[k] == base[k] by {
                                assert(partial_copy_ok(dpre, base, src, reach));
                                assert(dpre.contains_key(k) && dpre[k] == base[k]);
                                if pm.contains_key(k) {
                                    let t = choose|t: int|
                                        0 <= t < pend.len() && (#[trigger] pend[t]).0@ == k;
                                    assert(!dpre.contains_key(pend[t].0@));
                                }
                            }
                            assert forall|j: int|
                                0 <= j < visited@.len() implies dest@.nodes.contains_key(
                                (#[trigger] visited@[j])@,
                            ) by {
                                assert(dpre.contains_key(visited@[j]@) || pm.contains_key(
                                    visited@[j]@,
                                ));
                            }
                        }
                        pending = Vec::new();
                        proof {
                            assert(entries_map(pending@) =~= Map::<Seq<u8>, Seq<u8>>::empty());
                            assert(entries_cost(pending@) == 0);
                        }
                    }
                    Err(_) => {
                        proof {
                            let small = dset(visited@).difference(base.dom());
                            let parent = reach.intersect(src.dom()).difference(base.dom());
                            source.lemma_wf_bounds();
                            lemma_len_subset(reach.intersect(src.dom()), src.dom());
                            assert forall|x: Seq<u8>| small.contains(x) implies parent.contains(
                                x,
                            ) by {
                                let j = choose|j: int|
                                    0 <= j < visited@.len() && (#[trigger] visited@[j])@ == x;
                            }
                            lemma_copy_cost_subset(src, small, parent);
                        }
                        return Err(TrieError::OutOfSpace);
                    }
                }
            }
        } else {
            proof {
                assert(dset(visited@).contains(h@));
                assert forall|a: Seq<u8>, b: Seq<u8>|
                    dset(visited@).contains(a) && #[trigger] reach_step(src, a, b) implies dset(
                    visited@,
                ).contains(b) || dset(stack@).contains(b) by {
                    if dset(stack_top).contains(b) && !dset(visited@).contains(b) {
                        let bi = choose|bi: int|
                            0 <= bi < stack_top.len() && (#[trigger] stack_top[bi])@ == b;
                        if bi < stack_top.len() - 1 {
                            assert(stack@[bi]@ == b);
                        } else {
                            assert(stack_top[bi] == h);
                        }
                    }
                }
                assert forall|x: Seq<u8>| rset.contains(x) implies dset(visited@).union(
                    dset(stack@),
                ).contains(x) by {
                    if dset(stack_top).contains(x) && !dset(visited@).contains(x) {
                        let bi = choose|bi: int|
                            0 <= bi < stack_top.len() && (#[trigger] stack_top[bi])@ == x;
                        if bi < stack_top.len() - 1 {
                            assert(stack@[bi]@ == x);
                        } else {
                            assert(stack_top[bi] == h);
                        }
                    }
                }
            }
        }
    }
    // commit what is still queued
    let ghost pend = pending@;
    let ghost pm = entries_map(pend);
    let ghost dpre = dest@.nodes;
    proof {
        assert(partial_copy_ok(dpre, base, src, reach));
        assert(forall|t: int|
            0 <= t < pend.len() ==> !dpre.contains_key((#[trigger] pend[t]).0@));
        assert forall|t: int|
            0 <= t < pend.len() implies dset(visited@).contains((#[trigger] pend[t]).0@)
                && reach.contains(pend[t].0@) && src.contains_key(pend[t].0@) && pend[t].1@
                == src[pend[t].0@] by {
            lemma_entries_map_index(pend, t);
            assert(entries_map(pend).contains_key(pend[t].0@));
        }
    }
    match dest.put_batch(&pending) {
        Ok(()) => {}
        Err(_) => {
            proof {
                let small = dset(visited@).difference(base.dom());
                let parent = reach.intersect(src.dom()).difference(base.dom());
                source.lemma_wf_bounds();
                lemma_len_subset(reach.intersect(src.dom()), src.dom());
                assert forall|x: Seq<u8>| small.contains(x) implies parent.contains(x) by {
                    let j = choose|j: int|
                        0 <= j < visited@.len() && (#[trigger] visited@[j])@ == x;
                }
                lemma_copy_cost_subset(src, small, parent);
            }
            return Err(TrieError::OutOfSpace);
        }
    }
    proof {
        lemma_entries_map_dom(pend);
        assert(dset(stack@) =~= Set::<Seq<u8>>::empty());
        assert forall|a: Seq<u8>, b: Seq<u8>|
            dset(visited@).contains(a) && #[trigger] reach_step(src, a, b) implies dset(
            visited@,
        ).contains(b) by {}
        assert(rset.subset_of(dset(visited@)));
        lemma_reachable_closed(src, rset, dset(visited@));
        assert(reach =~= dset(visited@));
        lemma_dset_props(visited@);
        let ru = restrict_reachable(src, rset).union_prefer_right(base);
        assert forall|k: Seq<u8>| dest@.nodes.contains_key(k) implies ru.contains_key(k)
            && dest@.nodes[k] == ru[k] by {
            if pm.contains_key(k) {
                let t = choose|t: int| 0 <= t < pend.len() && (#[trigger] pend[t]).0@ == k;
                lemma_entries_map_index(pend, t);
                assert(reach.contains(k) && src.contains_key(k) && pm[k] == src[k]);
                assert(restrict_reachable(src, rset).contains_key(k));
                assert(!base.contains_key(k)) by {
                    if base.contains_key(k) {
                        assert(dpre.contains_key(k));
                        assert(!dpre.contains_key(pend[t].0@));
                    }
                }
            } else {
                assert(dpre.contains_key(k));
                if !base.contains_key(k) {
                    assert(reach.contains(k) && src.contains_key(k) && dpre[k] == src[k]);
                    assert(restrict_reachable(src, rset).contains_key(k));
                }
            }
        }
        assert forall|k: Seq<u8>| ru.contains_key(k) implies dest@.nodes.contains_key(k) by {
            if base.contains_key(k) {
                assert(dpre.contains_key(k));
            } else {
                assert(restrict_reachable(src, rset).contains_key(k));
                assert(reach.contains(k));
                assert(dset(visited@).contains(k));
                let j = choose|j: int|
                    0 <= j < visited@.len() && (#[trigger] visited@[j])@ == k;
                assert(dpre.contains_key(k) || pm.contains_key(k));
            }
        }
        assert(dest@.nodes =~= ru);
        // partial_copy_ok carries over the final commit too
        assert forall|k: Seq<u8>| base.contains_key(k) implies dest@.nodes.contains_key(k)
            && dest@.nodes[k] == base[k] by {
            assert(dpre.contains_key(k) && dpre[k] == base[k]);
            if pm.contains_key(k) {
                let t = choose|t: int| 0 <= t < pend.len() && (#[trigger] pend[t]).0@ == k;
                assert(!dpre.contains_key(pend[t].0@));
            }
        }
    }
    let visited_count = visited.len();
    let end_used = dest.bytes_used();
    Ok(CompactionStats { visited: visited_count, copied, bytes_written: end_used - start_used })
}

/// Walking a trie touches only nodes reachable from its root, so a
/// destination that agrees with the source on the reachable set answers
/// every lookup below a reachable node exactly as the source does.
pub proof fn lemma_lookup_in_copy(
    src: Map<Seq<u8>, Seq<u8>>,
    dst: Map<Seq<u8>, Seq<u8>>,
    roots: Set<Seq<u8>>,
    h: Seq<u8>,
    key: Seq<u8>,
)
    requires
        reachable(src, roots).contains(h),
        forall|g: Seq<u8>|
            reachable(src, roots).contains(g) ==> (#[trigger] dst.contains_key(g))
                == src.contains_key(g) && (src.contains_key(g) ==> dst[g] == src[g]),
    ensures
        spec_lookup(dst, h, key) == spec_lookup(src, h, key),
    decreases key.len(),
{
    if !src.contains_key(h) {
    } else {
        assert(dst[h] == src[h]);
        let n0 = choose|n0: nat| reaches_n(src, roots, h, n0);
        match spec_decode(src[h]) {
            None => {}
            Some(NodeV::Leaf { .. }) => {}
            Some(NodeV::Extension { prefix, child }) => {
                if 1 <= prefix.len() && prefix.len() <= key.len() && key.take(
                    prefix.len() as int,
                ) == prefix {
                    assert(child_hashes(spec_decode(src[h]).unwrap()).contains(child)) by {
                        assert(child_hashes(spec_decode(src[h]).unwrap()) == seq![child]);
                        assert(seq![child][0] == child);
                    }
                    assert(reach_step(src, h, child));
                    assert(reaches_n(src, roots, child, n0 + 1));
                    lemma_lookup_in_copy(src, dst, roots, child, key.skip(prefix.len() as int));
                }
            },
            Some(NodeV::Branch { value, children }) => {
                if key.len() > 0 {
                    let i = find_idx(children, key.first());
                    lemma_find_idx_props(children, key.first());
                    if i >= 0 {
                        let c = children[i].1;
                        assert(child_hashes(spec_decode(src[h]).unwrap()).contains(c)) by {
                            assert(child_hashes(spec_decode(src[h]).unwrap()) == children
                                .map_values(|p: (u8, Seq<u8>)| p.1));
                            assert(children.map_values(|p: (u8, Seq<u8>)| p.1)[i] == c);
                        }
                        assert(reach_step(src, h, c));
                        assert(reaches_n(src, roots, c, n0 + 1));
                        lemma_lookup_in_copy(src, dst, roots, c, key.skip(1));
                    }
                }
            },
        }
    }
}

/// Compacting into an empty destination preserves every read below a live
/// root: each key answers the same against the copy as against the source.
pub proof fn lemma_compaction_preserves_reads(
    src: Map<Seq<u8>, Seq<u8>>,
    roots: Set<Seq<u8>>,
    root: Seq<u8>,
    key: Seq<u8>,
)
    requires
        roots.contains(root),
    ensures
        spec_lookup(restrict_reachable(src, roots), root, key) == spec_lookup(src, root, key),
{
    assert(reaches_n(src, roots, root, 0));
    assert(reachable(src, roots).contains(root));
    let dst = restrict_reachable(src, roots);
    assert forall|g: Seq<u8>| reachable(src, roots).contains(g) implies (#[trigger]
    dst.contains_key(g)) == src.contains_key(g) && (src.contains_key(g) ==> dst[g]
        == src[g]) by {}
    lemma_lookup_in_copy(src, dst, roots, root, key);
}

/// Appending the same live root set a second time changes nothing: the
/// destination after two appends holds exactly what it held after one.
pub proof fn lemma_append_idempotent(
    src: Map<Seq<u8>, Seq<u8>>,
    roots: Set<Seq<u8>>,
    base: Map<Seq<u8>, Seq<u8>>,
)
    ensures
        ({
            let once = restrict_reachable(src, roots).union_prefer_right(base);
            restrict_reachable(src, roots).union_prefer_right(once) == once
        }),
{
    let once = restrict_reachable(src, roots).union_prefer_right(base);
    assert(restrict_reachable(src, roots).union_prefer_right(once) =~= once);
}

/// Once a destination holds the reachable set, appending the same live set
/// again has nothing left to copy: the bytes still owed are zero, so by
/// `compact`'s contract the second append run is owed success and, by
/// `lemma_append_idempotent`, leaves the destination content as it stands.
pub proof fn lemma_append_again_costs_nothing(
    src: Map<Seq<u8>, Seq<u8>>,
    roots: Set<Seq<u8>>,
    base: Map<Seq<u8>, Seq<u8>>,
)
    ensures
        copy_cost(
            src,
            reachable(src, roots).intersect(src.dom()).difference(
                restrict_reachable(src, roots).union_prefer_right(base).dom(),
            ),
        ) == 0,
{
    let once = restrict_reachable(src, roots).union_prefer_right(base);
    assert(reachable(src, roots).intersect(src.dom()).difference(once.dom()) =~= Set::<
        Seq<u8>,
    >::empty());
    assert(copy_cost(src, Set::<Seq<u8>>::empty()) == 0);
}

/// Reads below a live root are preserved by an append as well, as long as
/// the destination's previous content does not disagree with the source on
/// any reachable hash.  Stores built by this library are content-addressed,
/// so two stores holding the same hash hold it for the same bytes; a
/// hand-assembled destination that binds a reachable hash to other bytes is
/// the one input left out here.
pub proof fn lemma_append_preserves_reads(
    src: Map<Seq<u8>, Seq<u8>>,
    roots: Set<Seq<u8>>,
    base: Map<Seq<u8>, Seq<u8>>,
    root: Seq<u8>,
    key: Seq<u8>,
)
    requires
        roots.contains(root),
        forall|h: Seq<u8>|
            reachable(src, roots).contains(h) && #[trigger] base.contains_key(h)
                ==> src.contains_key(h) && base[h] == src[h],
    ensures
        spec_lookup(restrict_reachable(src, roots).union_prefer_right(base), root, key)
            == spec_lookup(src, root, key),
{
    let dst = restrict_reachable(src, roots).union_prefer_right(base);
    assert(reaches_n(src, roots, root, 0));
    assert(reachable(src, roots).contains(root));
    assert forall|g: Seq<u8>| reachable(src, roots).contains(g) implies (#[trigger]
    dst.contains_key(g)) == src.contains_key(g) && (src.contains_key(g) ==> dst[g]
        == src[g]) by {
        if base.contains_key(g) {
            assert(src.contains_key(g) && base[g] == src[g]);
        } else {
            if src.contains_key(g) {
                assert(restrict_reachable(src, roots).contains_key(g));
            }
        }
    }
    lemma_lookup_in_copy(src, dst, roots, root, key);
}

} // verus!
