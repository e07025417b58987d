use vstd::prelude::*;

use crate::digest::{blake2b_256, hash_bytes, Digest};
use crate::node::{decode, encode, node_wf, spec_decode, spec_encode, subvec, Node, NodeV};
use crate::store::{
    distinct_keys, entries_cost, entries_map, lemma_entries_map_dom, lemma_entries_map_index,
    StoreView, TrieError, TrieStore,
};

verus! {

// ---------------------------------------------------------------------------
// The mathematical reading of a trie held in a hash-to-bytes map.
// ---------------------------------------------------------------------------

/// Nodes staged for one atomic commit: distinct fresh hashes on top of a
/// base store.
pub open spec fn staged_wf(s: StoreView, staged: Seq<(Digest, Vec<u8>)>) -> bool {
    distinct_keys(staged) && forall|i: int|
        0 <= i < staged.len() ==> !s.nodes.contains_key((#[trigger] staged[i]).0@)
}

/// The node mapping a reader sees while a commit is being staged.
pub open spec fn combined(base: Map<Seq<u8>, Seq<u8>>, staged: Seq<(Digest, Vec<u8>)>) -> Map<
    Seq<u8>,
    Seq<u8>,
> {
    base.union_prefer_right(entries_map(staged))
}

/// Index of the first child slot for byte `b`, or -1.
pub open spec fn find_idx(cs: Seq<(u8, Seq<u8>)>, b: u8) -> int
    decreases cs.len(),
{
    if cs.len() == 0 {
        -1
    } else if cs.first().0 == b {
        0
    } else {
        let r = find_idx(cs.drop_first(), b);
        if r < 0 {
            -1
        } else {
            1 + r
        }
    }
}

pub proof fn lemma_find_idx_props(cs: Seq<(u8, Seq<u8>)>, b: u8)
    ensures
        find_idx(cs, b) < 0 ==> forall|j: int| 0 <= j < cs.len() ==> (#[trigger] cs[j]).0 != b,
        find_idx(cs, b) >= 0 ==> find_idx(cs, b) < cs.len() && cs[find_idx(cs, b)].0 == b
            && forall|j: int| 0 <= j < find_idx(cs, b) ==> (#[trigger] cs[j]).0 != b,
    decreases cs.len(),
{
    if cs.len() == 0 {
    } else if cs.first().0 == b {
    } else {
        lemma_find_idx_props(cs.drop_first(), b);
        assert(forall|j: int| 1 <= j < cs.len() ==> cs[j] == cs.drop_first()[j - 1]);
    }
}

/// What walking the trie from node hash `h` with remaining key `key`
/// yields: `None` names a broken store (missing or undecodable node),
/// `Some(None)` an absent key, `Some(Some(v))` the value stored for the key.
pub open spec fn spec_lookup(m: Map<Seq<u8>, Seq<u8>>, h: Seq<u8>, key: Seq<u8>) -> Option<
    Option<Seq<u8>>,
>
    decreases key.len(),
{
    if !m.contains_key(h) {
        None
    } else {
        match spec_decode(m[h]) {
            None => None,
            Some(NodeV::Leaf { suffix, value }) => if suffix == key {
                Some(Some(value))
            } else {
                Some(None)
            },
            Some(NodeV::Extension { prefix, child }) => {
                if 1 <= prefix.len() && prefix.len() <= key.len() && key.take(
                    prefix.len() as int,
                ) == prefix {
                    spec_lookup(m, child, key.skip(prefix.len() as int))
                } else {
                    Some(None)
                }
            },
            Some(NodeV::Branch { value, children }) => {
                if key.len() == 0 {
                    Some(value)
                } else {
                    let i = find_idx(children, key.first());
                    if i >= 0 {
                        spec_lookup(m, children[i].1, key.skip(1))
                    } else {
                        Some(None)
                    }
                }
            },
        }
    }
}

/// Content-addressed insertion of one node's bytes: a hash already present
/// is left as it stands.  Returns the map afterwards, the bytes the store
/// grows by, and the node's hash.
pub open spec fn spec_put(m: Map<Seq<u8>, Seq<u8>>, n: NodeV) -> (Map<Seq<u8>, Seq<u8>>, nat, Seq<
    u8,
>) {
    let bytes = spec_encode(n);
    let h = blake2b_256(bytes);
    if m.contains_key(h) {
        (m, 0, h)
    } else {
        (m.insert(h, bytes), 32 + bytes.len(), h)
    }
}

// ---------------------------------------------------------------------------
// Executable helpers over the staged overlay.
// ---------------------------------------------------------------------------

fn staged_find(staged: &Vec<(Digest, Vec<u8>)>, h: &Digest) -> (r: Option<Vec<u8>>)
    requires
        distinct_keys(staged@),
    ensures
        match r {
            Some(v) => entries_map(staged@).contains_key(h@) && v@ == entries_map(staged@)[h@],
            None => !entries_map(staged@).contains_key(h@),
        },
{
    let mut i: usize = 0;
    while i < staged.len()
        invariant
            distinct_keys(staged@),
            i <= staged@.len(),
            forall|j: int| 0 <= j < i ==> (#[trigger] staged@[j]).0@ != h@,
        decreases staged@.len() - i,
    {
        if staged[i].0.same_as(h) {
            proof {
                lemma_entries_map_index(staged@, i as int);
            }
            let v = subvec(&staged[i].1, 0, staged[i].1.len());
            proof {
                assert(v@ =~= staged@[i as int].1@);
            }
            return Some(v);
        }
        i = i + 1;
    }
    proof {
        lemma_entries_map_dom(staged@);
    }
    None
}

/// Reads node bytes through the staged overlay, then the base store.
fn get_combined(store: &TrieStore, staged: &Vec<(Digest, Vec<u8>)>, h: &Digest) -> (r: Option<
    Vec<u8>,
>)
    requires
        store.wf(),
        staged_wf(store@, staged@),
    ensures
        match r {
            Some(v) => combined(store@.nodes, staged@).contains_key(h@) && v@ == combined(
                store@.nodes,
                staged@,
            )[h@],
            None => !combined(store@.nodes, staged@).contains_key(h@),
        },
{
    match staged_find(staged, h) {
        Some(v) => Some(v),
        None => store.get(h),
    }
}

/// Stages a node for commit and hands back its hash; bytes already present
/// under that hash, staged or stored, are not written again.
fn put_staged(store: &TrieStore, staged: &mut Vec<(Digest, Vec<u8>)>, node: &Node) -> (r: Digest)
    requires
        store.wf(),
        staged_wf(store@, old(staged)@),
        node_wf(node@),
    ensures
        staged_wf(store@, final(staged)@),
        ({
            let (m2, delta, h) = spec_put(combined(store@.nodes, old(staged)@), node@);
            r@ == h && combined(store@.nodes, final(staged)@) == m2 && entries_cost(
                final(staged)@,
            ) == entries_cost(old(staged)@) + delta
        }),
{
    let bytes = encode(node);
    let blen = bytes.len();
    let d = hash_bytes(&bytes);
    if store.contains(&d) {
        proof {
            assert(combined(store@.nodes, staged@).contains_key(d@));
        }
        return d;
    }
    match staged_find(staged, &d) {
        Some(_) => {
            proof {
                assert(combined(store@.nodes, staged@).contains_key(d@));
            }
            d
        }
        None => {
            let ghost pre: Seq<(Digest, Vec<u8>)> = staged@;
            staged.push((d, bytes));
            proof {
                assert(staged@.drop_last() =~= pre);
                assert(staged@.last() == (d, staged@.last().1));
                assert(staged@.last().0@ == d@ && staged@.last().1@ == spec_encode(node@));
                assert(entries_map(staged@) == entries_map(pre).insert(
                    d@,
                    staged@.last().1@,
                ));
                assert(combined(store@.nodes, staged@) =~= combined(
                    store@.nodes,
                    pre,
                ).insert(d@, spec_encode(node@)));
                assert forall|i1: int| 0 <= i1 < pre.len() implies (#[trigger] pre[i1]).0@
                    != d@ by {
                    if pre[i1].0@ == d@ {
                        lemma_entries_map_index(pre, i1);
                    }
                }
                assert forall|i1: int, j1: int|
                    0 <= i1 < j1 < staged@.len() implies (#[trigger] staged@[i1]).0@ != (
                #[trigger] staged@[j1]).0@ by {
                    if j1 < staged@.len() - 1 {
                        assert(staged@[i1] == pre[i1] && staged@[j1] == pre[j1]);
                    } else {
                        assert(staged@[i1] == pre[i1]);
                    }
                }
            }
            d
        }
    }
}

/// Compares stored bytes with the tail of a key.
fn eq_tail(a: &Vec<u8>, key: &Vec<u8>, pos: usize) -> (r: bool)
    requires
        pos <= key@.len(),
    ensures
        r == (a@ == key@.skip(pos as int)),
{
    let klen = key.len();
    if a.len() != klen - pos {
        return false;
    }
    let mut i: usize = 0;
    while i < a.len()
        invariant
            pos <= key@.len(),
            key@.len() <= usize::MAX,
            a@.len() == key@.len() - pos,
            i <= a@.len(),
            forall|j: int| 0 <= j < i ==> a@[j] == key@[pos + j],
        decreases a@.len() - i,
    {
        if a[i] != key[pos + i] {
            proof {
                assert(a@[i as int] != key@.skip(pos as int)[i as int]);
            }
            return false;
        }
        i = i + 1;
    }
    proof {
        assert(a@ =~= key@.skip(pos as int));
    }
    true
}

/// Does `p` match the key bytes starting at `pos`?
fn matches_prefix(p: &Vec<u8>, key: &Vec<u8>, pos: usize) -> (r: bool)
    requires
        pos <= key@.len(),
    ensures
        r == (p@.len() <= key@.len() - pos && key@.skip(pos as int).take(p@.len() as int) == p@),
{
    let klen = key.len();
    if p.len() > klen - pos {
        return false;
    }
    let mut i: usize = 0;
    while i < p.len()
        invariant
            pos <= key@.len(),
            key@.len() <= usize::MAX,
            p@.len() <= key@.len() - pos,
            i <= p@.len(),
            forall|j: int| 0 <= j < i ==> p@[j] == key@[pos + j],
        decreases p@.len() - i,
    {
        if p[i] != key[pos + i] {
            proof {
                assert(key@.skip(pos as int).take(p@.len() as int)[i as int] != p@[i as int]);
            }
            return false;
        }
        i = i + 1;
    }
    proof {
        assert(key@.skip(pos as int).take(p@.len() as int) =~= p@);
    }
    true
}

/// First child slot for byte `b` in a decoded branch table.
fn find_child(children: &Vec<(u8, Digest)>, b: u8) -> (r: Option<usize>)
    ensures
        ({
            let cv = children@.map_values(|p: (u8, Digest)| (p.0, p.1@));
            match r {
                Some(i) => i < children@.len() && find_idx(cv, b) == i as int,
                None => find_idx(cv, b) == -1,
            }
        }),
{
    let ghost cv = children@.map_values(|p: (u8, Digest)| (p.0, p.1@));
    proof {
        lemma_find_idx_props(cv, b);
    }
    let mut i: usize = 0;
    while i < children.len()
        invariant
            cv == children@.map_values(|p: (u8, Digest)| (p.0, p.1@)),
            i <= children@.len(),
            forall|j: int| 0 <= j < i ==> (#[trigger] cv[j]).0 != b,
            find_idx(cv, b) < 0 ==> forall|j: int| 0 <= j < cv.len() ==> (#[trigger] cv[j]).0 != b,
            find_idx(cv, b) >= 0 ==> find_idx(cv, b) < cv.len() && cv[find_idx(cv, b)].0 == b
                && forall|j: int| 0 <= j < find_idx(cv, b) ==> (#[trigger] cv[j]).0 != b,
        decreases children@.len() - i,
    {
        if children[i].0 == b {
            proof {
                assert(cv[i as int].0 == b);
                assert(find_idx(cv, b) >= 0);
                assert(find_idx(cv, b) == i as int);
            }
            return Some(i);
        }
        i = i + 1;
    }
    None
}

/// Walks the trie from `h`, reading through the staged overlay.
fn lookup_at(
    store: &TrieStore,
    staged: &Vec<(Digest, Vec<u8>)>,
    h: &Digest,
    key: &Vec<u8>,
    pos: usize,
) -> (r: Result<Option<Vec<u8>>, ()>)
    requires
        store.wf(),
        staged_wf(store@, staged@),
        pos <= key@.len(),
    ensures
        match spec_lookup(combined(store@.nodes, staged@), h@, key@.skip(pos as int)) {
            None => r is Err,
            Some(None) => r == Ok::<Option<Vec<u8>>, ()>(None),
            Some(Some(v)) => r matches Ok(Some(b)) && b@ == v,
        },
    decreases key@.len() - pos,
{
    let ghost m = combined(store@.nodes, staged@);
    let ghost krest = key@.skip(pos as int);
    let klen = key.len();
    let bytes = match get_combined(store, staged, h) {
        Some(b) => b,
        None => {
            return Err(());
        }
    };
    let node = match decode(&bytes) {
        Some(n) => n,
        None => {
            return Err(());
        }
    };
    match node {
        Node::Leaf { suffix, value } => {
            if eq_tail(&suffix, key, pos) {
                Ok(Some(value))
            } else {
                Ok(None)
            }
        }
        Node::Extension { prefix, child } => {
            if matches_prefix(&prefix, key, pos) {
                proof {
                    assert(krest.take(prefix@.len() as int) == prefix@);
                    assert(krest.skip(prefix@.len() as int) =~= key@.skip(
                        pos + prefix@.len(),
                    ));
                }
                lookup_at(store, staged, &child, key, pos + prefix.len())
            } else {
                proof {
                    assert(!(prefix@.len() <= krest.len() && krest.take(prefix@.len() as int)
                        == prefix@));
                }
                Ok(None)
            }
        }
        Node::Branch { value, children } => {
            if pos == key.len() {
                proof {
                    assert(krest.len() == 0);
                }
                Ok(value)
            } else {
                proof {
                    assert(krest.first() == key@[pos as int]);
                }
                match find_child(&children, key[pos]) {
                    Some(i) => {
                        let ghost cv = children@.map_values(|p: (u8, Digest)| (p.0, p.1@));
                        proof {
                            assert(cv[i as int].1 == children@[i as int].1@);
                            assert(krest.skip(1) =~= key@.skip(pos + 1));
                        }
                        lookup_at(store, staged, &children[i].1, key, pos + 1)
                    }
                    None => Ok(None),
                }
            }
        }
    }
}

/// Reads the value stored for `key` in the trie version named by `root`.
///
/// `Err(UnknownRoot)` says the root hash resolves to no stored node;
/// `Ok(None)` says the root exists and the key is absent; `Err(CorruptNode)`
/// says the walk met missing or undecodable node bytes.
pub fn read(store: &TrieStore, root: &Digest, key: &Vec<u8>) -> (r: Result<
    Option<Vec<u8>>,
    TrieError,
>)
    requires
        store.wf(),
    ensures
        !store@.nodes.contains_key(root@) ==> r == Err::<Option<Vec<u8>>, TrieError>(
            TrieError::UnknownRoot,
        ),
        store@.nodes.contains_key(root@) ==> match spec_lookup(store@.nodes, root@, key@) {
            None => r == Err::<Option<Vec<u8>>, TrieError>(TrieError::CorruptNode),
            Some(None) => r == Ok::<Option<Vec<u8>>, TrieError>(None),
            Some(Some(v)) => r matches Ok(Some(b)) && b@ == v,
        },
{
    if !store.contains(root) {
        return Err(TrieError::UnknownRoot);
    }
    let staged: Vec<(Digest, Vec<u8>)> = Vec::new();
    proof {
        assert(entries_map(staged@) =~= Map::<Seq<u8>, Seq<u8>>::empty());
        assert(combined(store@.nodes, staged@) =~= store@.nodes);
        assert(key@.skip(0) =~= key@);
    }
    match lookup_at(store, &staged, root, key, 0) {
        Ok(v) => Ok(v),
        Err(()) => Err(TrieError::CorruptNode),
    }
}

// ---------------------------------------------------------------------------
// Insertion.
// ---------------------------------------------------------------------------

pub open spec fn oview(o: Option<Digest>) -> Option<Seq<u8>> {
    match o {
        Some(d) => Some(d@),
        None => None,
    }
}

/// Inserting `val` for the remaining `key` below a leaf that still holds
/// `suffix` and `value`.
pub open spec fn spec_insert_leaf(
    m: Map<Seq<u8>, Seq<u8>>,
    suffix: Seq<u8>,
    value: Seq<u8>,
    key: Seq<u8>,
    val: Seq<u8>,
) -> Option<(Map<Seq<u8>, Seq<u8>>, nat, Seq<u8>)>
    decreases key.len(), 0int,
{
    if suffix == key {
        Some(spec_put(m, NodeV::Leaf { suffix: key, value: val }))
    } else if suffix.len() > 0 && key.len() > 0 && suffix.first() == key.first() {
        let (m1, d1, sub) = spec_put(m, NodeV::Leaf { suffix: suffix.skip(1), value });
        match spec_insert(m1, Some(sub), key.skip(1), val) {
            Some((m2, d2, c)) => {
                let (m3, d3, h3) = spec_put(
                    m2,
                    NodeV::Branch { value: None, children: seq![(key.first(), c)] },
                );
                Some((m3, d1 + d2 + d3, h3))
            },
            None => None,
        }
    } else if suffix.len() == 0 {
        let (m1, d1, hh) = spec_put(m, NodeV::Leaf { suffix: key.skip(1), value: val });
        let (m2, d2, h2) = spec_put(
            m1,
            NodeV::Branch { value: Some(value), children: seq![(key.first(), hh)] },
        );
        Some((m2, d1 + d2, h2))
    } else if key.len() == 0 {
        let (m1, d1, hh) = spec_put(m, NodeV::Leaf { suffix: suffix.skip(1), value });
        let (m2, d2, h2) = spec_put(
            m1,
            NodeV::Branch { value: Some(val), children: seq![(suffix.first(), hh)] },
        );
        Some((m2, d1 + d2, h2))
    } else {
        let (m1, d1, hh) = spec_put(m, NodeV::Leaf { suffix: suffix.skip(1), value });
        let (m2, d2, hh2) = spec_put(m1, NodeV::Leaf { suffix: key.skip(1), value: val });
        let (m3, d3, h3) = spec_put(
            m2,
            NodeV::Branch {
                value: None,
                children: seq![(suffix.first(), hh)].push((key.first(), hh2)),
            },
        );
        Some((m3, d1 + d2 + d3, h3))
    }
}

/// Inserting below an extension node.
pub open spec fn spec_insert_ext(
    m: Map<Seq<u8>, Seq<u8>>,
    prefix: Seq<u8>,
    child: Seq<u8>,
    key: Seq<u8>,
    val: Seq<u8>,
) -> Option<(Map<Seq<u8>, Seq<u8>>, nat, Seq<u8>)>
    decreases key.len(), 0int,
{
    let (m1, d1, sub) = if prefix.len() == 1 {
        (m, 0 as nat, child)
    } else {
        spec_put(m, NodeV::Extension { prefix: prefix.skip(1), child })
    };
    if key.len() > 0 && prefix.first() == key.first() {
        match spec_insert(m1, Some(sub), key.skip(1), val) {
            Some((m2, d2, c)) => {
                let (m3, d3, h3) = spec_put(
                    m2,
                    NodeV::Branch { value: None, children: seq![(key.first(), c)] },
                );
                Some((m3, d1 + d2 + d3, h3))
            },
            None => None,
        }
    } else if key.len() == 0 {
        let (m3, d3, h3) = spec_put(
            m1,
            NodeV::Branch { value: Some(val), children: seq![(prefix.first(), sub)] },
        );
        Some((m3, d1 + d3, h3))
    } else {
        let (m2, d2, hh2) = spec_put(m1, NodeV::Leaf { suffix: key.skip(1), value: val });
        let (m3, d3, h3) = spec_put(
            m2,
            NodeV::Branch {
                value: None,
                children: seq![(prefix.first(), sub)].push((key.first(), hh2)),
            },
        );
        Some((m3, d1 + d2 + d3, h3))
    }
}

/// Inserting below a branch node.
pub open spec fn spec_insert_branch(
    m: Map<Seq<u8>, Seq<u8>>,
    value: Option<Seq<u8>>,
    children: Seq<(u8, Seq<u8>)>,
    key: Seq<u8>,
    val: Seq<u8>,
) -> Option<(Map<Seq<u8>, Seq<u8>>, nat, Seq<u8>)>
    decreases key.len(), 0int,
{
    if key.len() == 0 {
        Some(spec_put(m, NodeV::Branch { value: Some(val), children }))
    } else {
        let i = find_idx(children, key.first());
        if i >= 0 {
            match spec_insert(m, Some(children[i].1), key.skip(1), val) {
                Some((m2, d2, c2)) => {
                    let (m3, d3, h3) = spec_put(
                        m2,
                        NodeV::Branch { value, children: children.update(i, (key.first(), c2)) },
                    );
                    Some((m3, d2 + d3, h3))
                },
                None => None,
            }
        } else {
            match spec_insert(m, None, key.skip(1), val) {
                Some((m2, d2, c2)) => {
                    let (m3, d3, h3) = spec_put(
                        m2,
                        NodeV::Branch { value, children: children.push((key.first(), c2)) },
                    );
                    Some((m3, d2 + d3, h3))
                },
                None => None,
            }
        }
    }
}

/// Inserting `val` under the remaining `key` below `slot`: the new and
/// reused nodes land in the map, and the new subtree hash comes back with
/// the bytes the store grew by.  `None` names a broken store.
pub open spec fn spec_insert(
    m: Map<Seq<u8>, Seq<u8>>,
    slot: Option<Seq<u8>>,
    key: Seq<u8>,
    val: Seq<u8>,
) -> Option<(Map<Seq<u8>, Seq<u8>>, nat, Seq<u8>)>
    decreases key.len(), 1int,
{
    match slot {
        None => Some(spec_put(m, NodeV::Leaf { suffix: key, value: val })),
        Some(h) => {
            if !m.contains_key(h) {
                None
            } else {
                match spec_decode(m[h]) {
                    None => None,
                    Some(NodeV::Leaf { suffix, value }) => spec_insert_leaf(
                        m,
                        suffix,
                        value,
                        key,
                        val,
                    ),
                    Some(NodeV::Extension { prefix, child }) => spec_insert_ext(
                        m,
                        prefix,
                        child,
                        key,
                        val,
                    ),
                    Some(NodeV::Branch { value, children }) => spec_insert_branch(
                        m,
                        value,
                        children,
                        key,
                        val,
                    ),
                }
            }
        },
    }
}

fn replace_child(children: &Vec<(u8, Digest)>, i: usize, e: (u8, Digest)) -> (r: Vec<(u8, Digest)>)
    requires
        i < children@.len(),
    ensures
        r@ == children@.update(i as int, e),
{
    let mut out: Vec<(u8, Digest)> = Vec::new();
    let mut k: usize = 0;
    while k < children.len()
        invariant
            i < children@.len(),
            k <= children@.len(),
            out@.len() == k,
            forall|j: int|
                0 <= j < k ==> out@[j] == (if j == i as int {
                    e
                } else {
                    children@[j]
                }),
        decreases children@.len() - k,
    {
        if k == i {
            out.push(e);
        } else {
            out.push(children[k]);
        }
        k = k + 1;
    }
    proof {
        assert(out@ =~= children@.update(i as int, e));
    }
    out
}

fn insert_leaf(
    store: &TrieStore,
    staged: &mut Vec<(Digest, Vec<u8>)>,
    suffix: Vec<u8>,
    value: Vec<u8>,
    key: &Vec<u8>,
    pos: usize,
    val: &Vec<u8>,
) -> (r: Option<Digest>)
    requires
        store.wf(),
        staged_wf(store@, old(staged)@),
        pos <= key@.len(),
        key@.len() <= u32::MAX,
        val@.len() <= u32::MAX,
        suffix@.len() <= u32::MAX,
        value@.len() <= u32::MAX,
    ensures
        staged_wf(store@, final(staged)@),
        match spec_insert_leaf(
            combined(store@.nodes, old(staged)@),
            suffix@,
            value@,
            key@.skip(pos as int),
            val@,
        ) {
            Some(res) => r matches Some(d) && d@ == res.2 && combined(
                store@.nodes,
                final(staged)@,
            ) == res.0 && entries_cost(final(staged)@) == entries_cost(old(staged)@) + res.1,
            None => r is None,
        },
    decreases key@.len() - pos, 0int,
{
    let klen = key.len();
    let valc = subvec(val, 0, val.len());
    proof {
        assert(valc@ =~= val@);
    }
    let ghost m0 = combined(store@.nodes, old(staged)@);
    let ghost krest = key@.skip(pos as int);
    if eq_tail(&suffix, key, pos) {
        let leaf = Node::Leaf { suffix: subvec(key, pos, klen), value: valc };
        proof {
            assert(leaf@ =~= NodeV::Leaf { suffix: krest, value: val@ });
        }
        let d = put_staged(store, staged, &leaf);
        Some(d)
    } else {
        let slen = suffix.len();
        if slen > 0 && pos < klen && suffix[0] == key[pos] {
            let demoted = Node::Leaf { suffix: subvec(&suffix, 1, slen), value };
            proof {
                assert(demoted@ =~= NodeV::Leaf {
                    suffix: suffix@.skip(1),
                    value: demoted@->Leaf_value,
                });
                assert(suffix@.first() == krest.first());
            }
            let sub = put_staged(store, staged, &demoted);
            proof {
                assert(key@.skip(pos + 1) =~= krest.skip(1));
            }
            match insert_at(store, staged, Some(sub), key, pos + 1, val) {
                Some(c) => {
                    let branch = Node::Branch { value: None, children: vec![(key[pos], c)] };
                    proof {
                        assert(branch@->Branch_children =~= seq![(krest.first(), c@)]);
                    }
                    let d = put_staged(store, staged, &branch);
                    Some(d)
                }
                None => None,
            }
        } else if slen == 0 {
            // the old value sits at the split point; the new key goes below
            proof {
                if krest.len() == 0 {
                    assert(suffix@ =~= krest);
                }
            }
            let kb = key[pos];
            let leaf2 = Node::Leaf { suffix: subvec(key, pos + 1, klen), value: valc };
            proof {
                assert(leaf2@ =~= NodeV::Leaf { suffix: krest.skip(1), value: val@ });
            }
            let hh2 = put_staged(store, staged, &leaf2);
            let mut children: Vec<(u8, Digest)> = Vec::new();
            children.push((kb, hh2));
            let branch = Node::Branch { value: Some(value), children };
            proof {
                assert(branch@->Branch_children =~= seq![(krest.first(), hh2@)]);
            }
            let d = put_staged(store, staged, &branch);
            Some(d)
        } else if pos == klen {
            // the new key ends at the split point; the old leaf moves below
            let sb = suffix[0];
            let demoted = Node::Leaf { suffix: subvec(&suffix, 1, slen), value };
            proof {
                assert(demoted@ =~= NodeV::Leaf {
                    suffix: suffix@.skip(1),
                    value: demoted@->Leaf_value,
                });
            }
            let hh = put_staged(store, staged, &demoted);
            let mut children: Vec<(u8, Digest)> = Vec::new();
            children.push((sb, hh));
            let branch = Node::Branch { value: Some(valc), children };
            proof {
                assert(branch@->Branch_children =~= seq![(suffix@.first(), hh@)]);
            }
            let d = put_staged(store, staged, &branch);
            Some(d)
        } else {
            // both sides keep bytes and differ in their first byte here
            let sb = suffix[0];
            let demoted = Node::Leaf { suffix: subvec(&suffix, 1, slen), value };
            proof {
                assert(demoted@ =~= NodeV::Leaf {
                    suffix: suffix@.skip(1),
                    value: demoted@->Leaf_value,
                });
            }
            let hh = put_staged(store, staged, &demoted);
            let kb = key[pos];
            let leaf2 = Node::Leaf { suffix: subvec(key, pos + 1, klen), value: valc };
            proof {
                assert(leaf2@ =~= NodeV::Leaf { suffix: krest.skip(1), value: val@ });
            }
            let hh2 = put_staged(store, staged, &leaf2);
            let mut children: Vec<(u8, Digest)> = Vec::new();
            children.push((sb, hh));
            children.push((kb, hh2));
            let branch = Node::Branch { value: None, children };
            proof {
                assert(branch@->Branch_children =~= seq![(suffix@.first(), hh@)].push(
                    (krest.first(), hh2@),
                ));
            }
            let d = put_staged(store, staged, &branch);
            Some(d)
        }
    }
}

fn insert_ext(
    store: &TrieStore,
    staged: &mut Vec<(Digest, Vec<u8>)>,
    prefix: Vec<u8>,
    child: Digest,
    key: &Vec<u8>,
    pos: usize,
    val: &Vec<u8>,
) -> (r: Option<Digest>)
    requires
        store.wf(),
        staged_wf(store@, old(staged)@),
        pos <= key@.len(),
        key@.len() <= u32::MAX,
        val@.len() <= u32::MAX,
        1 <= prefix@.len() <= u32::MAX,
    ensures
        staged_wf(store@, final(staged)@),
        match spec_insert_ext(
            combined(store@.nodes, old(staged)@),
            prefix@,
            child@,
            key@.skip(pos as int),
            val@,
        ) {
            Some(res) => r matches Some(d) && d@ == res.2 && combined(
                store@.nodes,
                final(staged)@,
            ) == res.0 && entries_cost(final(staged)@) == entries_cost(old(staged)@) + res.1,
            None => r is None,
        },
    decreases key@.len() - pos, 0int,
{
    let klen = key.len();
    let valc = subvec(val, 0, val.len());
    proof {
        assert(valc@ =~= val@);
    }
    let ghost m0 = combined(store@.nodes, old(staged)@);
    let ghost krest = key@.skip(pos as int);
    let plen = prefix.len();
    let sub: Digest;
    if plen == 1 {
        sub = child;
    } else {
        let shrunk = Node::Extension { prefix: subvec(&prefix, 1, plen), child };
        proof {
            assert(shrunk@ =~= NodeV::Extension { prefix: prefix@.skip(1), child: child@ });
        }
        sub = put_staged(store, staged, &shrunk);
    }
    if pos < klen && prefix[0] == key[pos] {
        proof {
            assert(prefix@.first() == krest.first());
            assert(key@.skip(pos + 1) =~= krest.skip(1));
        }
        match insert_at(store, staged, Some(sub), key, pos + 1, val) {
            Some(c) => {
                let branch = Node::Branch { value: None, children: vec![(key[pos], c)] };
                proof {
                    assert(branch@->Branch_children =~= seq![(krest.first(), c@)]);
                }
                let d = put_staged(store, staged, &branch);
                Some(d)
            }
            None => None,
        }
    } else if pos == klen {
        let pb = prefix[0];
        let mut children: Vec<(u8, Digest)> = Vec::new();
        children.push((pb, sub));
        let branch = Node::Branch { value: Some(valc), children };
        proof {
            assert(branch@->Branch_children =~= seq![(prefix@.first(), sub@)]);
        }
        let d = put_staged(store, staged, &branch);
        Some(d)
    } else {
        let pb = prefix[0];
        let kb = key[pos];
        let leaf2 = Node::Leaf { suffix: subvec(key, pos + 1, klen), value: valc };
        proof {
            assert(leaf2@ =~= NodeV::Leaf { suffix: krest.skip(1), value: val@ });
        }
        let hh2 = put_staged(store, staged, &leaf2);
        let mut children: Vec<(u8, Digest)> = Vec::new();
        children.push((pb, sub));
        children.push((kb, hh2));
        let branch = Node::Branch { value: None, children };
        proof {
            assert(branch@->Branch_children =~= seq![(prefix@.first(), sub@)].push(
                (krest.first(), hh2@),
            ));
        }
        let d = put_staged(store, staged, &branch);
        Some(d)
    }
}

fn insert_branch(
    store: &TrieStore,
    staged: &mut Vec<(Digest, Vec<u8>)>,
    value: Option<Vec<u8>>,
    children: Vec<(u8, Digest)>,
    key: &Vec<u8>,
    pos: usize,
    val: &Vec<u8>,
) -> (r: Option<Digest>)
    requires
        store.wf(),
        staged_wf(store@, old(staged)@),
        pos <= key@.len(),
        key@.len() <= u32::MAX,
        val@.len() <= u32::MAX,
        value matches Some(v) ==> v@.len() <= u32::MAX,
    ensures
        staged_wf(store@, final(staged)@),
        match spec_insert_branch(
            combined(store@.nodes, old(staged)@),
            match value {
                Some(v) => Some(v@),
                None => None,
            },
            children@.map_values(|p: (u8, Digest)| (p.0, p.1@)),
            key@.skip(pos as int),
            val@,
        ) {
            Some(res) => r matches Some(d) && d@ == res.2 && combined(
                store@.nodes,
                final(staged)@,
            ) == res.0 && entries_cost(final(staged)@) == entries_cost(old(staged)@) + res.1,
            None => r is None,
        },
    decreases key@.len() - pos, 0int,
{
    let klen = key.len();
    let valc = subvec(val, 0, val.len());
    proof {
        assert(valc@ =~= val@);
    }
    let ghost krest = key@.skip(pos as int);
    let ghost cv = children@.map_values(|p: (u8, Digest)| (p.0, p.1@));
    if pos == klen {
        let branch = Node::Branch { value: Some(valc), children };
        let d = put_staged(store, staged, &branch);
        Some(d)
    } else {
        let kb = key[pos];
        proof {
            assert(krest.first() == key@[pos as int]);
        }
        match find_child(&children, kb) {
            Some(i) => {
                let cd = children[i].1;
                proof {
                    assert(cv[i as int].1 == cd@);
                    assert(key@.skip(pos + 1) =~= krest.skip(1));
                }
                match insert_at(store, staged, Some(cd), key, pos + 1, val) {
                    Some(c2) => {
                        let nc = replace_child(&children, i, (kb, c2));
                        let branch = Node::Branch { value, children: nc };
                        proof {
                            assert(branch@->Branch_children =~= cv.update(
                                i as int,
                                (krest.first(), c2@),
                            ));
                        }
                        let d = put_staged(store, staged, &branch);
                        Some(d)
                    }
                    None => None,
                }
            }
            None => {
                proof {
                    assert(key@.skip(pos + 1) =~= krest.skip(1));
                }
                match insert_at(store, staged, None, key, pos + 1, val) {
                    Some(c2) => {
                        let mut nc = children;
                        nc.push((kb, c2));
                        let branch = Node::Branch { value, children: nc };
                        proof {
                            assert(branch@->Branch_children =~= cv.push((krest.first(), c2@)));
                        }
                        let d = put_staged(store, staged, &branch);
                        Some(d)
                    }
                    None => None,
                }
            }
        }
    }
}

/// Inserts `val` for the tail of `key` below `slot`, staging every new node.
fn insert_at(
    store: &TrieStore,
    staged: &mut Vec<(Digest, Vec<u8>)>,
    slot: Option<Digest>,
    key: &Vec<u8>,
    pos: usize,
    val: &Vec<u8>,
) -> (r: Option<Digest>)
    requires
        store.wf(),
        staged_wf(store@, old(staged)@),
        pos <= key@.len(),
        key@.len() <= u32::MAX,
        val@.len() <= u32::MAX,
    ensures
        staged_wf(store@, final(staged)@),
        match spec_insert(
            combined(store@.nodes, old(staged)@),
            oview(slot),
            key@.skip(pos as int),
            val@,
        ) {
            Some(res) => r matches Some(d) && d@ == res.2 && combined(
                store@.nodes,
                final(staged)@,
            ) == res.0 && entries_cost(final(staged)@) == entries_cost(old(staged)@) + res.1,
            None => r is None,
        },
    decreases key@.len() - pos, 1int,
{
    let klen = key.len();
    let ghost m0 = combined(store@.nodes, old(staged)@);
    let ghost krest = key@.skip(pos as int);
    match slot {
        None => {
            let valc = subvec(val, 0, val.len());
            let leaf = Node::Leaf { suffix: subvec(key, pos, klen), value: valc };
            proof {
                assert(leaf@ =~= NodeV::Leaf { suffix: krest, value: val@ });
            }
            let d = put_staged(store, staged, &leaf);
            Some(d)
        }
        Some(h) => {
            let bytes = match get_combined(store, staged, &h) {
                Some(b) => b,
                None => {
                    return None;
                }
            };
            let node = match decode(&bytes) {
                Some(n) => n,
                None => {
                    return None;
                }
            };
            proof {
                assert(spec_decode(m0[h@]) == Some(node@));
            }
            match node {
                Node::Leaf { suffix, value } => insert_leaf(
                    store,
                    staged,
                    suffix,
                    value,
                    key,
                    pos,
                    val,
                ),
                Node::Extension { prefix, child } => insert_ext(
                    store,
                    staged,
                    prefix,
                    child,
                    key,
                    pos,
                    val,
                ),
                Node::Branch { value, children } => insert_branch(
                    store,
                    staged,
                    value,
                    children,
                    key,
                    pos,
                    val,
                ),
            }
        }
    }
}

// ---------------------------------------------------------------------------
// Deletion.
// ---------------------------------------------------------------------------

/// Deleting the remaining `key` below an extension node.
pub open spec fn spec_delete_ext(
    m: Map<Seq<u8>, Seq<u8>>,
    prefix: Seq<u8>,
    child: Seq<u8>,
    key: Seq<u8>,
) -> Option<(Map<Seq<u8>, Seq<u8>>, nat, Option<Seq<u8>>)>
    decreases key.len(), 0int,
{
    if 1 <= prefix.len() && prefix.len() <= key.len() && key.take(prefix.len() as int)
        == prefix {
        match spec_delete(m, child, key.skip(prefix.len() as int)) {
            None => None,
            Some((m1, d1, None)) => Some((m1, d1, None)),
            Some((m1, d1, Some(c))) => {
                let (m2, d2, h2) = spec_put(m1, NodeV::Extension { prefix, child: c });
                Some((m2, d1 + d2, Some(h2)))
            },
        }
    } else {
        None
    }
}

/// Deleting the remaining `key` below a branch node.
pub open spec fn spec_delete_branch(
    m: Map<Seq<u8>, Seq<u8>>,
    value: Option<Seq<u8>>,
    children: Seq<(u8, Seq<u8>)>,
    key: Seq<u8>,
) -> Option<(Map<Seq<u8>, Seq<u8>>, nat, Option<Seq<u8>>)>
    decreases key.len(), 0int,
{
    if key.len() == 0 {
        if value is Some {
            if children.len() == 0 {
                Some((m, 0, None))
            } else {
                let (m2, d2, h2) = spec_put(m, NodeV::Branch { value: None, children });
                Some((m2, d2, Some(h2)))
            }
        } else {
            None
        }
    } else {
        let i = find_idx(children, key.first());
        if i >= 0 {
            match spec_delete(m, children[i].1, key.skip(1)) {
                None => None,
                Some((m1, d1, None)) => {
                    let cs2 = children.remove(i);
                    if cs2.len() == 0 && value is None {
                        Some((m1, d1, None))
                    } else {
                        let (m2, d2, h2) = spec_put(m1, NodeV::Branch { value, children: cs2 });
                        Some((m2, d1 + d2, Some(h2)))
                    }
                },
                Some((m1, d1, Some(c))) => {
                    let (m2, d2, h2) = spec_put(
                        m1,
                        NodeV::Branch { value, children: children.update(i, (key.first(), c)) },
                    );
                    Some((m2, d1 + d2, Some(h2)))
                },
            }
        } else {
            None
        }
    }
}

/// Removing a key that is present below node `h`: the rebuilt nodes land in
/// the map and the new slot comes back (`None` when the subtree is now
/// empty).  The outer `None` names a broken store or an absent key.
pub open spec fn spec_delete(m: Map<Seq<u8>, Seq<u8>>, h: Seq<u8>, key: Seq<u8>) -> Option<
    (Map<Seq<u8>, Seq<u8>>, nat, Option<Seq<u8>>),
>
    decreases key.len(), 1int,
{
    if !m.contains_key(h) {
        None
    } else {
        match spec_decode(m[h]) {
            None => None,
            Some(NodeV::Leaf { suffix, value }) => if suffix == key {
                Some((m, 0, None))
            } else {
                None
            },
            Some(NodeV::Extension { prefix, child }) => spec_delete_ext(m, prefix, child, key),
            Some(NodeV::Branch { value, children }) => spec_delete_branch(
                m,
                value,
                children,
                key,
            ),
        }
    }
}

fn del_ext(
    store: &TrieStore,
    staged: &mut Vec<(Digest, Vec<u8>)>,
    prefix: Vec<u8>,
    child: Digest,
    key: &Vec<u8>,
    pos: usize,
) -> (r: Option<Option<Digest>>)
    requires
        store.wf(),
        staged_wf(store@, old(staged)@),
        pos <= key@.len(),
        key@.len() <= u32::MAX,
        1 <= prefix@.len() <= u32::MAX,
    ensures
        staged_wf(store@, final(staged)@),
        match spec_delete_ext(
            combined(store@.nodes, old(staged)@),
            prefix@,
            child@,
            key@.skip(pos as int),
        ) {
            Some(res) => r matches Some(slot) && oview(slot) == res.2 && combined(
                store@.nodes,
                final(staged)@,
            ) == res.0 && entries_cost(final(staged)@) == entries_cost(old(staged)@) + res.1,
            None => r is None,
        },
    decreases key@.len() - pos, 0int,
{
    let klen = key.len();
    let ghost krest = key@.skip(pos as int);
    if matches_prefix(&prefix, key, pos) {
        proof {
            assert(krest.take(prefix@.len() as int) == prefix@);
            assert(key@.skip(pos + prefix@.len()) =~= krest.skip(prefix@.len() as int));
        }
        match del_at(store, staged, &child, key, pos + prefix.len()) {
            None => None,
            Some(None) => Some(None),
            Some(Some(c)) => {
                let ext = Node::Extension { prefix, child: c };
                let d = put_staged(store, staged, &ext);
                Some(Some(d))
            }
        }
    } else {
        proof {
            assert(!(prefix@.len() <= krest.len() && krest.take(prefix@.len() as int)
                == prefix@));
        }
        None
    }
}

fn del_branch(
    store: &TrieStore,
    staged: &mut Vec<(Digest, Vec<u8>)>,
    value: Option<Vec<u8>>,
    children: Vec<(u8, Digest)>,
    key: &Vec<u8>,
    pos: usize,
) -> (r: Option<Option<Digest>>)
    requires
        store.wf(),
        staged_wf(store@, old(staged)@),
        pos <= key@.len(),
        key@.len() <= u32::MAX,
        value matches Some(v) ==> v@.len() <= u32::MAX,
    ensures
        staged_wf(store@, final(staged)@),
        match spec_delete_branch(
            combined(store@.nodes, old(staged)@),
            match value {
                Some(v) => Some(v@),
                None => None,
            },
            children@.map_values(|p: (u8, Digest)| (p.0, p.1@)),
            key@.skip(pos as int),
        ) {
            Some(res) => r matches Some(slot) && oview(slot) == res.2 && combined(
                store@.nodes,
                final(staged)@,
            ) == res.0 && entries_cost(final(staged)@) == entries_cost(old(staged)@) + res.1,
            None => r is None,
        },
    decreases key@.len() - pos, 0int,
{
    let klen = key.len();
    let ghost krest = key@.skip(pos as int);
    let ghost cv = children@.map_values(|p: (u8, Digest)| (p.0, p.1@));
    if pos == klen {
        if value.is_some() {
            if children.len() == 0 {
                proof {
                    assert(cv.len() == 0);
                }
                Some(None)
            } else {
                let branch = Node::Branch { value: None, children };
                let d = put_staged(store, staged, &branch);
                Some(Some(d))
            }
        } else {
            None
        }
    } else {
        let kb = key[pos];
        proof {
            assert(krest.first() == key@[pos as int]);
        }
        match find_child(&children, kb) {
            Some(i) => {
                let cd = children[i].1;
                proof {
                    assert(cv[i as int].1 == cd@);
                    assert(key@.skip(pos + 1) =~= krest.skip(1));
                }
                match del_at(store, staged, &cd, key, pos + 1) {
                    None => None,
                    Some(None) => {
                        let mut nc = children;
                        nc.remove(i);
                        proof {
                            assert(nc@.map_values(|p: (u8, Digest)| (p.0, p.1@)) =~= cv.remove(
                                i as int,
                            ));
                        }
                        if nc.len() == 0 && value.is_none() {
                            Some(None)
                        } else {
                            let branch = Node::Branch { value, children: nc };
                            let d = put_staged(store, staged, &branch);
                            Some(Some(d))
                        }
                    }
                    Some(Some(c)) => {
                        let nc = replace_child(&children, i, (kb, c));
                        let branch = Node::Branch { value, children: nc };
                        proof {
                            assert(branch@->Branch_children =~= cv.update(
                                i as int,
                                (krest.first(), c@),
                            ));
                        }
                        let d = put_staged(store, staged, &branch);
                        Some(Some(d))
                    }
                }
            }
            None => None,
        }
    }
}

/// Removes a key known to be present below `h`, staging the rebuilt nodes.
fn del_at(
    store: &TrieStore,
    staged: &mut Vec<(Digest, Vec<u8>)>,
    h: &Digest,
    key: &Vec<u8>,
    pos: usize,
) -> (r: Option<Option<Digest>>)
    requires
        store.wf(),
        staged_wf(store@, old(staged)@),
        pos <= key@.len(),
        key@.len() <= u32::MAX,
    ensures
        staged_wf(store@, final(staged)@),
        match spec_delete(combined(store@.nodes, old(staged)@), h@, key@.skip(pos as int)) {
            Some(res) => r matches Some(slot) && oview(slot) == res.2 && combined(
                store@.nodes,
                final(staged)@,
            ) == res.0 && entries_cost(final(staged)@) == entries_cost(old(staged)@) + res.1,
            None => r is None,
        },
    decreases key@.len() - pos, 1int,
{
    let ghost m0 = combined(store@.nodes, old(staged)@);
    let bytes = match get_combined(store, staged, h) {
        Some(b) => b,
        None => {
            return None;
        }
    };
    let node = match decode(&bytes) {
        Some(n) => n,
        None => {
            return None;
        }
    };
    proof {
        assert(spec_decode(m0[h@]) == Some(node@));
    }
    match node {
        Node::Leaf { suffix, value } => {
            if eq_tail(&suffix, key, pos) {
                Some(None)
            } else {
                None
            }
        }
        Node::Extension { prefix, child } => del_ext(store, staged, prefix, child, key, pos),
        Node::Branch { value, children } => del_branch(store, staged, value, children, key, pos),
    }
}

// ---------------------------------------------------------------------------
// Batched writes.
// ---------------------------------------------------------------------------

/// One upsert (`value` is `Some`) or delete (`value` is `None`) of a key.
pub struct WriteOp {
    pub key: Vec<u8>,
    pub value: Option<Vec<u8>>,
}

impl View for WriteOp {
    type V = (Seq<u8>, Option<Seq<u8>>);

    open spec fn view(&self) -> (Seq<u8>, Option<Seq<u8>>) {
        (
            self.key@,
            match &self.value {
                Some(v) => Some(v@),
                None => None,
            },
        )
    }
}

pub open spec fn ops_view(ops: Seq<WriteOp>) -> Seq<(Seq<u8>, Option<Seq<u8>>)> {
    ops.map_values(|o: WriteOp| o@)
}

/// Key and value lengths the node format can carry.
pub open spec fn ops_wf(ops: Seq<WriteOp>) -> bool {
    forall|i: int|
        0 <= i < ops.len() ==> (#[trigger] ops[i])@.0.len() <= u32::MAX && (match ops[i]@.1 {
            Some(v) => v.len() <= u32::MAX,
            None => true,
        })
}

/// The effect of one write operation on the trie rooted at `root`.
/// Deleting an absent key leaves the root untouched; deleting the last key
/// re-roots the trie at the canonical empty branch node.
pub open spec fn spec_apply_op(
    m: Map<Seq<u8>, Seq<u8>>,
    root: Seq<u8>,
    key: Seq<u8>,
    value: Option<Seq<u8>>,
) -> Option<(Map<Seq<u8>, Seq<u8>>, nat, Seq<u8>)> {
    match value {
        Some(v) => spec_insert(m, Some(root), key, v),
        None => match spec_lookup(m, root, key) {
            None => None,
            Some(None) => Some((m, 0, root)),
            Some(Some(_)) => match spec_delete(m, root, key) {
                None => None,
                Some((m1, d1, Some(h2))) => Some((m1, d1, h2)),
                Some((m1, d1, None)) => {
                    let (m2, d2, h2) = spec_put(
                        m1,
                        NodeV::Branch { value: None, children: Seq::empty() },
                    );
                    Some((m2, d1 + d2, h2))
                },
            },
        },
    }
}

/// The effect of an ordered batch, each operation feeding the next root.
pub open spec fn spec_apply_ops(
    m: Map<Seq<u8>, Seq<u8>>,
    root: Seq<u8>,
    ops: Seq<(Seq<u8>, Option<Seq<u8>>)>,
) -> Option<(Map<Seq<u8>, Seq<u8>>, nat, Seq<u8>)>
    decreases ops.len(),
{
    if ops.len() == 0 {
        Some((m, 0, root))
    } else {
        match spec_apply_op(m, root, ops.first().0, ops.first().1) {
            None => None,
            Some((m1, d1, r1)) => match spec_apply_ops(m1, r1, ops.drop_first()) {
                None => None,
                Some((m2, d2, r2)) => Some((m2, d1 + d2, r2)),
            },
        }
    }
}

pub proof fn lemma_apply_ops_snoc(
    m: Map<Seq<u8>, Seq<u8>>,
    root: Seq<u8>,
    ops: Seq<(Seq<u8>, Option<Seq<u8>>)>,
    op: (Seq<u8>, Option<Seq<u8>>),
)
    ensures
        spec_apply_ops(m, root, ops.push(op)) == (match spec_apply_ops(m, root, ops) {
            None => None,
            Some((m1, d1, r1)) => match spec_apply_op(m1, r1, op.0, op.1) {
                None => None,
                Some((m2, d2, r2)) => Some((m2, (d1 + d2) as nat, r2)),
            },
        }),
    decreases ops.len(),
{
    if ops.len() == 0 {
        let s1 = ops.push(op);
        assert(s1.drop_first() =~= Seq::<(Seq<u8>, Option<Seq<u8>>)>::empty());
        assert(s1.first() == op);
        assert(spec_apply_ops(m, root, ops) == Some((m, 0 as nat, root)));
        match spec_apply_op(m, root, op.0, op.1) {
            None => {
                assert(spec_apply_ops(m, root, s1) is None);
            }
            Some((m2, d2, r2)) => {
                assert(spec_apply_ops(m2, r2, s1.drop_first()) == Some((m2, 0 as nat, r2)));
                assert(spec_apply_ops(m, root, s1) == Some((m2, (d2 + 0) as nat, r2)));
            }
        }
    } else {
        let s1 = ops.push(op);
        assert(s1.first() == ops.first());
        assert(s1.drop_first() =~= ops.drop_first().push(op));
        match spec_apply_op(m, root, ops.first().0, ops.first().1) {
            None => {
                assert(spec_apply_ops(m, root, s1) is None);
                assert(spec_apply_ops(m, root, ops) is None);
            }
            Some((m1, d1, r1)) => {
                lemma_apply_ops_snoc(m1, r1, ops.drop_first(), op);
                assert(spec_apply_ops(m, root, s1) == (match spec_apply_ops(
                    m1,
                    r1,
                    ops.drop_first().push(op),
                ) {
                    None => None,
                    Some((m2, d2, r2)) => Some((m2, (d1 + d2) as nat, r2)),
                }));
            }
        }
    }
}

/// A batch fails as a whole once one of its operations fails.
pub proof fn lemma_apply_ops_none(
    m: Map<Seq<u8>, Seq<u8>>,
    root: Seq<u8>,
    ops: Seq<(Seq<u8>, Option<Seq<u8>>)>,
    i: int,
)
    requires
        0 <= i < ops.len(),
        ({
            let part = spec_apply_ops(m, root, ops.take(i));
            part is Some && spec_apply_op(part.unwrap().0, part.unwrap().2, ops[i].0, ops[i].1)
                is None
        }),
    ensures
        spec_apply_ops(m, root, ops) is None,
    decreases ops.len(),
{
    if i == 0 {
        assert(ops.take(0) =~= Seq::<(Seq<u8>, Option<Seq<u8>>)>::empty());
        assert(ops.first() == ops[0]);
    } else {
        assert(ops.take(i).first() == ops.first());
        assert(ops.take(i).len() > 0);
        let step = spec_apply_op(m, root, ops.first().0, ops.first().1);
        assert(step is Some);
        let (m1, d1, r1) = step.unwrap();
        assert(ops.take(i).drop_first() =~= ops.drop_first().take(i - 1));
        assert(ops.drop_first()[i - 1] == ops[i]);
        lemma_apply_ops_none(m1, r1, ops.drop_first(), i - 1);
    }
}

/// Applies an ordered batch of upserts and deletes to the trie version
/// named by `root`, committing every newly created node in one atomic
/// write and returning the new root hash.
///
/// The new root and store content are a pure function of the old store
/// content, the root and the batch, so re-applying the same batch to the
/// same starting state yields the same root.
pub fn write_batch(store: &mut TrieStore, root: &Digest, ops: &Vec<WriteOp>) -> (r: Result<
    Digest,
    TrieError,
>)
    requires
        old(store).wf(),
        ops_wf(ops@),
    ensures
        final(store).wf(),
        final(store)@.cap == old(store)@.cap,
        !old(store)@.nodes.contains_key(root@) ==> r == Err::<Digest, TrieError>(
            TrieError::UnknownRoot,
        ) && *final(store) == *old(store),
        old(store)@.nodes.contains_key(root@) ==> match spec_apply_ops(
            old(store)@.nodes,
            root@,
            ops_view(ops@),
        ) {
            None => r == Err::<Digest, TrieError>(TrieError::CorruptNode) && *final(store)
                == *old(store),
            Some(res) => (old(store)@.used + res.1 <= old(store)@.cap ==> (r matches Ok(d) && d@
                == res.2 && final(store)@.nodes == res.0 && final(store)@.used == old(
                store,
            )@.used + res.1)) && (old(store)@.used + res.1 > old(store)@.cap ==> r == Err::<
                Digest,
                TrieError,
            >(TrieError::OutOfSpace) && *final(store) == *old(store)),
        },
{
    if !store.contains(root) {
        return Err(TrieError::UnknownRoot);
    }
    let mut staged: Vec<(Digest, Vec<u8>)> = Vec::new();
    let mut cur: Digest = *root;
    let ghost ov = ops_view(ops@);
    proof {
        assert(entries_map(staged@) =~= Map::<Seq<u8>, Seq<u8>>::empty());
        assert(combined(store@.nodes, staged@) =~= store@.nodes);
        assert(ov.take(0) =~= Seq::<(Seq<u8>, Option<Seq<u8>>)>::empty());
    }
    let mut i: usize = 0;
    while i < ops.len()
        invariant
            store.wf(),
            *store == *old(store),
            ops_wf(ops@),
            ov == ops_view(ops@),
            ov.len() == ops@.len(),
            i <= ops@.len(),
            staged_wf(store@, staged@),
            store@.nodes.contains_key(root@),
            ({
                let part = spec_apply_ops(store@.nodes, root@, ov.take(i as int));
                part is Some && part.unwrap().0 == combined(store@.nodes, staged@)
                    && part.unwrap().1 == entries_cost(staged@) && part.unwrap().2 == cur@
            }),
        decreases ops@.len() - i,
    {
        let ghost pre = staged@;
        let op = &ops[i];
        proof {
            assert(ov[i as int] == ops@[i as int]@);
            assert(op.key@.skip(0) =~= op.key@);
        }
        let step: Option<Digest> = match &op.value {
            Some(v) => insert_at(store, &mut staged, Some(cur), &op.key, 0, v),
            None => {
                match lookup_at(store, &staged, &cur, &op.key, 0) {
                    Err(()) => None,
                    Ok(Some(_)) => {
                        match del_at(store, &mut staged, &cur, &op.key, 0) {
                            None => None,
                            Some(Some(d)) => Some(d),
                            Some(None) => {
                                let eb = Node::Branch { value: None, children: Vec::new() };
                                proof {
                                    assert(eb@->Branch_children =~= Seq::<(u8, Seq<u8>)>::empty());
                                }
                                let d2 = put_staged(store, &mut staged, &eb);
                                Some(d2)
                            }
                        }
                    }
                    Ok(None) => Some(cur),
                }
            }
        };
        proof {
            lemma_apply_ops_snoc(store@.nodes, root@, ov.take(i as int), ov[i as int]);
            assert(ov.take(i + 1) =~= ov.take(i as int).push(ov[i as int]));
        }
        match step {
            Some(d) => {
                cur = d;
            }
            None => {
                proof {
                    lemma_apply_ops_none(store@.nodes, root@, ov, i as int);
                }
                return Err(TrieError::CorruptNode);
            }
        }
        i = i + 1;
    }
    proof {
        assert(ov.take(ops@.len() as int) =~= ov);
    }
    match store.put_batch(&staged) {
        Ok(()) => Ok(cur),
        Err(e) => Err(e),
    }
}

/// The canonical top node of an empty key space: a childless, valueless
/// branch.
pub open spec fn empty_trie_node() -> NodeV {
    NodeV::Branch { value: None, children: Seq::empty() }
}

/// Stores the empty trie's node if it is not there yet and returns the
/// empty root hash, the starting point for `read` and `write_batch`.
pub fn init_empty_root(store: &mut TrieStore) -> (r: Result<Digest, TrieError>)
    requires
        old(store).wf(),
    ensures
        final(store).wf(),
        final(store)@.cap == old(store)@.cap,
        ({
            let (m, delta, h) = spec_put(old(store)@.nodes, empty_trie_node());
            (old(store)@.used + delta <= old(store)@.cap ==> (r matches Ok(d) && d@ == h
                && final(store)@.nodes == m && final(store)@.used == old(store)@.used + delta))
                && (old(store)@.used + delta > old(store)@.cap ==> r == Err::<Digest, TrieError>(
                TrieError::OutOfSpace,
            ) && *final(store) == *old(store))
        }),
{
    let node = Node::Branch { value: None, children: Vec::new() };
    proof {
        store.lemma_wf_bounds();
        assert(node@->Branch_children =~= Seq::<(u8, Seq<u8>)>::empty());
        assert(node@ =~= empty_trie_node());
    }
    let bytes = encode(&node);
    let blen = bytes.len();
    let d = hash_bytes(&bytes);
    if store.contains(&d) {
        return Ok(d);
    }
    let mut items: Vec<(Digest, Vec<u8>)> = Vec::new();
    items.push((d, bytes));
    proof {
        assert(items@.drop_last() =~= Seq::<(Digest, Vec<u8>)>::empty());
        assert(entries_cost(Seq::<(Digest, Vec<u8>)>::empty()) == 0);
        assert(entries_map(Seq::<(Digest, Vec<u8>)>::empty()) == Map::<Seq<u8>, Seq<u8>>::empty());
        assert(items@.last().1@ == spec_encode(empty_trie_node()));
        assert(items@.last().1@.len() == blen);
        assert(entries_cost(items@) == 32 + blen);
        assert(entries_map(items@) =~= Map::<Seq<u8>, Seq<u8>>::empty().insert(
            d@,
            items@.last().1@,
        ));
        assert(old(store)@.nodes.union_prefer_right(entries_map(items@)) =~= old(
            store,
        )@.nodes.insert(d@, spec_encode(empty_trie_node())));
    }
    match store.put_batch(&items) {
        Ok(()) => Ok(d),
        Err(e) => Err(e),
    }
}

} // verus!
