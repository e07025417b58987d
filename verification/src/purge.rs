use vstd::prelude::*;

use crate::digest::Digest;
use crate::state::{
    ops_view, spec_apply_op, spec_apply_ops, spec_lookup, write_batch, WriteOp,
};
use crate::node::subvec;
use crate::store::{TrieError, TrieStore};

verus! {

/// The keys of a chunk turned into delete operations.
pub open spec fn delete_ops(keys: Seq<Seq<u8>>) -> Seq<(Seq<u8>, Option<Seq<u8>>)> {
    keys.map_values(|k: Seq<u8>| (k, None::<Seq<u8>>))
}

pub open spec fn keys_view(keys: Seq<Vec<u8>>) -> Seq<Seq<u8>> {
    keys.map_values(|k: Vec<u8>| k@)
}

pub open spec fn keys_wf(keys: Seq<Vec<u8>>) -> bool {
    forall|i: int| 0 <= i < keys.len() ==> (#[trigger] keys[i])@.len() <= u32::MAX
}

/// Chunked key removal: each chunk of `bs` keys (the last may be shorter)
/// is one atomic batch of deletes, and the root a chunk commits is the root
/// the next chunk starts from.  The result carries the store content and
/// bookkeeping afterwards, the last committed root, and the error that
/// stopped the chain, if one did.
pub open spec fn spec_purge(
    nodes: Map<Seq<u8>, Seq<u8>>,
    used: nat,
    cap: nat,
    root: Seq<u8>,
    keys: Seq<Seq<u8>>,
    bs: nat,
) -> (Map<Seq<u8>, Seq<u8>>, nat, Seq<u8>, Option<TrieError>)
    decreases keys.len(),
{
    if bs == 0 {
        (nodes, used, root, Some(TrieError::InvalidBatchSize))
    } else if keys.len() == 0 {
        (nodes, used, root, None)
    } else {
        let take_n = if bs <= keys.len() {
            bs as int
        } else {
            keys.len() as int
        };
        let chunk = keys.take(take_n);
        if !nodes.contains_key(root) {
            (nodes, used, root, Some(TrieError::UnknownRoot))
        } else {
            match spec_apply_ops(nodes, root, delete_ops(chunk)) {
                None => (nodes, used, root, Some(TrieError::CorruptNode)),
                Some((m1, d1, r1)) => if used + d1 <= cap {
                    spec_purge(m1, used + d1, cap, r1, keys.skip(take_n), bs)
                } else {
                    (nodes, used, root, Some(TrieError::OutOfSpace))
                },
            }
        }
    }
}

/// How a purge that stopped early reports itself: the error, and the last
/// root that was durably committed, from which an operator can resume.
#[derive(Debug)]
pub struct PurgeFailure {
    pub error: TrieError,
    pub last_root: Digest,
}

/// Removes `keys` from the trie version named by `initial_root`, in chunks
/// of `batch_size` keys, committing each chunk atomically; the root one
/// chunk produces feeds the next chunk.  Returns the final root, or the
/// error together with the last committed root.  A zero batch size is
/// always rejected; an empty key list returns `initial_root` without
/// writing.
#[verifier::rlimit(60)]
pub fn purge(
    store: &mut TrieStore,
    initial_root: &Digest,
    keys: &Vec<Vec<u8>>,
    batch_size: usize,
) -> (r: Result<Digest, PurgeFailure>)
    requires
        old(store).wf(),
        keys_wf(keys@),
    ensures
        final(store).wf(),
        final(store)@.cap == old(store)@.cap,
        ({
            let (m, u, lr, e) = spec_purge(
                old(store)@.nodes,
                old(store)@.used,
                old(store)@.cap,
                initial_root@,
                keys_view(keys@),
                batch_size as nat,
            );
            final(store)@.nodes == m && final(store)@.used == u && (match e {
                None => r matches Ok(d) && d@ == lr,
                Some(err) => r matches Err(pf) && pf.error == err && pf.last_root@ == lr,
            })
        }),
{
    let ghost kv = keys_view(keys@);
    if batch_size == 0 {
        return Err(PurgeFailure { error: TrieError::InvalidBatchSize, last_root: *initial_root });
    }
    if keys.len() == 0 {
        return Ok(*initial_root);
    }
    let mut cur: Digest = *initial_root;
    proof {
        assert(kv.skip(0) =~= kv);
    }
    let mut i: usize = 0;
    while i < keys.len()
        invariant
            store.wf(),
            store@.cap == old(store)@.cap,
            keys_wf(keys@),
            kv == keys_view(keys@),
            kv.len() == keys@.len(),
            i <= keys@.len(),
            batch_size >= 1,
            spec_purge(
                old(store)@.nodes,
                old(store)@.used,
                old(store)@.cap,
                initial_root@,
                kv,
                batch_size as nat,
            ) == spec_purge(
                store@.nodes,
                store@.used,
                store@.cap,
                cur@,
                kv.skip(i as int),
                batch_size as nat,
            ),
        decreases keys@.len() - i,
    {
        let remaining = keys.len() - i;
        let n = if batch_size <= remaining {
            batch_size
        } else {
            remaining
        };
        let mut ops: Vec<WriteOp> = Vec::new();
        let mut j: usize = 0;
        while j < n
            invariant
                i + n <= keys@.len(),
                keys@.len() <= usize::MAX,
                j <= n,
                keys_wf(keys@),
                kv == keys_view(keys@),
                ops@.len() == j,
                forall|t: int|
                    0 <= t < j ==> (#[trigger] ops@[t])@ == (kv[i + t], None::<Seq<u8>>),
            decreases n - j,
        {
            let kb = subvec(&keys[i + j], 0, keys[i + j].len());
            proof {
                assert(kb@ =~= kv[i + j]);
            }
            ops.push(WriteOp { key: kb, value: None });
            j = j + 1;
        }
        let ghost rest = kv.skip(i as int);
        let ghost take_n = if batch_size as nat <= rest.len() {
            batch_size as int
        } else {
            rest.len() as int
        };
        proof {
            assert(take_n == n as int);
            assert(ops_view(ops@) =~= delete_ops(rest.take(take_n)));
            assert(rest.skip(take_n) =~= kv.skip(i + n));
        }
        match write_batch(store, &cur, &ops) {
            Ok(d) => {
                cur = d;
                i = i + n;
            }
            Err(e) => {
                return Err(PurgeFailure { error: e, last_root: cur });
            }
        }
    }
    proof {
        assert(kv.skip(keys@.len() as int) =~= Seq::<Seq<u8>>::empty());
    }
    Ok(cur)
}

/// Deleting a key that is absent from the trie changes neither the store
/// content nor the root hash: the single-key delete batch is a no-op.
pub proof fn lemma_delete_absent_is_noop(m: Map<Seq<u8>, Seq<u8>>, root: Seq<u8>, key: Seq<u8>)
    requires
        spec_lookup(m, root, key) == Some(None::<Seq<u8>>),
    ensures
        spec_apply_ops(m, root, seq![(key, None::<Seq<u8>>)]) == Some(
            (m, 0 as nat, root),
        ),
{
    let s1 = seq![(key, None::<Seq<u8>>)];
    assert(s1.first() == (key, None::<Seq<u8>>));
    assert(s1.drop_first() =~= Seq::<(Seq<u8>, Option<Seq<u8>>)>::empty());
    assert(spec_apply_op(m, root, key, None::<Seq<u8>>) == Some(
        (m, 0 as nat, root),
    ));
    assert(spec_apply_ops(m, root, s1.drop_first()) == Some((m, 0 as nat, root)));
}

} // verus!
