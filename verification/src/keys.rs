use vstd::prelude::*;

verus! {

/// An application-level key: per-era metadata, or an arbitrary state key.
pub enum Key {
    EraInfo(u64),
    Generic(Vec<u8>),
}

/// Big-endian eight-byte encoding of an era number.
pub open spec fn be64(x: u64) -> Seq<u8> {
    seq![
        (x >> 56) as u8,
        (x >> 48) as u8,
        (x >> 40) as u8,
        (x >> 32) as u8,
        (x >> 24) as u8,
        (x >> 16) as u8,
        (x >> 8) as u8,
        x as u8,
    ]
}

/// The trie key bytes of an application key: a variant tag, then the
/// variant's payload.
pub open spec fn spec_key_bytes(k: Key) -> Seq<u8> {
    match k {
        Key::EraInfo(e) => seq![1u8] + be64(e),
        Key::Generic(b) => seq![0u8] + b@,
    }
}

impl Key {
    /// Serializes the key for the trie.
    pub fn to_bytes(&self) -> (r: Vec<u8>)
        ensures
            r@ == spec_key_bytes(*self),
    {
        let mut out: Vec<u8> = Vec::new();
        match self {
            Key::EraInfo(e) => {
                let x = *e;
                out.push(1u8);
                out.push((x >> 56) as u8);
                out.push((x >> 48) as u8);
                out.push((x >> 40) as u8);
                out.push((x >> 32) as u8);
                out.push((x >> 24) as u8);
                out.push((x >> 16) as u8);
                out.push((x >> 8) as u8);
                out.push(x as u8);
                proof {
                    assert(out@ =~= spec_key_bytes(*self));
                }
            }
            Key::Generic(b) => {
                out.push(0u8);
                let mut i: usize = 0;
                while i < b.len()
                    invariant
                        i <= b@.len(),
                        out@ == seq![0u8] + b@.take(i as int),
                    decreases b@.len() - i,
                {
                    out.push(b[i]);
                    proof {
                        assert(out@ =~= seq![0u8] + b@.take(i + 1));
                    }
                    i = i + 1;
                }
                proof {
                    assert(out@ =~= spec_key_bytes(*self));
                }
            }
        }
        out
    }
}

/// The era-info keys for eras `0 .. latest_era`, in era order, as trie key
/// bytes.
pub fn era_info_keys(latest_era: u64) -> (r: Vec<Vec<u8>>)
    ensures
        r@.len() == latest_era,
        forall|i: int|
            0 <= i < latest_era ==> (#[trigger] r@[i])@ == spec_key_bytes(Key::EraInfo(i as u64)),
{
    let mut out: Vec<Vec<u8>> = Vec::new();
    let mut e: u64 = 0;
    while e < latest_era
        invariant
            e <= latest_era,
            out@.len() == e,
            forall|i: int|
                0 <= i < e ==> (#[trigger] out@[i])@ == spec_key_bytes(Key::EraInfo(i as u64)),
        decreases latest_era - e,
    {
        let k = Key::EraInfo(e);
        out.push(k.to_bytes());
        e = e + 1;
    }
    out
}

} // verus!
