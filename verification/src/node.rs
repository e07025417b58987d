use vstd::prelude::*;

use crate::digest::Digest;

verus! {

/// One Merkle trie record.
///
/// A trie maps byte-string keys to opaque value blobs.  A `Leaf` ends a
/// path, carrying the not-yet-consumed key suffix and the value.  An
/// `Extension` carries a shared non-empty key prefix and the hash of the
/// single node below it.  A `Branch` fans out on the next key byte and may
/// itself carry the value of the key that ends exactly here.
pub enum Node {
    Leaf { suffix: Vec<u8>, value: Vec<u8> },
    Extension { prefix: Vec<u8>, child: Digest },
    Branch { value: Option<Vec<u8>>, children: Vec<(u8, Digest)> },
}

/// The mathematical shape of a `Node`: the same three forms over sequences.
#[verifier::ext_equal]
pub ghost enum NodeV {
    Leaf { suffix: Seq<u8>, value: Seq<u8> },
    Extension { prefix: Seq<u8>, child: Seq<u8> },
    Branch { value: Option<Seq<u8>>, children: Seq<(u8, Seq<u8>)> },
}

impl View for Node {
    type V = NodeV;

    open spec fn view(&self) -> NodeV {
        match self {
            Node::Leaf { suffix, value } => NodeV::Leaf { suffix: suffix@, value: value@ },
            Node::Extension { prefix, child } => NodeV::Extension {
                prefix: prefix@,
                child: child@,
            },
            Node::Branch { value, children } => NodeV::Branch {
                value: match value {
                    Some(v) => Some(v@),
                    None => None,
                },
                children: children@.map_values(|p: (u8, Digest)| (p.0, p.1@)),
            },
        }
    }
}

/// Field lengths a node must respect so that it can be serialized.
pub open spec fn node_wf(n: NodeV) -> bool {
    match n {
        NodeV::Leaf { suffix, value } => suffix.len() <= u32::MAX && value.len() <= u32::MAX,
        NodeV::Extension { prefix, child } => 1 <= prefix.len() && prefix.len() <= u32::MAX
            && child.len() == 32,
        NodeV::Branch { value, children } => (match value {
            Some(v) => v.len() <= u32::MAX,
            None => true,
        }) && forall|i: int| 0 <= i < children.len() ==> (#[trigger] children[i]).1.len() == 32,
    }
}

/// The child hashes a node refers to.
pub open spec fn child_hashes(n: NodeV) -> Seq<Seq<u8>> {
    match n {
        NodeV::Leaf { .. } => Seq::empty(),
        NodeV::Extension { child, .. } => seq![child],
        NodeV::Branch { children, .. } => children.map_values(|p: (u8, Seq<u8>)| p.1),
    }
}

/// Big-endian four-byte encoding of a length field.
pub open spec fn be32(x: u32) -> Seq<u8> {
    seq![(x >> 24) as u8, (x >> 16) as u8, (x >> 8) as u8, x as u8]
}

pub open spec fn from_be32(a: u8, b: u8, c: u8, d: u8) -> u32 {
    ((a as u32) << 24) | ((b as u32) << 16) | ((c as u32) << 8) | (d as u32)
}

/// Serialized form of a branch's child table: one key byte then a 32-byte
/// child hash, per child, in table order.
pub open spec fn children_bytes(cs: Seq<(u8, Seq<u8>)>) -> Seq<u8>
    decreases cs.len(),
{
    if cs.len() == 0 {
        Seq::empty()
    } else {
        seq![cs.first().0] + cs.first().1 + children_bytes(cs.drop_first())
    }
}

pub proof fn lemma_children_bytes_push(cs: Seq<(u8, Seq<u8>)>, e: (u8, Seq<u8>))
    ensures
        children_bytes(cs.push(e)) == children_bytes(cs) + seq![e.0] + e.1,
    decreases cs.len(),
{
    if cs.len() == 0 {
        assert(cs.push(e).first() == e);
        assert(cs.push(e).drop_first() =~= Seq::<(u8, Seq<u8>)>::empty());
        assert(children_bytes(Seq::<(u8, Seq<u8>)>::empty()) == Seq::<u8>::empty());
        assert(children_bytes(cs) == Seq::<u8>::empty());
        assert(children_bytes(cs.push(e)) == seq![e.0] + e.1 + children_bytes(
            Seq::<(u8, Seq<u8>)>::empty(),
        ));
        assert(children_bytes(cs.push(e)) =~= children_bytes(cs) + seq![e.0] + e.1);
    } else {
        lemma_children_bytes_push(cs.drop_first(), e);
        assert(cs.push(e).drop_first() =~= cs.drop_first().push(e));
        assert(children_bytes(cs.push(e)) =~= children_bytes(cs) + seq![e.0] + e.1);
    }
}

/// Serialized form of a whole node: a tag byte, then the tagged fields with
/// four-byte big-endian lengths where the field length varies.
pub open spec fn spec_encode(n: NodeV) -> Seq<u8> {
    match n {
        NodeV::Leaf { suffix, value } => seq![0u8] + be32(suffix.len() as u32) + suffix + value,
        NodeV::Extension { prefix, child } => seq![1u8] + be32(prefix.len() as u32) + prefix
            + child,
        NodeV::Branch { value, children } => seq![2u8] + (match value {
            Some(v) => seq![1u8] + be32(v.len() as u32) + v,
            None => seq![0u8],
        }) + children_bytes(children),
    }
}

pub open spec fn decode_children(b: Seq<u8>) -> Option<Seq<(u8, Seq<u8>)>>
    decreases b.len(),
{
    if b.len() == 0 {
        Some(Seq::empty())
    } else if b.len() < 33 {
        None
    } else {
        match decode_children(b.skip(33)) {
            Some(rest) => Some(seq![(b[0], b.subrange(1, 33))] + rest),
            None => None,
        }
    }
}

/// The inverse of `spec_encode`; `None` names bytes that are no valid node.
pub open spec fn spec_decode(b: Seq<u8>) -> Option<NodeV> {
    if b.len() < 1 {
        None
    } else if b[0] == 0u8 {
        let t = b.skip(1);
        if t.len() < 4 {
            None
        } else {
            let n = from_be32(t[0], t[1], t[2], t[3]) as int;
            if t.len() - 4 < n || t.len() - 4 - n > u32::MAX {
                None
            } else {
                Some(NodeV::Leaf { suffix: t.subrange(4, 4 + n), value: t.skip(4 + n) })
            }
        }
    } else if b[0] == 1u8 {
        let t = b.skip(1);
        if t.len() < 4 {
            None
        } else {
            let n = from_be32(t[0], t[1], t[2], t[3]) as int;
            if n < 1 || t.len() != 4 + n + 32 {
                None
            } else {
                Some(NodeV::Extension { prefix: t.subrange(4, 4 + n), child: t.skip(4 + n) })
            }
        }
    } else if b[0] == 2u8 {
        let t = b.skip(1);
        if t.len() < 1 {
            None
        } else if t[0] == 1u8 {
            if t.len() < 5 {
                None
            } else {
                let n = from_be32(t[1], t[2], t[3], t[4]) as int;
                if t.len() - 5 < n {
                    None
                } else {
                    match decode_children(t.skip(5 + n)) {
                        Some(cs) => Some(NodeV::Branch {
                            value: Some(t.subrange(5, 5 + n)),
                            children: cs,
                        }),
                        None => None,
                    }
                }
            }
        } else if t[0] == 0u8 {
            match decode_children(t.skip(1)) {
                Some(cs) => Some(NodeV::Branch { value: None, children: cs }),
                None => None,
            }
        } else {
            None
        }
    } else {
        None
    }
}

pub proof fn lemma_decode_children_wf(b: Seq<u8>)
    ensures
        decode_children(b) matches Some(cs) ==> forall|i: int|
            0 <= i < cs.len() ==> (#[trigger] cs[i]).1.len() == 32,
    decreases b.len(),
{
    if b.len() == 0 {
    } else if b.len() < 33 {
    } else {
        lemma_decode_children_wf(b.skip(33));
    }
}

/// Bytes that decode at all decode to a node that can be re-serialized.
pub proof fn lemma_decode_wf(b: Seq<u8>)
    ensures
        spec_decode(b) matches Some(n) ==> node_wf(n),
{
    if spec_decode(b) is Some {
        if b[0] == 2u8 {
            let t = b.skip(1);
            if t[0] == 1u8 {
                let n = from_be32(t[1], t[2], t[3], t[4]) as int;
                lemma_decode_children_wf(t.skip(5 + n));
            } else {
                lemma_decode_children_wf(t.skip(1));
            }
        }
    }
}

pub fn push_be32(out: &mut Vec<u8>, x: u32)
    ensures
        final(out)@ == old(out)@ + be32(x),
{
    out.push((x >> 24) as u8);
    out.push((x >> 16) as u8);
    out.push((x >> 8) as u8);
    out.push(x as u8);
    proof {
        assert(out@ =~= old(out)@ + be32(x));
    }
}

pub fn push_bytes(out: &mut Vec<u8>, b: &Vec<u8>)
    ensures
        final(out)@ == old(out)@ + b@,
{
    let mut i: usize = 0;
    proof {
        assert(out@ =~= old(out)@ + b@.take(0));
    }
    while i < b.len()
        invariant
            i <= b@.len(),
            out@ == old(out)@ + b@.take(i as int),
        decreases b@.len() - i,
    {
        out.push(b[i]);
        proof {
            assert(out@ =~= old(out)@ + b@.take(i + 1));
        }
        i = i + 1;
    }
    proof {
        assert(out@ =~= old(out)@ + b@);
    }
}

pub fn push_digest(out: &mut Vec<u8>, d: &Digest)
    ensures
        final(out)@ == old(out)@ + d@,
{
    let mut i: usize = 0;
    proof {
        assert(out@ =~= old(out)@ + d@.take(0));
    }
    while i < 32
        invariant
            i <= 32,
            out@ == old(out)@ + d@.take(i as int),
        decreases 32 - i,
    {
        out.push(d.bytes[i]);
        proof {
            assert(out@ =~= old(out)@ + d@.take(i + 1));
        }
        i = i + 1;
    }
    proof {
        assert(out@ =~= old(out)@ + d@);
    }
}

/// Serializes a node; the bytes are exactly `spec_encode` of its shape.
pub fn encode(n: &Node) -> (r: Vec<u8>)
    requires
        node_wf(n@),
    ensures
        r@ == spec_encode(n@),
{
    let mut out: Vec<u8> = Vec::new();
    match n {
        Node::Leaf { suffix, value } => {
            out.push(0u8);
            push_be32(&mut out, suffix.len() as u32);
            push_bytes(&mut out, suffix);
            push_bytes(&mut out, value);
            proof {
                assert(out@ =~= spec_encode(n@));
            }
        }
        Node::Extension { prefix, child } => {
            out.push(1u8);
            push_be32(&mut out, prefix.len() as u32);
            push_bytes(&mut out, prefix);
            push_digest(&mut out, child);
            proof {
                assert(out@ =~= spec_encode(n@));
            }
        }
        Node::Branch { value, children } => {
            out.push(2u8);
            match value {
                Some(v) => {
                    out.push(1u8);
                    push_be32(&mut out, v.len() as u32);
                    push_bytes(&mut out, v);
                }
                None => {
                    out.push(0u8);
                }
            }
            let ghost head: Seq<u8> = out@;
            let ghost cv: Seq<(u8, Seq<u8>)> = (match n@ {
                NodeV::Branch { children, .. } => children,
                _ => Seq::empty(),
            });
            let mut i: usize = 0;
            proof {
                assert(out@ =~= head + children_bytes(cv.take(0)));
            }
            while i < children.len()
                invariant
                    i <= children@.len(),
                    cv == children@.map_values(|p: (u8, Digest)| (p.0, p.1@)),
                    cv.len() == children@.len(),
                    out@ == head + children_bytes(cv.take(i as int)),
                decreases children@.len() - i,
            {
                let p = children[i];
                out.push(p.0);
                push_digest(&mut out, &p.1);
                proof {
                    assert(cv.take(i + 1) =~= cv.take(i as int).push(cv[i as int]));
                    lemma_children_bytes_push(cv.take(i as int), cv[i as int]);
                    assert(cv[i as int] == (p.0, p.1@));
                    assert(out@ =~= head + children_bytes(cv.take(i + 1)));
                }
                i = i + 1;
            }
            proof {
                assert(cv.take(cv.len() as int) =~= cv);
                assert(out@ =~= spec_encode(n@));
            }
        }
    }
    out
}

pub fn read_be32(b: &Vec<u8>, pos: usize) -> (r: u32)
    requires
        pos + 4 <= b@.len(),
    ensures
        r == from_be32(b@[pos as int], b@[pos + 1], b@[pos + 2], b@[pos + 3]),
{
    let blen = b.len();
    ((b[pos] as u32) << 24) | ((b[pos + 1] as u32) << 16) | ((b[pos + 2] as u32) << 8) | (b[pos
        + 3] as u32)
}

pub fn subvec(b: &Vec<u8>, i: usize, j: usize) -> (r: Vec<u8>)
    requires
        i <= j && j <= b@.len(),
    ensures
        r@ == b@.subrange(i as int, j as int),
{
    let mut out: Vec<u8> = Vec::new();
    let mut k: usize = i;
    proof {
        assert(out@ =~= b@.subrange(i as int, i as int));
    }
    while k < j
        invariant
            i <= k <= j <= b@.len(),
            out@ == b@.subrange(i as int, k as int),
        decreases j - k,
    {
        out.push(b[k]);
        proof {
            assert(out@ =~= b@.subrange(i as int, k + 1));
        }
        k = k + 1;
    }
    out
}

pub fn read_digest(b: &Vec<u8>, pos: usize) -> (r: Digest)
    requires
        pos + 32 <= b@.len(),
    ensures
        r@ == b@.subrange(pos as int, pos + 32),
{
    let blen = b.len();
    let mut a: [u8; 32] = [0u8; 32];
    let mut j: usize = 0;
    while j < 32
        invariant
            j <= 32,
            pos + 32 <= blen == b@.len(),
            forall|t: int| 0 <= t < j ==> a@[t] == b@[pos + t],
        decreases 32 - j,
    {
        a[j] = b[pos + j];
        j = j + 1;
    }
    proof {
        assert(a@ =~= b@.subrange(pos as int, pos + 32));
    }
    Digest::new(a)
}

pub proof fn lemma_decode_children_total(s: Seq<u8>)
    requires
        s.len() % 33 == 0,
    ensures
        decode_children(s) matches Some(cs) && (decode_children(s) matches Some(cs) ==> cs.len()
            == s.len() / 33 && forall|i: int|
            0 <= i < cs.len() ==> (#[trigger] cs[i]) == (s[33 * i], s.subrange(
                33 * i + 1,
                33 * i + 33,
            ))),
    decreases s.len(),
{
    if s.len() == 0 {
    } else {
        assert(s.len() >= 33);
        lemma_decode_children_total(s.skip(33));
        let rest = decode_children(s.skip(33)).unwrap();
        let cs = decode_children(s).unwrap();
        assert(cs == seq![(s[0], s.subrange(1, 33))] + rest);
        assert forall|i: int| 0 <= i < cs.len() implies (#[trigger] cs[i]) == (
            s[33 * i],
            s.subrange(33 * i + 1, 33 * i + 33),
        ) by {
            if i == 0 {
                assert(cs[0] == (s[0], s.subrange(1, 33)));
            } else {
                assert(cs[i] == rest[i - 1]);
                assert(rest[i - 1] == (s.skip(33)[33 * (i - 1)], s.skip(33).subrange(
                    33 * (i - 1) + 1,
                    33 * (i - 1) + 33,
                )));
                assert(s.skip(33)[33 * (i - 1)] == s[33 * i]);
                assert(s.skip(33).subrange(33 * (i - 1) + 1, 33 * (i - 1) + 33) =~= s.subrange(
                    33 * i + 1,
                    33 * i + 33,
                ));
            }
        }
    }
}

/// Deserializes node bytes; returns `None` exactly where `spec_decode` does.
pub fn decode(b: &Vec<u8>) -> (r: Option<Node>)
    ensures
        r matches Some(n) ==> spec_decode(b@) == Some(n@) && node_wf(n@),
        r is None ==> spec_decode(b@) is None,
{
    proof {
        lemma_decode_wf(b@);
    }
    if b.len() < 1 {
        return None;
    }
    let tag = b[0];
    if tag == 0u8 {
        if b.len() < 5 {
            return None;
        }
        let n32 = read_be32(b, 1);
        let n = n32 as usize;
        proof {
            assert(b@.skip(1)[0] == b@[1] && b@.skip(1)[1] == b@[2] && b@.skip(1)[2] == b@[3]
                && b@.skip(1)[3] == b@[4]);
        }
        if b.len() - 5 < n {
            return None;
        }
        if b.len() - 5 - n > (u32::MAX as usize) {
            return None;
        }
        let suffix = subvec(b, 5, 5 + n);
        let value = subvec(b, 5 + n, b.len());
        let node = Node::Leaf { suffix, value };
        proof {
            let t = b@.skip(1);
            assert(t.subrange(4, 4 + n) =~= b@.subrange(5, 5 + n));
            assert(t.skip(4 + n) =~= b@.subrange(5 + n, b@.len() as int));
            assert(spec_decode(b@) == Some(node@));
        }
        Some(node)
    } else if tag == 1u8 {
        if b.len() < 5 {
            return None;
        }
        let n32 = read_be32(b, 1);
        let n = n32 as usize;
        proof {
            assert(b@.skip(1)[0] == b@[1] && b@.skip(1)[1] == b@[2] && b@.skip(1)[2] == b@[3]
                && b@.skip(1)[3] == b@[4]);
        }
        if n < 1 {
            return None;
        }
        if b.len() < 37 || b.len() - 37 != n {
            return None;
        }
        let prefix = subvec(b, 5, 5 + n);
        let child = read_digest(b, 5 + n);
        let node = Node::Extension { prefix, child };
        proof {
            let t = b@.skip(1);
            assert(t.subrange(4, 4 + n) =~= b@.subrange(5, 5 + n));
            assert(t.skip(4 + n) =~= b@.subrange(5 + n, (5 + n + 32) as int));
            assert(spec_decode(b@) == Some(node@));
        }
        Some(node)
    } else if tag == 2u8 {
        if b.len() < 2 {
            return None;
        }
        let hv = b[1];
        let mut value: Option<Vec<u8>> = None;
        let mut cpos: usize;
        if hv == 1u8 {
            if b.len() < 6 {
                return None;
            }
            let n32 = read_be32(b, 2);
            let n = n32 as usize;
            proof {
                let t = b@.skip(1);
                assert(t[1] == b@[2] && t[2] == b@[3] && t[3] == b@[4] && t[4] == b@[5]);
            }
            if b.len() - 6 < n {
                return None;
            }
            value = Some(subvec(b, 6, 6 + n));
            cpos = 6 + n;
        } else if hv == 0u8 {
            cpos = 2;
        } else {
            return None;
        }
        let rem = b.len() - cpos;
        if rem % 33 != 0 {
            proof {
                let t = b@.skip(1);
                let ctail = if hv == 1u8 {
                    let n = from_be32(t[1], t[2], t[3], t[4]) as int;
                    t.skip(5 + n)
                } else {
                    t.skip(1)
                };
                assert(ctail =~= b@.subrange(cpos as int, b@.len() as int));
                assert(ctail.len() % 33 != 0);
                lemma_decode_children_none(ctail);
            }
            return None;
        }
        let cnt = rem / 33;
        let ghost ctail: Seq<u8> = b@.subrange(cpos as int, b@.len() as int);
        proof {
            lemma_decode_children_total(ctail);
        }
        let ghost all: Seq<(u8, Seq<u8>)> = decode_children(ctail).unwrap();
        let mut children: Vec<(u8, Digest)> = Vec::new();
        let blen = b.len();
        let mut i: usize = 0;
        while i < cnt
            invariant
                i <= cnt,
                blen == b@.len(),
                cnt == (b@.len() - cpos) / 33,
                cpos + 33 * cnt <= b@.len(),
                cpos >= 2,
                ctail == b@.subrange(cpos as int, b@.len() as int),
                decode_children(ctail) == Some(all),
                all.len() == cnt,
                forall|t: int| 0 <= t < all.len() ==> (#[trigger] all[t]) == (
                    ctail[33 * t],
                    ctail.subrange(33 * t + 1, 33 * t + 33),
                ),
                children@.len() == i,
                forall|t: int| 0 <= t < i ==> (#[trigger] children@[t]).0 == all[t].0
                    && children@[t].1@ == all[t].1,
            decreases cnt - i,
        {
            proof {
                assert(33 * i + 33 <= 33 * cnt) by (nonlinear_arith)
                    requires
                        i < cnt,
                ;
            }
            let byte = b[cpos + 33 * i];
            let d = read_digest(b, cpos + 33 * i + 1);
            proof {
                assert(ctail[33 * i] == b@[cpos + 33 * i]);
                assert(ctail.subrange(33 * i + 1, 33 * i + 33) =~= b@.subrange(
                    cpos + 33 * i + 1,
                    cpos + 33 * i + 33,
                ));
            }
            children.push((byte, d));
            i = i + 1;
        }
        let node = Node::Branch { value, children };
        proof {
            let got = children@.map_values(|p: (u8, Digest)| (p.0, p.1@));
            assert(got =~= all);
            let t = b@.skip(1);
            if hv == 1u8 {
                let n = from_be32(t[1], t[2], t[3], t[4]) as int;
                assert(t.subrange(5, 5 + n) =~= b@.subrange(6, 6 + n));
                assert(t.skip(5 + n) =~= ctail);
                assert(spec_decode(b@) == Some(node@));
            } else {
                assert(t.skip(1) =~= ctail);
                assert(spec_decode(b@) == Some(node@));
            }
        }
        Some(node)
    } else {
        None
    }
}

pub proof fn lemma_decode_children_none(s: Seq<u8>)
    requires
        s.len() % 33 != 0,
    ensures
        decode_children(s) is None,
    decreases s.len(),
{
    if s.len() == 0 {
    } else if s.len() < 33 {
    } else {
        lemma_decode_children_none(s.skip(33));
    }
}

} // verus!
