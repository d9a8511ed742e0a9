use vstd::prelude::*;
use crate::digest::{Digest, digest_bytes};
use crate::model::empty_digest;
use crate::node::{Label, MapId, Node, NodeV, label_bytes, node_view};
use crate::sync::{Question, TableAnswer};
use crate::wrap::{Wrap, label_to_bytes};

verus! {

/// A count as eight little-endian bytes.
pub open spec fn u64_le_bytes(v: u64) -> Seq<u8> {
    Seq::new(8, |i: int| (v >> (8 * i) as u64) as u8)
}

/// The wire form of a question: the number of labels, then each label as
/// its kind, its shard and its hash, most significant hash byte first.
pub open spec fn question_bytes(labels: Seq<Label>) -> Seq<u8>
    decreases labels.len(),
{
    if labels.len() == 0 {
        u64_le_bytes(0)
    } else {
        u64_le_bytes(labels.len() as u64) + labels_bytes(labels)
    }
}

/// The labels of a question, one after the other.
pub open spec fn labels_bytes(labels: Seq<Label>) -> Seq<u8>
    decreases labels.len(),
{
    if labels.len() == 0 {
        Seq::<u8>::empty()
    } else {
        label_bytes(labels[0]) + labels_bytes(labels.drop_first())
    }
}

/// The wire form of one node: a kind tag, then either nothing, the two
/// child labels, or the length-prefixed key and value bytes.
pub open spec fn node_bytes(n: NodeV) -> Seq<u8> {
    match n {
        NodeV::Empty => seq![0u8],
        NodeV::Internal(a, b) => seq![1u8] + label_bytes(a) + label_bytes(b),
        NodeV::Leaf { key, value, .. } => seq![2u8] + u64_le_bytes(key.len() as u64) + key
            + u64_le_bytes(value.len() as u64) + value,
    }
}

/// The wire form of an answer: the number of nodes, then each node.
pub open spec fn answer_bytes(nodes: Seq<NodeV>) -> Seq<u8> {
    u64_le_bytes(nodes.len() as u64) + nodes_bytes(nodes)
}

pub open spec fn nodes_bytes(nodes: Seq<NodeV>) -> Seq<u8>
    decreases nodes.len(),
{
    if nodes.len() == 0 {
        Seq::<u8>::empty()
    } else {
        node_bytes(nodes[0]) + nodes_bytes(nodes.drop_first())
    }
}

/// Appends a count as eight little-endian bytes.
fn push_u64_le(out: &mut Vec<u8>, v: u64)
    ensures
        final(out)@ == old(out)@ + u64_le_bytes(v),
{
    let ghost base = out@;
    out.push((v >> 0u64) as u8);
    out.push((v >> 8u64) as u8);
    out.push((v >> 16u64) as u8);
    out.push((v >> 24u64) as u8);
    out.push((v >> 32u64) as u8);
    out.push((v >> 40u64) as u8);
    out.push((v >> 48u64) as u8);
    out.push((v >> 56u64) as u8);
    proof {
        assert(out@ =~= base + u64_le_bytes(v));
    }
}

/// Reads a count back out of eight little-endian bytes.
fn read_u64_le(bytes: &Vec<u8>, pos: usize) -> (r: u64)
    requires
        pos + 8 <= bytes@.len(),
    ensures
        u64_le_bytes(r) == bytes@.subrange(pos as int, pos as int + 8),
{
    let blen = bytes.len();
    let b0 = bytes[pos];
    let b1 = bytes[pos + 1];
    let b2 = bytes[pos + 2];
    let b3 = bytes[pos + 3];
    let b4 = bytes[pos + 4];
    let b5 = bytes[pos + 5];
    let b6 = bytes[pos + 6];
    let b7 = bytes[pos + 7];
    let v: u64 = (b0 as u64) | ((b1 as u64) << 8u64) | ((b2 as u64) << 16u64) | ((b3 as u64)
        << 24u64) | ((b4 as u64) << 32u64) | ((b5 as u64) << 40u64) | ((b6 as u64) << 48u64) | ((
    b7 as u64) << 56u64);
    proof {
        lemma_le_assemble(b0, b1, b2, b3, b4, b5, b6, b7);
        assert(u64_le_bytes(v) =~= bytes@.subrange(pos as int, pos as int + 8));
    }
    v
}

/// Assembling a word from eight bytes reads each byte back.
proof fn lemma_le_assemble(b0: u8, b1: u8, b2: u8, b3: u8, b4: u8, b5: u8, b6: u8, b7: u8)
    by (bit_vector)
    ensures
        ({
            let v: u64 = (b0 as u64) | ((b1 as u64) << 8u64) | ((b2 as u64) << 16u64) | ((
            b3 as u64) << 24u64) | ((b4 as u64) << 32u64) | ((b5 as u64) << 40u64) | ((b6 as u64)
                << 48u64) | ((b7 as u64) << 56u64);
            (v >> 0u64) as u8 == b0 && (v >> 8u64) as u8 == b1 && (v >> 16u64) as u8 == b2 && (v
                >> 24u64) as u8 == b3 && (v >> 32u64) as u8 == b4 && (v >> 40u64) as u8 == b5 && (v
                >> 48u64) as u8 == b6 && (v >> 56u64) as u8 == b7
        }),
{
}

/// Assembling a digest word from four big-endian bytes pairs reads back.
proof fn lemma_be_assemble(b0: u8, b1: u8, b2: u8, b3: u8, b4: u8, b5: u8, b6: u8, b7: u8)
    by (bit_vector)
    ensures
        ({
            let v: u64 = ((b0 as u64) << 56u64) | ((b1 as u64) << 48u64) | ((b2 as u64) << 40u64)
                | ((b3 as u64) << 32u64) | ((b4 as u64) << 24u64) | ((b5 as u64) << 16u64) | ((
            b6 as u64) << 8u64) | (b7 as u64);
            (v >> 56u64) as u8 == b0 && (v >> 48u64) as u8 == b1 && (v >> 40u64) as u8 == b2 && (v
                >> 32u64) as u8 == b3 && (v >> 24u64) as u8 == b4 && (v >> 16u64) as u8 == b5 && (v
                >> 8u64) as u8 == b6 && (v >> 0u64) as u8 == b7
        }),
{
}

/// Reads one big-endian word of a digest.
fn read_word_be(bytes: &Vec<u8>, pos: usize) -> (r: u64)
    requires
        pos + 8 <= bytes@.len(),
    ensures
        forall|j: int|
            0 <= j < 8 ==> #[trigger] ((r >> ((56 - 8 * j) as u64)) as u8) == bytes@[pos + j],
{
    let blen = bytes.len();
    let b0 = bytes[pos];
    let b1 = bytes[pos + 1];
    let b2 = bytes[pos + 2];
    let b3 = bytes[pos + 3];
    let b4 = bytes[pos + 4];
    let b5 = bytes[pos + 5];
    let b6 = bytes[pos + 6];
    let b7 = bytes[pos + 7];
    let v: u64 = ((b0 as u64) << 56u64) | ((b1 as u64) << 48u64) | ((b2 as u64) << 40u64) | ((
    b3 as u64) << 32u64) | ((b4 as u64) << 24u64) | ((b5 as u64) << 16u64) | ((b6 as u64) << 8u64)
        | (b7 as u64);
    proof {
        lemma_be_assemble(b0, b1, b2, b3, b4, b5, b6, b7);
        assert forall|j: int|
            0 <= j < 8 implies #[trigger] ((v >> ((56 - 8 * j) as u64)) as u8) == bytes@[pos
            + j] by {
            if j == 0 {
            } else if j == 1 {
            } else if j == 2 {
            } else if j == 3 {
            } else if j == 4 {
            } else if j == 5 {
            } else if j == 6 {
            } else {
            }
        }
    }
    v
}

/// Reads a digest back out of its 32 bytes.
fn read_digest(bytes: &Vec<u8>, pos: usize) -> (r: Digest)
    requires
        pos + 32 <= bytes@.len(),
    ensures
        digest_bytes(r) == bytes@.subrange(pos as int, pos as int + 32),
{
    let blen = bytes.len();
    let w0 = read_word_be(bytes, pos);
    let w1 = read_word_be(bytes, pos + 8);
    let w2 = read_word_be(bytes, pos + 16);
    let w3 = read_word_be(bytes, pos + 24);
    let r = Digest { w0, w1, w2, w3 };
    proof {
        assert forall|i: int|
            0 <= i < 32 implies crate::digest::digest_byte(r, i) == bytes@[pos + i] by {
            if i < 8 {
                assert((w0 >> ((56 - 8 * i) as u64)) as u8 == bytes@[pos + i]);
            } else if i < 16 {
                assert((w1 >> ((56 - 8 * (i - 8)) as u64)) as u8 == bytes@[pos + i]);
            } else if i < 24 {
                assert((w2 >> ((56 - 8 * (i - 16)) as u64)) as u8 == bytes@[pos + i]);
            } else {
                assert((w3 >> ((56 - 8 * (i - 24)) as u64)) as u8 == bytes@[pos + i]);
            }
        }
        assert(digest_bytes(r) =~= bytes@.subrange(pos as int, pos as int + 32));
    }
    r
}

/// Reads one label back out of its 34 bytes; refuses an unknown kind and a
/// malformed empty label.
fn read_label(bytes: &Vec<u8>, pos: usize, empty: &Digest) -> (r: Option<Label>)
    requires
        pos + 34 <= bytes@.len(),
        *empty == empty_digest(),
    ensures
        r matches Some(l) ==> label_bytes(l) == bytes@.subrange(pos as int, pos as int + 34),
{
    let blen = bytes.len();
    let kind = bytes[pos];
    let mid = bytes[pos + 1];
    let hash = read_digest(bytes, pos + 2);
    let l = match kind {
        0u8 => {
            if mid != 0 || !crate::apply::digests_equal(&hash, empty) {
                return None;
            }
            Label::Empty
        },
        1u8 => Label::Internal(MapId { id: mid }, hash),
        2u8 => Label::Leaf(MapId { id: mid }, hash),
        _ => {
            return None;
        },
    };
    proof {
        assert(label_bytes(l) =~= bytes@.subrange(pos as int, pos as int + 34));
    }
    Some(l)
}

/// Writes a question out in its canonical byte form.
pub fn encode_question(question: &Question) -> (r: Vec<u8>)
    requires
        question.labels@.len() <= u64::MAX,
    ensures
        r@ == question_bytes(question.labels@),
{
    let e = crate::wrap::empty_hash();
    let mut out: Vec<u8> = Vec::new();
    push_u64_le(&mut out, question.labels.len() as u64);
    let ghost ls = question.labels@;
    let mut i: usize = 0;
    while i < question.labels.len()
        invariant
            ls == question.labels@,
            i <= ls.len(),
            e == empty_digest(),
            out@ == u64_le_bytes(ls.len() as u64) + labels_bytes(ls.take(i as int)),
        decreases ls.len() - i,
    {
        let mut lb = label_to_bytes(&question.labels[i], &e);
        out.append(&mut lb);
        proof {
            lemma_labels_bytes_snoc(ls, i as int);
        }
        i = i + 1;
    }
    proof {
        assert(ls.take(ls.len() as int) =~= ls);
        if ls.len() == 0 {
            assert(labels_bytes(ls) =~= Seq::<u8>::empty());
            assert(out@ =~= question_bytes(ls));
        }
    }
    out
}

/// Taking one more label appends its bytes.
proof fn lemma_labels_bytes_snoc(ls: Seq<Label>, i: int)
    requires
        0 <= i < ls.len(),
    ensures
        labels_bytes(ls.take(i + 1)) == labels_bytes(ls.take(i)) + label_bytes(ls[i]),
    decreases i,
{
    if i == 0 {
        assert(ls.take(1).drop_first() =~= Seq::<Label>::empty());
        assert(ls.take(1)[0] == ls[0]);
        assert(ls.take(0) =~= Seq::<Label>::empty());
        assert(labels_bytes(ls.take(1).drop_first()) == Seq::<u8>::empty());
        assert(labels_bytes(ls.take(1)) == label_bytes(ls[0]) + Seq::<u8>::empty());
        assert(label_bytes(ls[0]) + Seq::<u8>::empty() =~= label_bytes(ls[0]));
        assert(labels_bytes(ls.take(0)) + label_bytes(ls[0]) =~= label_bytes(ls[0]));
    } else {
        lemma_labels_bytes_snoc(ls.drop_first(), i - 1);
        assert(ls.take(i + 1)[0] == ls[0]);
        assert(ls.take(i + 1).drop_first() =~= ls.drop_first().take(i));
        assert(ls.take(i).drop_first() =~= ls.drop_first().take(i - 1));
        assert(ls.take(i)[0] == ls[0]);
        assert(ls.drop_first()[i - 1] == ls[i]);
        assert(labels_bytes(ls.take(i + 1)) == label_bytes(ls[0]) + labels_bytes(
            ls.drop_first().take(i),
        ));
        assert(label_bytes(ls[0]) + (labels_bytes(ls.drop_first().take(i - 1)) + label_bytes(
            ls[i],
        )) =~= (label_bytes(ls[0]) + labels_bytes(ls.drop_first().take(i - 1))) + label_bytes(
            ls[i],
        ));
    }
}

/// Reads a question back out of its canonical byte form; refuses anything
/// that does not parse exactly.
pub fn decode_question(bytes: &Vec<u8>) -> (r: Option<Question>)
    ensures
        r matches Some(q) ==> bytes@ == question_bytes(q.labels@),
{
    if bytes.len() < 8 {
        return None;
    }
    let count = read_u64_le(bytes, 0);
    if count > (usize::MAX as u64) {
        return None;
    }
    let n = count as usize;
    if n > (usize::MAX - 8) / 34 {
        return None;
    }
    if bytes.len() != 8 + n * 34 {
        return None;
    }
    let e = crate::wrap::empty_hash();
    let blen = bytes.len();
    let mut labels: Vec<Label> = Vec::new();
    let mut i: usize = 0;
    while i < n
        invariant
            blen == bytes@.len(),
            n * 34 + 8 == bytes@.len(),
            i <= n,
            e == empty_digest(),
            labels@.len() == i,
            bytes@.subrange(0, 8) == u64_le_bytes(n as u64),
            labels_bytes(labels@) == bytes@.subrange(8, 8 + i as int * 34),
        decreases n - i,
    {
        proof {
            assert(i as int * 34 <= n as int * 34) by (nonlinear_arith)
                requires
                    0 <= i < n,
            ;
            assert((i + 1) as int * 34 <= n as int * 34) by (nonlinear_arith)
                requires
                    0 <= i < n,
            ;
        }
        let pos = 8 + i * 34;
        let l = match read_label(bytes, pos, &e) {
            Some(l) => l,
            None => {
                return None;
            },
        };
        let ghost olds = labels@;
        labels.push(l);
        proof {
            lemma_labels_bytes_snoc(labels@, i as int);
            assert(labels@.take(i as int) =~= olds);
            assert(labels@.take(i as int + 1) =~= labels@);
            assert(labels_bytes(labels@) == labels_bytes(olds) + label_bytes(l));
            assert(bytes@.subrange(8, 8 + (i + 1) as int * 34) =~= bytes@.subrange(
                8,
                8 + i as int * 34,
            ) + bytes@.subrange(8 + i as int * 34, 8 + i as int * 34 + 34));
        }
        i = i + 1;
    }
    proof {
        assert(labels_bytes(labels@) == bytes@.subrange(8, bytes@.len() as int));
        assert(bytes@ =~= bytes@.subrange(0, 8) + bytes@.subrange(8, bytes@.len() as int));
        if n == 0 {
            assert(question_bytes(labels@) =~= u64_le_bytes(0));
            assert(bytes@.subrange(8, bytes@.len() as int) =~= Seq::<u8>::empty());
        }
    }
    Some(Question { labels })
}

/// Taking one more node appends its bytes.
proof fn lemma_nodes_bytes_snoc(ns: Seq<NodeV>, i: int)
    requires
        0 <= i < ns.len(),
    ensures
        nodes_bytes(ns.take(i + 1)) == nodes_bytes(ns.take(i)) + node_bytes(ns[i]),
    decreases i,
{
    if i == 0 {
        assert(ns.take(1).drop_first() =~= Seq::<NodeV>::empty());
        assert(ns.take(1)[0] == ns[0]);
        assert(ns.take(0) =~= Seq::<NodeV>::empty());
        assert(nodes_bytes(ns.take(1).drop_first()) == Seq::<u8>::empty());
        assert(nodes_bytes(ns.take(1)) == node_bytes(ns[0]) + Seq::<u8>::empty());
        assert(node_bytes(ns[0]) + Seq::<u8>::empty() =~= node_bytes(ns[0]));
        assert(nodes_bytes(ns.take(0)) + node_bytes(ns[0]) =~= node_bytes(ns[0]));
    } else {
        lemma_nodes_bytes_snoc(ns.drop_first(), i - 1);
        assert(ns.take(i + 1)[0] == ns[0]);
        assert(ns.take(i + 1).drop_first() =~= ns.drop_first().take(i));
        assert(ns.take(i).drop_first() =~= ns.drop_first().take(i - 1));
        assert(ns.take(i)[0] == ns[0]);
        assert(ns.drop_first()[i - 1] == ns[i]);
        assert(nodes_bytes(ns.take(i + 1)) == node_bytes(ns[0]) + nodes_bytes(
            ns.drop_first().take(i),
        ));
        assert(node_bytes(ns[0]) + (nodes_bytes(ns.drop_first().take(i - 1)) + node_bytes(
            ns[i],
        )) =~= (node_bytes(ns[0]) + nodes_bytes(ns.drop_first().take(i - 1))) + node_bytes(ns[i]));
    }
}

/// Writes one node out in its canonical byte form.
fn encode_node(out: &mut Vec<u8>, node: &Node, empty: &Digest)
    requires
        *empty == empty_digest(),
        node matches Node::Leaf(k, v) ==> k.data@.len() <= u64::MAX && v.data@.len() <= u64::MAX,
    ensures
        final(out)@ == old(out)@ + node_bytes(node_view(*node)),
{
    let ghost base = out@;
    match node {
        Node::Empty => {
            out.push(0);
            proof {
                assert(out@ =~= base + node_bytes(node_view(*node)));
            }
        },
        Node::Internal(a, b) => {
            out.push(1);
            let mut ab = label_to_bytes(a, empty);
            out.append(&mut ab);
            let mut bb = label_to_bytes(b, empty);
            out.append(&mut bb);
            proof {
                assert(out@ =~= base + node_bytes(node_view(*node)));
            }
        },
        Node::Leaf(k, v) => {
            out.push(2);
            push_u64_le(out, k.data.len() as u64);
            let mut kb = crate::wrap::clone_bytes(&k.data);
            out.append(&mut kb);
            push_u64_le(out, v.data.len() as u64);
            let mut vb = crate::wrap::clone_bytes(&v.data);
            out.append(&mut vb);
            proof {
                assert(out@ =~= base + node_bytes(node_view(*node)));
            }
        },
    }
}

/// Writes an answer out in its canonical byte form.
pub fn encode_answer(answer: &TableAnswer) -> (r: Vec<u8>)
    requires
        answer.nodes@.len() <= u64::MAX,
        forall|i: int|
            0 <= i < answer.nodes@.len() ==> ((#[trigger] answer.nodes@[i]) matches Node::Leaf(
                k,
                v,
            ) ==> k.data@.len() <= u64::MAX && v.data@.len() <= u64::MAX),
    ensures
        r@ == answer_bytes(crate::sync::nodes_view(answer.nodes@)),
{
    let e = crate::wrap::empty_hash();
    let mut out: Vec<u8> = Vec::new();
    push_u64_le(&mut out, answer.nodes.len() as u64);
    let ghost ns = crate::sync::nodes_view(answer.nodes@);
    let mut i: usize = 0;
    while i < answer.nodes.len()
        invariant
            ns == crate::sync::nodes_view(answer.nodes@),
            i <= answer.nodes@.len(),
            e == empty_digest(),
            forall|j: int|
                0 <= j < answer.nodes@.len() ==> ((#[trigger] answer.nodes@[j]) matches Node::Leaf(
                    k,
                    v,
                ) ==> k.data@.len() <= u64::MAX && v.data@.len() <= u64::MAX),
            out@ == u64_le_bytes(ns.len() as u64) + nodes_bytes(ns.take(i as int)),
        decreases answer.nodes@.len() - i,
    {
        encode_node(&mut out, &answer.nodes[i], &e);
        proof {
            lemma_nodes_bytes_snoc(ns, i as int);
            assert(node_view(answer.nodes@[i as int]) == ns[i as int]);
        }
        i = i + 1;
    }
    proof {
        assert(ns.take(ns.len() as int) =~= ns);
    }
    out
}

/// Copies a byte range out of the wire form.
fn read_bytes(bytes: &Vec<u8>, pos: usize, len: usize) -> (r: Vec<u8>)
    requires
        pos + len <= bytes@.len(),
    ensures
        r@ == bytes@.subrange(pos as int, pos as int + len as int),
{
    let blen = bytes.len();
    let mut out: Vec<u8> = Vec::new();
    let mut i: usize = 0;
    while i < len
        invariant
            blen == bytes@.len(),
            pos + len <= bytes@.len(),
            i <= len,
            out@ == bytes@.subrange(pos as int, pos as int + i as int),
        decreases len - i,
    {
        out.push(bytes[pos + i]);
        proof {
            assert(out@ =~= bytes@.subrange(pos as int, pos as int + i as int + 1));
        }
        i = i + 1;
    }
    out
}

/// Reads one node back out of the wire form, advancing the cursor; refuses
/// anything that does not parse exactly.
fn decode_node(bytes: &Vec<u8>, pos: usize, empty: &Digest) -> (r: Option<(Node, usize)>)
    requires
        *empty == empty_digest(),
        pos <= bytes@.len(),
    ensures
        r matches Some(p) ==> {
            &&& pos < p.1 <= bytes@.len()
            &&& node_bytes(node_view(p.0)) == bytes@.subrange(pos as int, p.1 as int)
        },
{
    let blen = bytes.len();
    if pos >= blen {
        return None;
    }
    let tag = bytes[pos];
    if tag == 0 {
        let node = Node::Empty;
        proof {
            assert(node_bytes(node_view(node)) =~= bytes@.subrange(pos as int, pos as int + 1));
        }
        Some((node, pos + 1))
    } else if tag == 1 {
        if blen - pos < 69 {
            return None;
        }
        let a = match read_label(bytes, pos + 1, empty) {
            Some(l) => l,
            None => {
                return None;
            },
        };
        let b = match read_label(bytes, pos + 35, empty) {
            Some(l) => l,
            None => {
                return None;
            },
        };
        let node = Node::Internal(a, b);
        proof {
            assert(node_bytes(node_view(node)) =~= bytes@.subrange(pos as int, pos as int + 69));
        }
        Some((node, pos + 69))
    } else if tag == 2 {
        if blen - pos < 9 {
            return None;
        }
        let klen64 = read_u64_le(bytes, pos + 1);
        if klen64 > (usize::MAX as u64) {
            return None;
        }
        let klen = klen64 as usize;
        if blen - pos - 9 < klen {
            return None;
        }
        let key = read_bytes(bytes, pos + 9, klen);
        let vstart = pos + 9 + klen;
        if blen - vstart < 8 {
            return None;
        }
        let vlen64 = read_u64_le(bytes, vstart);
        if vlen64 > (usize::MAX as u64) {
            return None;
        }
        let vlen = vlen64 as usize;
        if blen - vstart - 8 < vlen {
            return None;
        }
        let value = read_bytes(bytes, vstart + 8, vlen);
        let node = Node::Leaf(Wrap::new(key), Wrap::new(value));
        let end = vstart + 8 + vlen;
        proof {
            assert(node_bytes(node_view(node)) =~= bytes@.subrange(pos as int, end as int));
        }
        Some((node, end))
    } else {
        None
    }
}

/// Reads an answer back out of its canonical byte form; refuses anything
/// that does not parse exactly. The parsed leaf wraps carry freshly computed
/// digests, so a doctored payload shifts every commitment derived from it.
pub fn decode_answer(bytes: &Vec<u8>) -> (r: Option<TableAnswer>)
    ensures
        r matches Some(a) ==> bytes@ == answer_bytes(crate::sync::nodes_view(a.nodes@)),
{
    let blen = bytes.len();
    if blen < 8 {
        return None;
    }
    let count = read_u64_le(bytes, 0);
    if count > (usize::MAX as u64) {
        return None;
    }
    let n = count as usize;
    let e = crate::wrap::empty_hash();
    let mut nodes: Vec<Node> = Vec::new();
    let mut pos: usize = 8;
    let mut i: usize = 0;
    while i < n
        invariant
            blen == bytes@.len(),
            8 <= pos <= blen,
            i <= n,
            e == empty_digest(),
            nodes@.len() == i,
            bytes@.subrange(0, 8) == u64_le_bytes(n as u64),
            nodes_bytes(crate::sync::nodes_view(nodes@)) == bytes@.subrange(8, pos as int),
        decreases n - i,
    {
        let (node, newpos) = match decode_node(bytes, pos, &e) {
            Some(p) => p,
            None => {
                return None;
            },
        };
        let ghost oldviews = crate::sync::nodes_view(nodes@);
        nodes.push(node);
        proof {
            let views = crate::sync::nodes_view(nodes@);
            assert(views =~= oldviews.push(node_view(node)));
            lemma_nodes_bytes_snoc(views, i as int);
            assert(views.take(i as int) =~= oldviews);
            assert(views.take(i as int + 1) =~= views);
            assert(views[i as int] == node_view(node));
            assert(bytes@.subrange(8, newpos as int) =~= bytes@.subrange(8, pos as int)
                + bytes@.subrange(pos as int, newpos as int));
        }
        pos = newpos;
        i = i + 1;
    }
    if pos != blen {
        return None;
    }
    proof {
        let views = crate::sync::nodes_view(nodes@);
        assert(views.len() == n);
        assert(bytes@ =~= bytes@.subrange(0, 8) + bytes@.subrange(8, blen as int));
    }
    Some(TableAnswer { nodes })
}

} // verus!
