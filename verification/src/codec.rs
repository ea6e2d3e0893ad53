//! The binary archive format.
//!
//! An archive is the byte-exact, position-independent serialization of one
//! [`FlatValue`]: an 8-byte header (node count, root marker) followed by
//! each node in arena order. All integers are little-endian; text is a
//! 4-byte byte-length followed by UTF-8 bytes. Interpreting the buffer
//! needs no base address and no fixup pass, and encoding is deterministic:
//! the same tree always yields the same bytes.
//!
//! Both directions are pinned down at the spec level: [`archive_bytes`]
//! says exactly which bytes a tree serializes to, [`parse_archive`] says
//! exactly which buffers are valid and which tree they denote, and
//! [`lemma_archive_round_trip`] proves that decoding an encoded tree gives
//! the tree back.

use vstd::prelude::*;
use vstd::bytes::{
    spec_u32_to_le_bytes, spec_u32_from_le_bytes, spec_u64_to_le_bytes, spec_u64_from_le_bytes,
    u32_to_le_bytes, u32_from_le_bytes, u64_to_le_bytes, u64_from_le_bytes,
    lemma_auto_spec_u32_to_from_le_bytes, lemma_auto_spec_u64_to_from_le_bytes,
};
use vstd::utf8::{encode_utf8, decode_utf8, valid_utf8};
use vstd::string::StringSliceAdditionalSpecFns;
use vstd::string::StringExecFns;
use crate::value::{FlatValue, ValueNode, NodeView, TreeView, node_refs_ok};
use crate::error::SnapconfigError;

verus! {

broadcast use vstd::utf8::encode_utf8_valid_utf8, vstd::utf8::encode_utf8_decode_utf8;

/// Tag byte of a `Null` node.
pub const TAG_NULL: u8 = 0;

/// Tag byte of a `Bool(false)` node.
pub const TAG_FALSE: u8 = 1;

/// Tag byte of a `Bool(true)` node.
pub const TAG_TRUE: u8 = 2;

/// Tag byte of an `Int` node.
pub const TAG_INT: u8 = 3;

/// Tag byte of a `Float` node (decimal text payload).
pub const TAG_FLOAT: u8 = 4;

/// Tag byte of a `String` node.
pub const TAG_STRING: u8 = 5;

/// Tag byte of an `Array` node.
pub const TAG_ARRAY: u8 = 6;

/// Tag byte of an `Object` node.
pub const TAG_OBJECT: u8 = 7;

/// Root marker meaning "no root was set".
pub const ROOT_NONE: u32 = 0xFFFF_FFFF;

/// A text chunk: 4-byte byte-length, then the UTF-8 bytes.
pub open spec fn enc_text(s: Seq<char>) -> Seq<u8> {
    spec_u32_to_le_bytes(encode_utf8(s).len() as u32) + encode_utf8(s)
}

/// The text's UTF-8 form fits the 4-byte length field.
pub open spec fn text_encodable(s: Seq<char>) -> bool {
    encode_utf8(s).len() < 0x1_0000_0000
}

/// Array elements from position `j` on, each a 4-byte index.
pub open spec fn enc_idxs(els: Seq<u32>, j: int) -> Seq<u8>
    decreases els.len() - j,
{
    if j < 0 || j >= els.len() {
        Seq::empty()
    } else {
        spec_u32_to_le_bytes(els[j]) + enc_idxs(els, j + 1)
    }
}

/// Object entries from position `j` on: key text chunk, then value index.
pub open spec fn enc_pairs(pairs: Seq<(Seq<char>, u32)>, j: int) -> Seq<u8>
    decreases pairs.len() - j,
{
    if j < 0 || j >= pairs.len() {
        Seq::empty()
    } else {
        enc_text(pairs[j].0) + spec_u32_to_le_bytes(pairs[j].1) + enc_pairs(pairs, j + 1)
    }
}

/// One node: a tag byte, then the payload.
pub open spec fn enc_node(n: NodeView) -> Seq<u8> {
    match n {
        NodeView::Null => seq![TAG_NULL],
        NodeView::Bool(b) => if b {
            seq![TAG_TRUE]
        } else {
            seq![TAG_FALSE]
        },
        NodeView::Int(i) => seq![TAG_INT] + spec_u64_to_le_bytes(i as u64),
        NodeView::Float(t) => seq![TAG_FLOAT] + enc_text(t),
        NodeView::Str(s) => seq![TAG_STRING] + enc_text(s),
        NodeView::Array(els) => seq![TAG_ARRAY] + spec_u32_to_le_bytes(els.len() as u32)
            + enc_idxs(els, 0),
        NodeView::Object(pairs) => seq![TAG_OBJECT] + spec_u32_to_le_bytes(pairs.len() as u32)
            + enc_pairs(pairs, 0),
    }
}

/// Every length and count of the node fits its 4-byte field.
pub open spec fn node_encodable(n: NodeView) -> bool {
    match n {
        NodeView::Float(t) => text_encodable(t),
        NodeView::Str(s) => text_encodable(s),
        NodeView::Array(els) => els.len() < 0x1_0000_0000,
        NodeView::Object(pairs) => pairs.len() < 0x1_0000_0000 && forall|j: int|
            0 <= j < pairs.len() ==> text_encodable((#[trigger] pairs[j]).0),
        _ => true,
    }
}

/// The nodes from position `i` on, in arena order.
pub open spec fn enc_nodes(nodes: Seq<NodeView>, i: int) -> Seq<u8>
    decreases nodes.len() - i,
{
    if i < 0 || i >= nodes.len() {
        Seq::empty()
    } else {
        enc_node(nodes[i]) + enc_nodes(nodes, i + 1)
    }
}

/// The tree is small enough to index: node count and every in-node length
/// fit their 4-byte fields, and the root (if set) lies inside the arena.
pub open spec fn tree_encodable(t: TreeView) -> bool {
    t.nodes.len() < 0x1_0000_0000 && (forall|i: int|
        0 <= i < t.nodes.len() ==> node_encodable(#[trigger] t.nodes[i])) && match t.root {
        Option::Some(r) => r < t.nodes.len(),
        Option::None => true,
    }
}

/// The root marker: the root index, or [`ROOT_NONE`].
pub open spec fn root_marker(r: Option<u32>) -> u32 {
    match r {
        Option::Some(i) => i,
        Option::None => ROOT_NONE,
    }
}

/// The byte-exact serialization of a tree.
pub open spec fn archive_bytes(t: TreeView) -> Seq<u8> {
    spec_u32_to_le_bytes(t.nodes.len() as u32) + spec_u32_to_le_bytes(root_marker(t.root))
        + enc_nodes(t.nodes, 0)
}

/// The 4-byte little-endian integer at `pos`.
pub open spec fn take4(b: Seq<u8>, pos: int) -> u32 {
    spec_u32_from_le_bytes(b.subrange(pos, pos + 4))
}

/// The 8-byte little-endian integer at `pos`.
pub open spec fn take8(b: Seq<u8>, pos: int) -> u64 {
    spec_u64_from_le_bytes(b.subrange(pos, pos + 8))
}

/// Parse a text chunk at `pos`: its characters and the position after it.
/// `None` if the buffer is too short or the bytes are not UTF-8.
pub open spec fn parse_text(b: Seq<u8>, pos: int) -> Option<(Seq<char>, int)> {
    if pos + 4 > b.len() {
        Option::None
    } else {
        let len = take4(b, pos) as int;
        if pos + 4 + len > b.len() {
            Option::None
        } else {
            let sb = b.subrange(pos + 4, pos + 4 + len);
            if valid_utf8(sb) {
                Option::Some((decode_utf8(sb), pos + 4 + len))
            } else {
                Option::None
            }
        }
    }
}

/// Parse `cnt` object entries starting at `pos`.
pub open spec fn parse_pairs(b: Seq<u8>, pos: int, cnt: int) -> Option<
    (Seq<(Seq<char>, u32)>, int),
>
    decreases cnt,
{
    if cnt <= 0 {
        Option::Some((Seq::empty(), pos))
    } else {
        match parse_text(b, pos) {
            Option::None => Option::None,
            Option::Some((key, p2)) => if p2 + 4 > b.len() {
                Option::None
            } else {
                let vidx = take4(b, p2);
                match parse_pairs(b, p2 + 4, cnt - 1) {
                    Option::None => Option::None,
                    Option::Some((rest, end)) => Option::Some((seq![(key, vidx)] + rest, end)),
                }
            },
        }
    }
}

/// Parse one node at `pos`: its shape and the position after it. `None` on
/// an unrecognized tag, a truncated payload, or invalid text.
pub open spec fn parse_node(b: Seq<u8>, pos: int) -> Option<(NodeView, int)> {
    if pos < 0 || pos >= b.len() {
        Option::None
    } else {
        let tag = b[pos];
        if tag == TAG_NULL {
            Option::Some((NodeView::Null, pos + 1))
        } else if tag == TAG_FALSE {
            Option::Some((NodeView::Bool(false), pos + 1))
        } else if tag == TAG_TRUE {
            Option::Some((NodeView::Bool(true), pos + 1))
        } else if tag == TAG_INT {
            if pos + 9 <= b.len() {
                Option::Some((NodeView::Int(take8(b, pos + 1) as i64), pos + 9))
            } else {
                Option::None
            }
        } else if tag == TAG_FLOAT {
            match parse_text(b, pos + 1) {
                Option::Some((s, p2)) => Option::Some((NodeView::Float(s), p2)),
                Option::None => Option::None,
            }
        } else if tag == TAG_STRING {
            match parse_text(b, pos + 1) {
                Option::Some((s, p2)) => Option::Some((NodeView::Str(s), p2)),
                Option::None => Option::None,
            }
        } else if tag == TAG_ARRAY {
            if pos + 5 > b.len() {
                Option::None
            } else {
                let cnt = take4(b, pos + 1) as int;
                if pos + 5 + 4 * cnt > b.len() {
                    Option::None
                } else {
                    Option::Some(
                        (
                            NodeView::Array(Seq::new(cnt as nat, |j: int| take4(b, pos + 5 + 4 * j))),
                            pos + 5 + 4 * cnt,
                        ),
                    )
                }
            }
        } else if tag == TAG_OBJECT {
            if pos + 5 > b.len() {
                Option::None
            } else {
                let cnt = take4(b, pos + 1) as int;
                match parse_pairs(b, pos + 5, cnt) {
                    Option::None => Option::None,
                    Option::Some((pairs, end)) => Option::Some((NodeView::Object(pairs), end)),
                }
            }
        } else {
            Option::None
        }
    }
}

/// Parse nodes `i .. n` starting at `pos`, demanding bottom-up references
/// and that the final node ends exactly at the end of the buffer.
pub open spec fn parse_nodes(b: Seq<u8>, pos: int, i: int, n: int) -> Option<Seq<NodeView>>
    decreases n - i,
{
    if i >= n {
        if pos == b.len() {
            Option::Some(Seq::empty())
        } else {
            Option::None
        }
    } else {
        match parse_node(b, pos) {
            Option::None => Option::None,
            Option::Some((nd, p2)) => if !node_refs_ok(nd, i) {
                Option::None
            } else {
                match parse_nodes(b, p2, i + 1, n) {
                    Option::None => Option::None,
                    Option::Some(rest) => Option::Some(seq![nd] + rest),
                }
            },
        }
    }
}

/// Which buffers are valid archives, and which tree each one denotes.
///
/// A buffer is valid iff it has the 8-byte header, every node parses with a
/// recognized tag, in-bounds bottom-up references and valid UTF-8 text, the
/// last node ends exactly at the buffer end, and the root marker is either
/// [`ROOT_NONE`] or an in-bounds index. Sortedness of object keys is a
/// producer obligation and is deliberately not re-checked here.
pub open spec fn parse_archive(b: Seq<u8>) -> Option<TreeView> {
    if b.len() < 8 {
        Option::None
    } else {
        let n = take4(b, 0) as int;
        let marker = take4(b, 4);
        match parse_nodes(b, 8, 0, n) {
            Option::None => Option::None,
            Option::Some(nodes) => if marker == ROOT_NONE {
                Option::Some(TreeView { nodes, root: Option::None })
            } else if (marker as int) < n {
                Option::Some(TreeView { nodes, root: Option::Some(marker) })
            } else {
                Option::None
            },
        }
    }
}

/// Every node's counts and text lengths fit their 4-byte fields.
pub open spec fn nodes_encodable(nodes: Seq<NodeView>) -> bool {
    forall|i: int| 0 <= i < nodes.len() ==> node_encodable(#[trigger] nodes[i])
}

/// A parsed archive has bottom-up references everywhere, an in-bounds
/// root, and every in-node length within its 4-byte field.
pub proof fn lemma_parse_archive_refs_ok(b: Seq<u8>)
    requires
        parse_archive(b) is Some,
    ensures
        crate::value::nodes_refs_ok(parse_archive(b).unwrap().nodes),
        nodes_encodable(parse_archive(b).unwrap().nodes),
        match parse_archive(b).unwrap().root {
            Option::Some(r) => r < parse_archive(b).unwrap().nodes.len(),
            Option::None => true,
        },
{
    let n = take4(b, 0) as int;
    lemma_parse_nodes_shape(b, 8, 0, n);
}

/// Entries parsed by [`parse_pairs`] are exactly `cnt` many, each with an
/// encodable key.
proof fn lemma_parse_pairs_shape(b: Seq<u8>, pos: int, cnt: int)
    requires
        0 <= pos,
        parse_pairs(b, pos, cnt) is Some,
    ensures
        parse_pairs(b, pos, cnt).unwrap().0.len() == if cnt >= 0 {
            cnt
        } else {
            0int
        },
        forall|k: int|
            0 <= k < parse_pairs(b, pos, cnt).unwrap().0.len() ==> text_encodable(
                (#[trigger] parse_pairs(b, pos, cnt).unwrap().0[k]).0,
            ),
    decreases cnt,
{
    broadcast use vstd::utf8::decode_utf8_encode_utf8;

    if cnt > 0 {
        let (key, p2) = parse_text(b, pos).unwrap();
        lemma_parse_pairs_shape(b, p2 + 4, cnt - 1);
        let rest = parse_pairs(b, p2 + 4, cnt - 1).unwrap().0;
        let whole = parse_pairs(b, pos, cnt).unwrap().0;
        assert(whole == seq![(key, take4(b, p2))] + rest);
        let len = take4(b, pos) as int;
        let sb = b.subrange(pos + 4, pos + 4 + len);
        assert(pos + 4 + len <= b.len());
        assert(sb.len() == len);
        assert(key == vstd::utf8::decode_utf8(sb));
        assert(vstd::utf8::encode_utf8(vstd::utf8::decode_utf8(sb)) =~= sb);
        assert(text_encodable(key));
        assert forall|k: int| 0 <= k < whole.len() implies text_encodable(
            (#[trigger] whole[k]).0,
        ) by {
            if k > 0 {
                assert(whole[k] == rest[k - 1]);
            }
        }
    }
}

/// A node that parses has encodable payloads.
proof fn lemma_parse_node_encodable(b: Seq<u8>, pos: int)
    requires
        parse_node(b, pos) is Some,
    ensures
        node_encodable(parse_node(b, pos).unwrap().0),
{
    broadcast use vstd::utf8::decode_utf8_encode_utf8;

    let nd = parse_node(b, pos).unwrap().0;
    let tag = b[pos];
    if tag == TAG_FLOAT || tag == TAG_STRING {
        let len = take4(b, pos + 1) as int;
        let sb = b.subrange(pos + 1 + 4, pos + 1 + 4 + len);
        assert(pos + 1 + 4 + len <= b.len());
        assert(sb.len() == len);
        assert(vstd::utf8::encode_utf8(vstd::utf8::decode_utf8(sb)) =~= sb);
        match nd {
            NodeView::Float(t) => {
                assert(t == vstd::utf8::decode_utf8(sb));
            },
            NodeView::Str(t) => {
                assert(t == vstd::utf8::decode_utf8(sb));
            },
            _ => {},
        }
    } else if tag == TAG_OBJECT {
        let cnt = take4(b, pos + 1) as int;
        lemma_parse_pairs_shape(b, pos + 5, cnt);
    }
}

/// Nodes parsed from position `i` are exactly `n - i` many, and each
/// references strictly below its own arena position.
proof fn lemma_parse_nodes_shape(b: Seq<u8>, pos: int, i: int, n: int)
    requires
        parse_nodes(b, pos, i, n) is Some,
    ensures
        parse_nodes(b, pos, i, n).unwrap().len() == if n >= i {
            n - i
        } else {
            0int
        },
        forall|k: int|
            0 <= k < parse_nodes(b, pos, i, n).unwrap().len() ==> node_refs_ok(
                #[trigger] parse_nodes(b, pos, i, n).unwrap()[k],
                i + k,
            ),
        forall|k: int|
            0 <= k < parse_nodes(b, pos, i, n).unwrap().len() ==> node_encodable(
                #[trigger] parse_nodes(b, pos, i, n).unwrap()[k],
            ),
    decreases n - i,
{
    if i < n {
        let (nd, p2) = parse_node(b, pos).unwrap();
        lemma_parse_node_encodable(b, pos);
        lemma_parse_nodes_shape(b, p2, i + 1, n);
    }
}

/// Serialize a tree.
///
/// Succeeds exactly when the tree is small enough to index
/// ([`tree_encodable`]); the bytes are then exactly [`archive_bytes`] of
/// the tree, so encoding is deterministic.
#[verifier::rlimit(50)]
pub fn encode(t: &FlatValue) -> (r: Result<Vec<u8>, SnapconfigError>)
    ensures
        r is Ok <==> tree_encodable(t@),
        r is Ok ==> r.unwrap()@ == archive_bytes(t@),
        r matches Err(e) ==> e matches SnapconfigError::Serialize(_),
{
    proof {
        lemma_auto_spec_u32_to_from_le_bytes();
    }
    let n = t.nodes.len();
    if (n as u64) >= 0x1_0000_0000u64 {
        return Result::Err(SnapconfigError::Serialize(error_text_too_many_nodes()));
    }
    let marker: u32 = match t.root {
        Option::Some(r) => {
            if (r as usize) < n {
                r
            } else {
                return Result::Err(SnapconfigError::Serialize(error_text_bad_root()));
            }
        },
        Option::None => ROOT_NONE,
    };
    let mut out = u32_to_le_bytes(n as u32);
    let mut marker_bytes = u32_to_le_bytes(marker);
    out.append(&mut marker_bytes);
    let ghost header = spec_u32_to_le_bytes(t@.nodes.len() as u32) + spec_u32_to_le_bytes(
        root_marker(t@.root),
    );
    proof {
        assert(out@ =~= header);
    }
    let mut i: usize = 0;
    while i < n
        invariant
            n == t@.nodes.len() < 0x1_0000_0000,
            i <= n,
            out@ + enc_nodes(t@.nodes, i as int) =~= archive_bytes(t@),
            forall|k: int| 0 <= k < i ==> node_encodable(#[trigger] t@.nodes[k]),
        decreases n - i,
    {
        let ghost pre = out@;
        if !encode_node(&mut out, &t.nodes[i]) {
            proof {
                assert(t@.nodes[i as int] == t.nodes@[i as int]@);
                assert(!node_encodable(t@.nodes[i as int]));
            }
            return Result::Err(SnapconfigError::Serialize(error_text_node_too_large()));
        }
        proof {
            assert(t@.nodes[i as int] == t.nodes@[i as int]@);
            assert(enc_nodes(t@.nodes, i as int) == enc_node(t@.nodes[i as int]) + enc_nodes(
                t@.nodes,
                i + 1,
            ));
            assert(out@ + enc_nodes(t@.nodes, i + 1) =~= archive_bytes(t@));
        }
        i = i + 1;
    }
    proof {
        assert(enc_nodes(t@.nodes, n as int) =~= Seq::<u8>::empty());
        assert(out@ =~= archive_bytes(t@));
    }
    Result::Ok(out)
}

/// Append one node's serialization to `out`; `false` exactly when some
/// length of the node overflows its 4-byte field (nothing is promised about
/// `out` then).
#[verifier::rlimit(50)]
fn encode_node(out: &mut Vec<u8>, node: &ValueNode) -> (ok: bool)
    ensures
        ok <==> node_encodable(node@),
        ok ==> final(out)@ == old(out)@ + enc_node(node@),
{
    proof {
        lemma_auto_spec_u32_to_from_le_bytes();
        lemma_auto_spec_u64_to_from_le_bytes();
    }
    let ghost pre = out@;
    match node {
        ValueNode::Null => {
            out.push(TAG_NULL);
            proof {
                assert(out@ =~= pre + enc_node(node@));
            }
            true
        },
        ValueNode::Bool(b) => {
            if *b {
                out.push(TAG_TRUE);
            } else {
                out.push(TAG_FALSE);
            }
            proof {
                assert(out@ =~= pre + enc_node(node@));
            }
            true
        },
        ValueNode::Int(i) => {
            out.push(TAG_INT);
            let mut bs = u64_to_le_bytes(#[verifier::truncate] (*i as u64));
            out.append(&mut bs);
            proof {
                assert(out@ =~= pre + enc_node(node@));
            }
            true
        },
        ValueNode::Float(t) => {
            out.push(TAG_FLOAT);
            if !append_text(out, t.as_str()) {
                return false;
            }
            proof {
                assert(out@ =~= pre + enc_node(node@));
            }
            true
        },
        ValueNode::String(s) => {
            out.push(TAG_STRING);
            if !append_text(out, s.as_str()) {
                return false;
            }
            proof {
                assert(out@ =~= pre + enc_node(node@));
            }
            true
        },
        ValueNode::Array(els) => {
            let cnt = els.len();
            if (cnt as u64) >= 0x1_0000_0000u64 {
                return false;
            }
            out.push(TAG_ARRAY);
            let mut bs = u32_to_le_bytes(cnt as u32);
            out.append(&mut bs);
            let ghost base = out@;
            let mut j: usize = 0;
            while j < cnt
                invariant
                    cnt == els@.len() < 0x1_0000_0000,
                    j <= cnt,
                    out@ + enc_idxs(els@, j as int) =~= base + enc_idxs(els@, 0),
                decreases cnt - j,
            {
                let mut eb = u32_to_le_bytes(els[j]);
                out.append(&mut eb);
                proof {
                    assert(enc_idxs(els@, j as int) == spec_u32_to_le_bytes(els@[j as int])
                        + enc_idxs(els@, j + 1));
                    assert(out@ + enc_idxs(els@, j + 1) =~= base + enc_idxs(els@, 0));
                }
                j = j + 1;
            }
            proof {
                assert(enc_idxs(els@, cnt as int) =~= Seq::<u8>::empty());
                assert(out@ =~= base + enc_idxs(els@, 0));
                assert(out@ =~= pre + enc_node(node@));
            }
            true
        },
        ValueNode::Object(pairs) => {
            let cnt = pairs.len();
            if (cnt as u64) >= 0x1_0000_0000u64 {
                return false;
            }
            out.push(TAG_OBJECT);
            let mut bs = u32_to_le_bytes(cnt as u32);
            out.append(&mut bs);
            let ghost pv = crate::order::pairs_view(pairs@);
            let ghost base = out@;
            let mut j: usize = 0;
            while j < cnt
                invariant
                    cnt == pairs@.len() < 0x1_0000_0000,
                    pv == crate::order::pairs_view(pairs@),
                    node@ == NodeView::Object(pv),
                    j <= cnt,
                    out@ + enc_pairs(pv, j as int) =~= base + enc_pairs(pv, 0),
                    forall|k: int| 0 <= k < j ==> text_encodable((#[trigger] pv[k]).0),
                decreases cnt - j,
            {
                proof {
                    assert(pv[j as int] == (pairs@[j as int].0@, pairs@[j as int].1));
                }
                if !append_text(out, pairs[j].0.as_str()) {
                    proof {
                        assert(!text_encodable(pv[j as int].0));
                    }
                    return false;
                }
                let mut eb = u32_to_le_bytes(pairs[j].1);
                out.append(&mut eb);
                proof {
                    assert(enc_pairs(pv, j as int) == enc_text(pv[j as int].0)
                        + spec_u32_to_le_bytes(pv[j as int].1) + enc_pairs(pv, j + 1));
                    assert(out@ + enc_pairs(pv, j + 1) =~= base + enc_pairs(pv, 0));
                }
                j = j + 1;
            }
            proof {
                assert(enc_pairs(pv, cnt as int) =~= Seq::<u8>::empty());
                assert(out@ =~= base + enc_pairs(pv, 0));
                assert(out@ =~= pre + enc_node(node@));
                assert(forall|k: int|
                    0 <= k < pv.len() ==> text_encodable((#[trigger] pv[k]).0));
            }
            true
        },
    }
}

/// Append a text chunk for `s`; `false` exactly when the UTF-8 form of `s`
/// overflows the 4-byte length field.
#[verifier::rlimit(50)]
fn append_text(out: &mut Vec<u8>, s: &str) -> (ok: bool)
    ensures
        ok <==> text_encodable(s@),
        ok ==> final(out)@ == old(out)@ + enc_text(s@),
{
    proof {
        lemma_auto_spec_u32_to_from_le_bytes();
    }
    let ab = s.as_bytes();
    let blen = ab.len();
    if (blen as u64) >= 0x1_0000_0000u64 {
        return false;
    }
    let ghost pre = out@;
    let mut bs = u32_to_le_bytes(blen as u32);
    out.append(&mut bs);
    let mut sb = vstd::slice::slice_to_vec(ab);
    out.append(&mut sb);
    proof {
        assert(s.spec_bytes() == encode_utf8(s@));
        assert(blen == encode_utf8(s@).len());
        assert(out@ =~= pre + spec_u32_to_le_bytes(blen as u32) + s.spec_bytes());
        assert(enc_text(s@) == spec_u32_to_le_bytes(encode_utf8(s@).len() as u32) + encode_utf8(
            s@,
        ));
        assert(out@ =~= pre + enc_text(s@));
    }
    true
}

fn error_text_too_many_nodes() -> String {
    String::from_str("tree has too many nodes to index")
}

fn error_text_bad_root() -> String {
    String::from_str("root index is out of bounds")
}

fn error_text_node_too_large() -> String {
    String::from_str("node payload is too large to index")
}


/// Relies on String::from_utf8: it succeeds exactly on valid UTF-8 input
/// and decodes those bytes to their characters.
#[verifier::external_body]
fn string_from_utf8(v: Vec<u8>) -> (r: Option<String>)
    ensures
        r is Some <==> valid_utf8(v@),
        r is Some ==> r.unwrap()@ == decode_utf8(v@),
{
    match String::from_utf8(v) {
        Ok(s) => Option::Some(s),
        Err(_) => Option::None,
    }
}

/// Read the text chunk at `pos`, mirroring [`parse_text`] exactly.
#[verifier::rlimit(50)]
fn parse_text_at(buf: &[u8], pos: usize) -> (r: Result<(String, usize), ()>)
    ensures
        r is Ok ==> parse_text(buf@, pos as int) == Option::Some(
            (r.unwrap().0@, r.unwrap().1 as int),
        ) && pos <= r.unwrap().1 <= buf@.len(),
        r is Err ==> parse_text(buf@, pos as int) is None,
{
    if pos > buf.len() || buf.len() - pos < 4 {
        return Result::Err(());
    }
    let len32 = u32_from_le_bytes(vstd::slice::slice_subrange(buf, pos, pos + 4));
    let len = len32 as usize;
    let rem = buf.len() - (pos + 4);
    if rem < len {
        return Result::Err(());
    }
    let kb = vstd::slice::slice_to_vec(vstd::slice::slice_subrange(buf, pos + 4, pos + 4 + len));
    proof {
        assert(kb@ =~= buf@.subrange(pos + 4, pos + 4 + len32 as int));
    }
    match string_from_utf8(kb) {
        Option::Some(st) => Result::Ok((st, pos + 4 + len)),
        Option::None => Result::Err(()),
    }
}

/// Decode the node at `pos` destined for arena position `i`, mirroring
/// [`parse_node`] exactly and checking bottom-up references.
#[verifier::rlimit(50)]
fn decode_node(buf: &[u8], pos: usize, i: u32) -> (r: Result<(ValueNode, usize), ()>)
    ensures
        r is Ok ==> parse_node(buf@, pos as int) == Option::Some(
            (r.unwrap().0@, r.unwrap().1 as int),
        ) && node_refs_ok(r.unwrap().0@, i as int) && pos < r.unwrap().1 <= buf@.len(),
        r is Err ==> match parse_node(buf@, pos as int) {
            Option::Some(p) => !node_refs_ok(p.0, i as int),
            Option::None => true,
        },
{
    proof {
        lemma_auto_spec_u32_to_from_le_bytes();
    }
    if pos >= buf.len() {
        return Result::Err(());
    }
    let tag = *vstd::slice::slice_index_get(buf, pos);
    if tag == TAG_NULL {
        Result::Ok((ValueNode::Null, pos + 1))
    } else if tag == TAG_FALSE {
        Result::Ok((ValueNode::Bool(false), pos + 1))
    } else if tag == TAG_TRUE {
        Result::Ok((ValueNode::Bool(true), pos + 1))
    } else if tag == TAG_INT {
        if buf.len() - pos < 9 {
            return Result::Err(());
        }
        let v = u64_from_le_bytes(vstd::slice::slice_subrange(buf, pos + 1, pos + 9));
        Result::Ok((ValueNode::Int(#[verifier::truncate] (v as i64)), pos + 9))
    } else if tag == TAG_FLOAT {
        match parse_text_at(buf, pos + 1) {
            Result::Ok((st, p2)) => Result::Ok((ValueNode::Float(st), p2)),
            Result::Err(()) => Result::Err(()),
        }
    } else if tag == TAG_STRING {
        match parse_text_at(buf, pos + 1) {
            Result::Ok((st, p2)) => Result::Ok((ValueNode::String(st), p2)),
            Result::Err(()) => Result::Err(()),
        }
    } else if tag == TAG_ARRAY {
        if buf.len() - pos < 5 {
            return Result::Err(());
        }
        let cnt32 = u32_from_le_bytes(vstd::slice::slice_subrange(buf, pos + 1, pos + 5));
        let cnt = cnt32 as usize;
        let rem = buf.len() - (pos + 5);
        if (rem as u64) < 4 * (cnt as u64) {
            proof {
                assert(pos + 5 + 4 * (cnt32 as int) > buf@.len());
            }
            return Result::Err(());
        }
        let ghost target = Seq::new(cnt32 as nat, |j: int| take4(buf@, pos + 5 + 4 * j));
        let mut els: Vec<u32> = Vec::new();
        let mut j: usize = 0;
        let mut q: usize = pos + 5;
        while j < cnt
            invariant
                cnt == cnt32 as int,
                pos < buf@.len(),
                buf@[pos as int] == TAG_ARRAY,
                cnt32 == take4(buf@, pos + 1),
                pos + 5 + 4 * cnt <= buf@.len(),
                j <= cnt,
                q == pos + 5 + 4 * j,
                q + 4 * (cnt - j) <= buf@.len(),
                buf@.len() <= usize::MAX,
                els@.len() == j,
                forall|k: int| 0 <= k < j ==> els@[k] == target[k] && (#[trigger] els@[k]) < i,
                target == Seq::new(cnt32 as nat, |jj: int| take4(buf@, pos + 5 + 4 * jj)),
            decreases cnt - j,
        {
            proof {
                assert(4 * ((cnt - j) as int) >= 4);
                assert(q + 4 <= buf@.len());
            }
            let e = u32_from_le_bytes(vstd::slice::slice_subrange(buf, q, q + 4));
            if e >= i {
                proof {
                    assert(parse_node(buf@, pos as int) is Some);
                    let pn = parse_node(buf@, pos as int).unwrap();
                    assert(match pn.0 {
                        NodeView::Array(s1) => s1.len() == cnt && s1[j as int] == e,
                        _ => false,
                    });
                    assert(!node_refs_ok(pn.0, i as int));
                }
                return Result::Err(());
            }
            els.push(e);
            j = j + 1;
            q = q + 4;
        }
        proof {
            assert(els@ =~= target);
            assert(4 * (cnt as int) <= buf@.len());
            assert(parse_node(buf@, pos as int) is Some);
            let pn = parse_node(buf@, pos as int).unwrap();
            assert(pn.1 == pos + 5 + 4 * (cnt32 as int));
            assert(match pn.0 {
                NodeView::Array(s1) => s1 =~= els@,
                _ => false,
            });
            assert(pn.0 == NodeView::Array(els@));
            assert(node_refs_ok(NodeView::Array(els@), i as int));
        }
        Result::Ok((ValueNode::Array(els), pos + 5 + 4 * cnt))
    } else if tag == TAG_OBJECT {
        if buf.len() - pos < 5 {
            return Result::Err(());
        }
        let cnt32 = u32_from_le_bytes(vstd::slice::slice_subrange(buf, pos + 1, pos + 5));
        let cnt = cnt32 as usize;
        let mut pairs: Vec<(String, u32)> = Vec::new();
        let mut p: usize = pos + 5;
        let mut j: usize = 0;
        while j < cnt
            invariant
                cnt == cnt32 as int,
                pos < buf@.len(),
                buf@[pos as int] == TAG_OBJECT,
                cnt32 == take4(buf@, pos + 1),
                pos + 5 <= buf@.len(),
                j <= cnt,
                pos + 5 <= p <= buf@.len(),
                pairs@.len() == j,
                forall|k: int| 0 <= k < j ==> ((#[trigger] pairs@[k]).1) < i,
                match parse_pairs(buf@, p as int, cnt - j) {
                    Option::None => parse_pairs(buf@, pos + 5, cnt as int) is None,
                    Option::Some(sr) => parse_pairs(buf@, pos + 5, cnt as int)
                        == Option::Some((crate::order::pairs_view(pairs@) + sr.0, sr.1)),
                },
            decreases cnt - j,
        {
            let ghost pre_pairs = pairs@;
            let ghost pre_p = p as int;
            let (key, p2) = match parse_text_at(buf, p) {
                Result::Ok(kp) => kp,
                Result::Err(()) => {
                    return Result::Err(());
                },
            };
            if buf.len() - p2 < 4 {
                return Result::Err(());
            }
            let vidx = u32_from_le_bytes(vstd::slice::slice_subrange(buf, p2, p2 + 4));
            if vidx >= i {
                proof {
                    let cj = cnt - j;
                    let whole = parse_pairs(buf@, pos + 5, cnt as int);
                    if whole is Some {
                        let inner = parse_pairs(buf@, p2 + 4, cj - 1);
                        if inner is None {
                            assert(parse_pairs(buf@, p as int, cj) is None);
                            assert(false);
                        }
                        let rest = inner.unwrap().0;
                        assert(parse_pairs(buf@, p as int, cj) == Option::Some(
                            (seq![(key@, vidx)] + rest, inner.unwrap().1),
                        ));
                        let sr0 = parse_pairs(buf@, p as int, cj).unwrap().0;
                        assert(sr0[0] == (key@, vidx));
                        let full = whole.unwrap().0;
                        assert(full == crate::order::pairs_view(pre_pairs) + sr0);
                        assert(crate::order::pairs_view(pre_pairs).len() == j);
                        assert(sr0.len() >= 1);
                        assert(full.len() > j as int);
                        assert(full[j as int] == (key@, vidx));
                        assert(full[j as int].1 == vidx);
                        assert(!(full[j as int].1 < i));
                        assert(parse_node(buf@, pos as int) == Option::Some(
                            (NodeView::Object(full), whole.unwrap().1),
                        ));
                        lemma_object_ref_too_high(full, j as int, i as int);
                    }
                }
                return Result::Err(());
            }
            pairs.push((key, vidx));
            p = p2 + 4;
            proof {
                let cj = cnt - j;
                assert(crate::order::pairs_view(pairs@) =~= crate::order::pairs_view(pre_pairs)
                    + seq![(key@, vidx)]);
                if parse_pairs(buf@, p as int, cj - 1) is None {
                    assert(parse_pairs(buf@, pre_p, cj) is None);
                } else {
                    let sr = parse_pairs(buf@, p as int, cj - 1).unwrap();
                    assert(parse_pairs(buf@, pre_p, cj) == Option::Some(
                        (seq![(key@, vidx)] + sr.0, sr.1),
                    ));
                    assert(crate::order::pairs_view(pre_pairs) + (seq![(key@, vidx)] + sr.0)
                        =~= crate::order::pairs_view(pairs@) + sr.0);
                }
            }
            j = j + 1;
        }
        proof {
            assert(parse_pairs(buf@, p as int, 0) == Option::Some(
                (Seq::<(Seq<char>, u32)>::empty(), p as int),
            ));
            assert(crate::order::pairs_view(pairs@) + Seq::<(Seq<char>, u32)>::empty()
                =~= crate::order::pairs_view(pairs@));
        }
        Result::Ok((ValueNode::Object(pairs), p))
    } else {
        Result::Err(())
    }
}


/// The view of an arena as node shapes.
pub open spec fn nodes_view(s: Seq<ValueNode>) -> Seq<NodeView> {
    s.map_values(|n: ValueNode| n@)
}

/// Validate a byte buffer and decode it into a tree.
///
/// Runs the single validation pass: header present, every tag recognized,
/// every reference in bounds and bottom-up, all text valid UTF-8, no
/// trailing bytes, root marker in bounds or absent. Succeeds exactly on
/// buffers that [`parse_archive`] accepts, and returns exactly the tree the
/// buffer denotes; no partially validated tree is ever returned.
#[verifier::rlimit(50)]
pub fn open_archive(buf: &[u8]) -> (r: Result<FlatValue, SnapconfigError>)
    ensures
        r is Ok <==> parse_archive(buf@) is Some,
        r is Ok ==> Option::Some(r.unwrap()@) == parse_archive(buf@),
        r is Ok ==> crate::value::nodes_refs_ok(r.unwrap()@.nodes) && nodes_encodable(
            r.unwrap()@.nodes,
        ) && match r.unwrap()@.root {
            Option::Some(rr) => rr < r.unwrap()@.nodes.len(),
            Option::None => true,
        },
        r matches Err(e) ==> e matches SnapconfigError::InvalidCache(_),
{
    proof {
        lemma_auto_spec_u32_to_from_le_bytes();
    }
    if buf.len() < 8 {
        return Result::Err(
            SnapconfigError::InvalidCache(String::from_str("archive is empty or truncated")),
        );
    }
    let n32 = u32_from_le_bytes(vstd::slice::slice_subrange(buf, 0, 4));
    let marker = u32_from_le_bytes(vstd::slice::slice_subrange(buf, 4, 8));
    let n = n32 as usize;
    let mut nodes: Vec<ValueNode> = Vec::new();
    let mut pos: usize = 8;
    let mut i: usize = 0;
    while i < n
        invariant
            buf@.len() >= 8,
            n == n32 as int,
            n32 == take4(buf@, 0),
            i <= n,
            8 <= pos <= buf@.len(),
            nodes@.len() == i,
            match parse_nodes(buf@, pos as int, i as int, n as int) {
                Option::None => parse_nodes(buf@, 8, 0, n as int) is None,
                Option::Some(rest) => parse_nodes(buf@, 8, 0, n as int) == Option::Some(
                    nodes_view(nodes@) + rest,
                ),
            },
        decreases n - i,
    {
        let ghost pre_nodes = nodes@;
        match decode_node(buf, pos, i as u32) {
            Result::Err(()) => {
                proof {
                    assert(parse_nodes(buf@, pos as int, i as int, n as int) is None);
                }
                return Result::Err(
                    SnapconfigError::InvalidCache(
                        String::from_str("archive failed structural validation"),
                    ),
                );
            },
            Result::Ok((nd, p2)) => {
                proof {
                    let tail = parse_nodes(buf@, p2 as int, i + 1, n as int);
                    if tail is None {
                        assert(parse_nodes(buf@, pos as int, i as int, n as int) is None);
                    } else {
                        assert(parse_nodes(buf@, pos as int, i as int, n as int) == Option::Some(
                            seq![nd@] + tail.unwrap(),
                        ));
                        assert(nodes_view(pre_nodes.push(nd)) =~= nodes_view(pre_nodes) + seq![nd@]);
                        assert(nodes_view(pre_nodes) + (seq![nd@] + tail.unwrap()) =~= nodes_view(
                            pre_nodes.push(nd),
                        ) + tail.unwrap());
                    }
                }
                nodes.push(nd);
                pos = p2;
                i = i + 1;
            },
        }
    }
    if pos != buf.len() {
        proof {
            assert(parse_nodes(buf@, pos as int, n as int, n as int) is None);
        }
        return Result::Err(
            SnapconfigError::InvalidCache(String::from_str("archive has trailing bytes")),
        );
    }
    proof {
        assert(parse_nodes(buf@, pos as int, n as int, n as int) == Option::Some(
            Seq::<NodeView>::empty(),
        ));
        assert(nodes_view(nodes@) + Seq::<NodeView>::empty() =~= nodes_view(nodes@));
        assert(parse_nodes(buf@, 8, 0, n as int) == Option::Some(nodes_view(nodes@)));
    }
    let root: Option<u32> = if marker == ROOT_NONE {
        Option::None
    } else if (marker as usize) < n {
        Option::Some(marker)
    } else {
        return Result::Err(
            SnapconfigError::InvalidCache(String::from_str("archive root index is out of bounds")),
        );
    };
    let t = FlatValue { nodes, root };
    proof {
        assert(t@.nodes == nodes_view(t.nodes@));
        assert(parse_archive(buf@) == Option::Some(t@));
        lemma_parse_archive_refs_ok(buf@);
    }
    Result::Ok(t)
}

/// An encoded text chunk standing at `pos` in a buffer parses back to
/// exactly its characters.
#[verifier::rlimit(50)]
proof fn lemma_text_round_trip(b: Seq<u8>, pos: int, s: Seq<char>)
    requires
        text_encodable(s),
        0 <= pos,
        pos + enc_text(s).len() <= b.len(),
        b.subrange(pos, pos + enc_text(s).len() as int) =~= enc_text(s),
    ensures
        parse_text(b, pos) == Option::Some((s, pos + enc_text(s).len())),
{
    lemma_auto_spec_u32_to_from_le_bytes();
    let eb = encode_utf8(s);
    let et = enc_text(s);
    assert(et.len() == 4 + eb.len());
    assert(b.subrange(pos, pos + 4) =~= spec_u32_to_le_bytes(eb.len() as u32)) by {
        assert forall|k: int| 0 <= k < 4 implies #[trigger] b.subrange(pos, pos + 4)[k]
            == spec_u32_to_le_bytes(eb.len() as u32)[k] by {
            assert(b[pos + k] == et[k]);
        }
    }
    assert(take4(b, pos) == eb.len() as u32);
    assert(b.subrange(pos + 4, pos + 4 + eb.len()) =~= eb) by {
        assert forall|k: int| 0 <= k < eb.len() implies #[trigger] b.subrange(
            pos + 4,
            pos + 4 + eb.len(),
        )[k] == eb[k] by {
            assert(b[pos + 4 + k] == et[4 + k]);
        }
    }
    assert(valid_utf8(eb));
    assert(decode_utf8(eb) == s);
}

/// Encoded object entries from position `j` on parse back to exactly those
/// entries.
#[verifier::rlimit(50)]
proof fn lemma_pairs_round_trip(b: Seq<u8>, pos: int, pairs: Seq<(Seq<char>, u32)>, j: int)
    requires
        0 <= j <= pairs.len(),
        forall|k: int| 0 <= k < pairs.len() ==> text_encodable((#[trigger] pairs[k]).0),
        0 <= pos,
        pos + enc_pairs(pairs, j).len() <= b.len(),
        b.subrange(pos, pos + enc_pairs(pairs, j).len() as int) =~= enc_pairs(pairs, j),
    ensures
        parse_pairs(b, pos, pairs.len() - j) == Option::Some(
            (pairs.skip(j), pos + enc_pairs(pairs, j).len()),
        ),
    decreases pairs.len() - j,
{
    lemma_auto_spec_u32_to_from_le_bytes();
    if j >= pairs.len() {
        assert(pairs.skip(j) =~= Seq::<(Seq<char>, u32)>::empty());
    } else {
        let key = pairs[j].0;
        let vidx = pairs[j].1;
        let et = enc_text(key);
        let ep = enc_pairs(pairs, j);
        assert(ep =~= et + spec_u32_to_le_bytes(vidx) + enc_pairs(pairs, j + 1));
        assert(b.subrange(pos, pos + et.len() as int) =~= et) by {
            assert forall|k: int| 0 <= k < et.len() implies #[trigger] b.subrange(
                pos,
                pos + et.len() as int,
            )[k] == et[k] by {
                assert(b[pos + k] == ep[k]);
            }
        }
        lemma_text_round_trip(b, pos, key);
        let p2 = pos + et.len();
        assert(b.subrange(p2, p2 + 4) =~= spec_u32_to_le_bytes(vidx)) by {
            assert forall|k: int| 0 <= k < 4 implies #[trigger] b.subrange(p2, p2 + 4)[k]
                == spec_u32_to_le_bytes(vidx)[k] by {
                assert(b[p2 + k] == ep[et.len() + k]);
            }
        }
        assert(take4(b, p2) == vidx);
        let p3 = p2 + 4;
        let rest = enc_pairs(pairs, j + 1);
        assert(b.subrange(p3, p3 + rest.len() as int) =~= rest) by {
            assert forall|k: int| 0 <= k < rest.len() implies #[trigger] b.subrange(
                p3,
                p3 + rest.len() as int,
            )[k] == rest[k] by {
                assert(b[p3 + k] == ep[et.len() + 4 + k]);
            }
        }
        lemma_pairs_round_trip(b, p3, pairs, j + 1);
        assert(seq![(key, vidx)] + pairs.skip(j + 1) =~= pairs.skip(j));
    }
}

/// An encoded node standing at `pos` parses back to exactly that node.
#[verifier::rlimit(50)]
proof fn lemma_node_round_trip(b: Seq<u8>, pos: int, nd: NodeView)
    requires
        node_encodable(nd),
        0 <= pos,
        pos + enc_node(nd).len() <= b.len(),
        b.subrange(pos, pos + enc_node(nd).len() as int) =~= enc_node(nd),
    ensures
        parse_node(b, pos) == Option::Some((nd, pos + enc_node(nd).len())),
{
    lemma_auto_spec_u32_to_from_le_bytes();
    lemma_auto_spec_u64_to_from_le_bytes();
    let en = enc_node(nd);
    assert(b[pos] == en[0]);
    match nd {
        NodeView::Null => {},
        NodeView::Bool(v) => {},
        NodeView::Int(x) => {
            assert(b.subrange(pos + 1, pos + 9) =~= spec_u64_to_le_bytes(x as u64)) by {
                assert forall|k: int| 0 <= k < 8 implies #[trigger] b.subrange(pos + 1, pos + 9)[k]
                    == spec_u64_to_le_bytes(x as u64)[k] by {
                    assert(b[pos + 1 + k] == en[1 + k]);
                }
            }
            assert(take8(b, pos + 1) == x as u64);
            assert((x as u64) as i64 == x) by (bit_vector);
        },
        NodeView::Float(t) => {
            let et = enc_text(t);
            assert(b.subrange(pos + 1, pos + 1 + et.len() as int) =~= et) by {
                assert forall|k: int| 0 <= k < et.len() implies #[trigger] b.subrange(
                    pos + 1,
                    pos + 1 + et.len() as int,
                )[k] == et[k] by {
                    assert(b[pos + 1 + k] == en[1 + k]);
                }
            }
            lemma_text_round_trip(b, pos + 1, t);
        },
        NodeView::Str(t) => {
            let et = enc_text(t);
            assert(b.subrange(pos + 1, pos + 1 + et.len() as int) =~= et) by {
                assert forall|k: int| 0 <= k < et.len() implies #[trigger] b.subrange(
                    pos + 1,
                    pos + 1 + et.len() as int,
                )[k] == et[k] by {
                    assert(b[pos + 1 + k] == en[1 + k]);
                }
            }
            lemma_text_round_trip(b, pos + 1, t);
        },
        NodeView::Array(els) => {
            lemma_enc_idxs_len(els, 0);
            assert(b.subrange(pos + 1, pos + 5) =~= spec_u32_to_le_bytes(els.len() as u32)) by {
                assert forall|k: int| 0 <= k < 4 implies #[trigger] b.subrange(pos + 1, pos + 5)[k]
                    == spec_u32_to_le_bytes(els.len() as u32)[k] by {
                    assert(b[pos + 1 + k] == en[1 + k]);
                }
            }
            assert(take4(b, pos + 1) == els.len() as u32);
            lemma_enc_idxs_extract(els, 0);
            assert forall|k: int| 0 <= k < els.len() implies take4(b, pos + 5 + 4 * k)
                == els[k] by {
                assert(enc_idxs(els, 0).subrange(4 * k, 4 * k + 4) =~= spec_u32_to_le_bytes(
                    els[k],
                ));
                assert(b.subrange(pos + 5 + 4 * k, pos + 5 + 4 * k + 4) =~= spec_u32_to_le_bytes(
                    els[k],
                )) by {
                    assert forall|m: int| 0 <= m < 4 implies #[trigger] b.subrange(
                        pos + 5 + 4 * k,
                        pos + 5 + 4 * k + 4,
                    )[m] == spec_u32_to_le_bytes(els[k])[m] by {
                        assert(b[pos + 5 + 4 * k + m] == en[5 + 4 * k + m]);
                        assert(enc_idxs(els, 0)[4 * k + m] == enc_idxs(els, 0).subrange(
                            4 * k,
                            4 * k + 4,
                        )[m]);
                    }
                }
            }
            assert(Seq::new(els.len(), |k: int| take4(b, pos + 5 + 4 * k)) =~= els);
        },
        NodeView::Object(pairs) => {
            assert(b.subrange(pos + 1, pos + 5) =~= spec_u32_to_le_bytes(pairs.len() as u32)) by {
                assert forall|k: int| 0 <= k < 4 implies #[trigger] b.subrange(pos + 1, pos + 5)[k]
                    == spec_u32_to_le_bytes(pairs.len() as u32)[k] by {
                    assert(b[pos + 1 + k] == en[1 + k]);
                }
            }
            assert(take4(b, pos + 1) == pairs.len() as u32);
            let ep = enc_pairs(pairs, 0);
            assert(b.subrange(pos + 5, pos + 5 + ep.len() as int) =~= ep) by {
                assert forall|k: int| 0 <= k < ep.len() implies #[trigger] b.subrange(
                    pos + 5,
                    pos + 5 + ep.len() as int,
                )[k] == ep[k] by {
                    assert(b[pos + 5 + k] == en[5 + k]);
                }
            }
            lemma_pairs_round_trip(b, pos + 5, pairs, 0);
            assert(pairs.skip(0) =~= pairs);
        },
    }
}

/// Encoded array elements from `j` on take 4 bytes each.
proof fn lemma_enc_idxs_len(els: Seq<u32>, j: int)
    requires
        0 <= j <= els.len(),
    ensures
        enc_idxs(els, j).len() == 4 * (els.len() - j),
    decreases els.len() - j,
{
    lemma_auto_spec_u32_to_from_le_bytes();
    if j < els.len() {
        lemma_enc_idxs_len(els, j + 1);
    }
}

/// Each element's 4 bytes stand at their position inside the encoding.
#[verifier::rlimit(50)]
proof fn lemma_enc_idxs_extract(els: Seq<u32>, j: int)
    requires
        0 <= j <= els.len(),
    ensures
        forall|k: int|
            j <= k < els.len() ==> enc_idxs(els, j).subrange(4 * (k - j), 4 * (k - j) + 4)
                =~= spec_u32_to_le_bytes(#[trigger] els[k]),
    decreases els.len() - j,
{
    lemma_enc_idxs_len(els, j);
    if j < els.len() {
        lemma_enc_idxs_extract(els, j + 1);
        lemma_enc_idxs_len(els, j + 1);
        assert forall|k: int| j <= k < els.len() implies enc_idxs(els, j).subrange(
            4 * (k - j),
            4 * (k - j) + 4,
        ) =~= spec_u32_to_le_bytes(#[trigger] els[k]) by {
            let e = enc_idxs(els, j);
            let head = spec_u32_to_le_bytes(els[j]);
            let tail = enc_idxs(els, j + 1);
            assert(e =~= head + tail);
            if k == j {
                assert(e.subrange(0, 4) =~= head);
            } else {
                assert(tail.subrange(4 * (k - j - 1), 4 * (k - j - 1) + 4) =~= spec_u32_to_le_bytes(
                    els[k],
                ));
                assert(e.subrange(4 * (k - j), 4 * (k - j) + 4) =~= tail.subrange(
                    4 * (k - j - 1),
                    4 * (k - j - 1) + 4,
                ));
            }
        }
    }
}

/// Encoded nodes from position `i` on parse back to exactly those nodes,
/// provided each references strictly below its own position.
#[verifier::rlimit(50)]
proof fn lemma_nodes_round_trip(b: Seq<u8>, pos: int, nodes: Seq<NodeView>, i: int)
    requires
        0 <= i <= nodes.len(),
        forall|k: int| 0 <= k < nodes.len() ==> node_encodable(#[trigger] nodes[k]),
        forall|k: int| 0 <= k < nodes.len() ==> node_refs_ok(#[trigger] nodes[k], k),
        0 <= pos <= b.len(),
        b.subrange(pos, b.len() as int) =~= enc_nodes(nodes, i),
    ensures
        parse_nodes(b, pos, i, nodes.len() as int) == Option::Some(nodes.skip(i)),
    decreases nodes.len() - i,
{
    if i >= nodes.len() {
        assert(enc_nodes(nodes, i).len() == 0);
        assert(pos == b.len());
        assert(nodes.skip(i) =~= Seq::<NodeView>::empty());
    } else {
        let en = enc_node(nodes[i]);
        let rest = enc_nodes(nodes, i + 1);
        assert(enc_nodes(nodes, i) =~= en + rest);
        assert(b.subrange(pos, pos + en.len() as int) =~= en) by {
            assert forall|k: int| 0 <= k < en.len() implies #[trigger] b.subrange(
                pos,
                pos + en.len() as int,
            )[k] == en[k] by {
                assert(b[pos + k] == b.subrange(pos, b.len() as int)[k]);
            }
        }
        lemma_node_round_trip(b, pos, nodes[i]);
        let p2 = pos + en.len();
        assert(b.subrange(p2, b.len() as int) =~= rest) by {
            assert forall|k: int| 0 <= k < rest.len() implies #[trigger] b.subrange(
                p2,
                b.len() as int,
            )[k] == rest[k] by {
                assert(b[p2 + k] == b.subrange(pos, b.len() as int)[en.len() + k]);
            }
        }
        lemma_nodes_round_trip(b, p2, nodes, i + 1);
        assert(seq![nodes[i]] + nodes.skip(i + 1) =~= nodes.skip(i));
    }
}

/// Round trip: decoding the serialization of any well-formed, encodable
/// tree yields exactly that tree. Together with the contracts of
/// [`encode`] and [`open_archive`] this pins down the whole
/// encode-then-open path: every traversal or materialization of the opened
/// archive agrees with the original tree.
#[verifier::rlimit(50)]
pub proof fn lemma_archive_round_trip(t: TreeView)
    requires
        tree_encodable(t),
        crate::value::nodes_refs_ok(t.nodes),
    ensures
        parse_archive(archive_bytes(t)) == Option::Some(t),
{
    lemma_auto_spec_u32_to_from_le_bytes();
    let b = archive_bytes(t);
    let h0 = spec_u32_to_le_bytes(t.nodes.len() as u32);
    let h1 = spec_u32_to_le_bytes(root_marker(t.root));
    assert(b.len() >= 8);
    assert(b.subrange(0, 4) =~= h0);
    assert(b.subrange(4, 8) =~= h1);
    assert(take4(b, 0) == t.nodes.len() as u32);
    assert(take4(b, 4) == root_marker(t.root));
    assert(b.subrange(8, b.len() as int) =~= enc_nodes(t.nodes, 0));
    lemma_nodes_round_trip(b, 8, t.nodes, 0);
    assert(t.nodes.skip(0) =~= t.nodes);
    match t.root {
        Option::Some(r) => {
            assert(r < t.nodes.len());
            assert(root_marker(t.root) != ROOT_NONE);
            assert(parse_archive(b) == Option::Some(t));
        },
        Option::None => {
            assert(parse_archive(b) == Option::Some(t));
        },
    }
}


/// An object entry whose value index is not strictly below `i` breaks the
/// bottom-up reference discipline.
proof fn lemma_object_ref_too_high(pairs: Seq<(Seq<char>, u32)>, j: int, i: int)
    requires
        0 <= j < pairs.len(),
        !((pairs[j].1 as int) < i),
    ensures
        !node_refs_ok(NodeView::Object(pairs), i),
{
    if node_refs_ok(NodeView::Object(pairs), i) {
        assert((pairs[j].1 as int) < i);
    }
}

} // verus!
