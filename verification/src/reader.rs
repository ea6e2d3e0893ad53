//! Traversal and materialization of a validated tree.
//!
//! These functions operate on a tree that passed the open-time validation
//! pass ([`crate::codec::open_archive`]): every reference is in bounds and
//! points strictly below its node. Reads after that perform only the checks
//! the specific call needs. Key lookup is a binary search over the sorted
//! entries; sortedness is the producer's obligation, so lookup contracts are
//! exact under it and still safe without it.

use vstd::prelude::*;
use vstd::string::StringSliceAdditionalSpecFns;
use vstd::string::StringExecFns;
use vstd::string::StrSliceExecFns;
use crate::codec::nodes_encodable;
use crate::value::{FlatValue, ValueNode, NodeView, TreeView, nodes_refs_ok, node_refs_ok};
use crate::order::{pairs_view, pairs_sorted, key_cmp, key_le, str_cmp, lemma_key_cmp_eq,
    lemma_lex_cmp_bytes_basic, lemma_lex_cmp_bytes_trans};
use crate::error::TraversalError;

verus! {

broadcast use vstd::std_specs::vec::group_vec_axioms;

/// A fully owned, archive-independent configuration value.
///
/// Produced by materialization, for data that must outlive the archive.
/// `Float` carries the number's decimal text, as in [`ValueNode`].
#[derive(Debug)]
pub enum ConfigValue {
    Null,
    Bool(bool),
    Int(i64),
    Float(String),
    Str(String),
    Array(Vec<ConfigValue>),
    Object(Vec<(String, ConfigValue)>),
}

/// The mathematical shape of a materialized value.
pub enum MatView {
    Null,
    Bool(bool),
    Int(i64),
    Float(Seq<char>),
    Str(Seq<char>),
    Arr(Seq<MatView>),
    Obj(Seq<(Seq<char>, MatView)>),
}

/// The shape of an owned value.
pub open spec fn ov_view(v: ConfigValue) -> MatView
    decreases v,
{
    match v {
        ConfigValue::Null => MatView::Null,
        ConfigValue::Bool(b) => MatView::Bool(b),
        ConfigValue::Int(i) => MatView::Int(i),
        ConfigValue::Float(t) => MatView::Float(t@),
        ConfigValue::Str(s) => MatView::Str(s@),
        ConfigValue::Array(a) => MatView::Arr(ov_views(a@)),
        ConfigValue::Object(ps) => MatView::Obj(ov_pairs(ps@)),
    }
}

/// The shapes of a sequence of owned values.
pub open spec fn ov_views(s: Seq<ConfigValue>) -> Seq<MatView>
    decreases s,
{
    if s.len() == 0 {
        Seq::empty()
    } else {
        seq![ov_view(s[0])] + ov_views(s.subrange(1, s.len() as int))
    }
}

/// The shapes of a sequence of owned key-value entries.
pub open spec fn ov_pairs(s: Seq<(String, ConfigValue)>) -> Seq<(Seq<char>, MatView)>
    decreases s,
{
    if s.len() == 0 {
        Seq::empty()
    } else {
        seq![(s[0].0@, ov_view(s[0].1))] + ov_pairs(s.subrange(1, s.len() as int))
    }
}

/// Element-wise reading of [`ov_views`].
pub proof fn lemma_ov_views_index(s: Seq<ConfigValue>)
    ensures
        ov_views(s).len() == s.len(),
        forall|j: int| 0 <= j < s.len() ==> ov_views(s)[j] == ov_view(#[trigger] s[j]),
    decreases s,
{
    if s.len() > 0 {
        let t = s.subrange(1, s.len() as int);
        lemma_ov_views_index(t);
        assert forall|j: int| 0 <= j < s.len() implies ov_views(s)[j] == ov_view(
            #[trigger] s[j],
        ) by {
            if j > 0 {
                assert(t[j - 1] == s[j]);
            }
        }
    }
}

/// Element-wise reading of [`ov_pairs`].
pub proof fn lemma_ov_pairs_index(s: Seq<(String, ConfigValue)>)
    ensures
        ov_pairs(s).len() == s.len(),
        forall|j: int|
            0 <= j < s.len() ==> ov_pairs(s)[j] == ((#[trigger] s[j]).0@, ov_view(s[j].1)),
    decreases s,
{
    if s.len() > 0 {
        let t = s.subrange(1, s.len() as int);
        lemma_ov_pairs_index(t);
        assert forall|j: int| 0 <= j < s.len() implies ov_pairs(s)[j] == (
            (#[trigger] s[j]).0@,
            ov_view(s[j].1),
        ) by {
            if j > 0 {
                assert(t[j - 1] == s[j]);
            }
        }
    }
}

impl View for ConfigValue {
    type V = MatView;

    open spec fn view(&self) -> MatView {
        ov_view(*self)
    }
}

/// Materialization of the subtree rooted at node `i`: what the owned copy
/// of that subtree looks like. References that do not point strictly
/// downwards are read as `Null`; a validated archive has none.
pub open spec fn mat_spec(nodes: Seq<NodeView>, i: int) -> MatView
    decreases i, 1int,
{
    if i < 0 || i >= nodes.len() {
        MatView::Null
    } else {
        match nodes[i] {
            NodeView::Null => MatView::Null,
            NodeView::Bool(b) => MatView::Bool(b),
            NodeView::Int(x) => MatView::Int(x),
            NodeView::Float(t) => MatView::Float(t),
            NodeView::Str(s) => MatView::Str(s),
            NodeView::Array(els) => MatView::Arr(
                Seq::new(els.len(), |j: int| child_mat(nodes, els[j], i)),
            ),
            NodeView::Object(pairs) => MatView::Obj(
                Seq::new(pairs.len(), |j: int| (pairs[j].0, child_mat(nodes, pairs[j].1, i))),
            ),
        }
    }
}

/// Materialization of the child at arena index `c` of a node standing at
/// `bound`: `Null` unless the reference points strictly downwards.
pub open spec fn child_mat(nodes: Seq<NodeView>, c: u32, bound: int) -> MatView
    decreases bound, 0int,
{
    if 0 <= c < bound {
        mat_spec(nodes, c as int)
    } else {
        MatView::Null
    }
}

/// Recursively convert the subtree rooted at `idx` into a fully owned
/// value, independent of the tree it came from.
pub fn materialize_node(tree: &FlatValue, idx: u32) -> (r: ConfigValue)
    requires
        nodes_refs_ok(tree@.nodes),
        idx < tree@.nodes.len(),
    ensures
        r@ == mat_spec(tree@.nodes, idx as int),
    decreases idx,
{
    let node = &tree.nodes[idx as usize];
    proof {
        assert(node@ == tree@.nodes[idx as int]);
        assert(node_refs_ok(node@, idx as int));
    }
    match node {
        ValueNode::Null => ConfigValue::Null,
        ValueNode::Bool(b) => ConfigValue::Bool(*b),
        ValueNode::Int(i) => ConfigValue::Int(*i),
        ValueNode::Float(t) => ConfigValue::Float(clone_string(t)),
        ValueNode::String(s) => ConfigValue::Str(clone_string(s)),
        ValueNode::Array(els) => {
            let ghost target = match mat_spec(tree@.nodes, idx as int) {
                MatView::Arr(s) => s,
                _ => Seq::empty(),
            };
            proof {
                assert(mat_spec(tree@.nodes, idx as int) matches MatView::Arr(_));
                assert(target == Seq::new(
                    els@.len(),
                    |k: int| child_mat(tree@.nodes, els@[k], idx as int),
                ));
            }
            let mut out: Vec<ConfigValue> = Vec::new();
            let n = els.len();
            let mut j: usize = 0;
            while j < n
                invariant
                    nodes_refs_ok(tree@.nodes),
                    idx < tree@.nodes.len(),
                    tree@.nodes[idx as int] == NodeView::Array(els@),
                    node_refs_ok(NodeView::Array(els@), idx as int),
                    n == els@.len(),
                    j <= n,
                    out@.len() == j,
                    target.len() == n,
                    forall|k: int|
                        0 <= k < n ==> target[k] == child_mat(tree@.nodes, els@[k], idx as int),
                    forall|k: int| 0 <= k < j ==> (#[trigger] out@[k])@ == target[k],
                decreases n - j,
            {
                let child = els[j];
                proof {
                    assert(els@[j as int] < idx);
                }
                let cv = materialize_node(tree, child);
                out.push(cv);
                j = j + 1;
            }
            let r = ConfigValue::Array(out);
            proof {
                lemma_ov_views_index(out@);
                assert forall|k: int| 0 <= k < out@.len() implies ov_views(out@)[k]
                    == target[k] by {
                    assert(out@[k]@ == target[k]);
                }
                assert(ov_views(out@) =~= target);
                assert(r@ == MatView::Arr(ov_views(out@)));
                assert(mat_spec(tree@.nodes, idx as int) == MatView::Arr(target));
            }
            r
        },
        ValueNode::Object(pairs) => {
            let ghost pv = pairs_view(pairs@);
            let ghost target = match mat_spec(tree@.nodes, idx as int) {
                MatView::Obj(s) => s,
                _ => Seq::empty(),
            };
            proof {
                assert(mat_spec(tree@.nodes, idx as int) matches MatView::Obj(_));
                assert(target == Seq::new(
                    pv.len(),
                    |k: int| (pv[k].0, child_mat(tree@.nodes, pv[k].1, idx as int)),
                ));
            }
            let mut out: Vec<(String, ConfigValue)> = Vec::new();
            let n = pairs.len();
            let mut j: usize = 0;
            while j < n
                invariant
                    nodes_refs_ok(tree@.nodes),
                    idx < tree@.nodes.len(),
                    pv == pairs_view(pairs@),
                    tree@.nodes[idx as int] == NodeView::Object(pv),
                    node_refs_ok(NodeView::Object(pv), idx as int),
                    n == pairs@.len(),
                    j <= n,
                    out@.len() == j,
                    target.len() == n,
                    forall|k: int|
                        0 <= k < n ==> target[k] == (
                            (#[trigger] pv[k]).0,
                            child_mat(tree@.nodes, pv[k].1, idx as int),
                        ),
                    forall|k: int|
                        0 <= k < j ==> ((#[trigger] out@[k]).0@, out@[k].1@) == target[k],
                decreases n - j,
            {
                let child = pairs[j].1;
                proof {
                    assert(pv[j as int] == (pairs@[j as int].0@, pairs@[j as int].1));
                    assert(pv[j as int].1 < idx);
                }
                let cv = materialize_node(tree, child);
                let key = clone_string(&pairs[j].0);
                out.push((key, cv));
                proof {
                    assert(out@[j as int] == (key, cv));
                    assert((out@[j as int].0@, out@[j as int].1@) == target[j as int]);
                }
                j = j + 1;
            }
            let r = ConfigValue::Object(out);
            proof {
                lemma_ov_pairs_index(out@);
                assert forall|k: int| 0 <= k < out@.len() implies ov_pairs(out@)[k]
                    == target[k] by {
                    assert((out@[k].0@, out@[k].1@) == target[k]);
                }
                assert(ov_pairs(out@) =~= target);
                assert(r@ == MatView::Obj(ov_pairs(out@)));
                assert(mat_spec(tree@.nodes, idx as int) == MatView::Obj(target));
            }
            r
        },
    }
}

/// An owned copy of a string.
pub fn clone_string(s: &String) -> (r: String)
    ensures
        r@ == s@,
{
    s.clone()
}


/// The result of a linear scan over object entries: the value of the first
/// entry whose key equals `key`, if any. Binary-search lookup is proved to
/// agree with this on sorted entries.
pub open spec fn lin_find(pairs: Seq<(Seq<char>, u32)>, key: Seq<char>) -> Option<u32>
    decreases pairs.len(),
{
    if pairs.len() == 0 {
        Option::None
    } else if pairs[0].0 == key {
        Option::Some(pairs[0].1)
    } else {
        lin_find(pairs.subrange(1, pairs.len() as int), key)
    }
}

/// Some entry carries this key.
pub open spec fn has_key(pairs: Seq<(Seq<char>, u32)>, key: Seq<char>) -> bool {
    exists|j: int| 0 <= j < pairs.len() && (#[trigger] pairs[j]).0 == key
}

/// The linear scan finds a value exactly when some entry carries the key,
/// and the value it finds belongs to such an entry.
pub proof fn lemma_lin_find_scan(pairs: Seq<(Seq<char>, u32)>, key: Seq<char>)
    ensures
        lin_find(pairs, key) is Some <==> has_key(pairs, key),
        match lin_find(pairs, key) {
            Option::Some(v) => exists|j: int|
                0 <= j < pairs.len() && (#[trigger] pairs[j]) == (key, v),
            Option::None => true,
        },
    decreases pairs.len(),
{
    if pairs.len() > 0 {
        let t = pairs.subrange(1, pairs.len() as int);
        lemma_lin_find_scan(t, key);
        if pairs[0].0 == key {
            assert(pairs[0] == (key, pairs[0].1));
        } else {
            if has_key(pairs, key) {
                let j = choose|j: int| 0 <= j < pairs.len() && (#[trigger] pairs[j]).0 == key;
                assert(t[j - 1] == pairs[j]);
                assert(has_key(t, key));
            }
            if has_key(t, key) {
                let j = choose|j: int| 0 <= j < t.len() && (#[trigger] t[j]).0 == key;
                assert(pairs[j + 1] == t[j]);
            }
            match lin_find(t, key) {
                Option::Some(v) => {
                    let j = choose|j: int| 0 <= j < t.len() && (#[trigger] t[j]) == (key, v);
                    assert(pairs[j + 1] == t[j]);
                },
                Option::None => {},
            }
        }
    }
}

/// The linear scan returns exactly the entry at `j` when `j` is the first
/// position carrying the key.
pub proof fn lemma_lin_find_at(pairs: Seq<(Seq<char>, u32)>, key: Seq<char>, j: int)
    requires
        0 <= j < pairs.len(),
        pairs[j].0 == key,
        forall|k: int| 0 <= k < j ==> (#[trigger] pairs[k]).0 != key,
    ensures
        lin_find(pairs, key) == Option::Some(pairs[j].1),
    decreases j,
{
    if j > 0 {
        let t = pairs.subrange(1, pairs.len() as int);
        assert(t[j - 1] == pairs[j]);
        assert forall|k: int| 0 <= k < j - 1 implies (#[trigger] t[k]).0 != key by {
            assert(t[k] == pairs[k + 1]);
        }
        lemma_lin_find_at(t, key, j - 1);
    }
}

/// No entry carries the key, so the linear scan finds nothing.
pub proof fn lemma_lin_find_none(pairs: Seq<(Seq<char>, u32)>, key: Seq<char>)
    requires
        forall|k: int| 0 <= k < pairs.len() ==> (#[trigger] pairs[k]).0 != key,
    ensures
        lin_find(pairs, key) is None,
{
    lemma_lin_find_scan(pairs, key);
}

/// Binary search over entries sorted ascending by raw key bytes.
///
/// Always safe: a found value belongs to an entry that carries the key.
/// When the entries are sorted (the producer's obligation), the result is
/// exactly the linear-scan result, first matching entry included; without
/// sortedness the result of a lookup is unspecified, never unsound.
pub fn find_key_in_object(pairs: &Vec<(String, u32)>, key: &str) -> (r: Option<u32>)
    ensures
        match r {
            Option::Some(v) => exists|j: int|
                0 <= j < pairs@.len() && (#[trigger] pairs_view(pairs@)[j]) == (key@, v),
            Option::None => true,
        },
        pairs_sorted(pairs_view(pairs@)) ==> r == lin_find(pairs_view(pairs@), key@),
{
    let ghost pv = pairs_view(pairs@);
    let mut lo: usize = 0;
    let mut hi: usize = pairs.len();
    while lo < hi
        invariant
            pv == pairs_view(pairs@),
            lo <= hi <= pairs@.len(),
            pairs_sorted(pv) ==> forall|k: int| 0 <= k < lo ==> key_cmp((#[trigger] pv[k]).0, key@)
                < 0,
            pairs_sorted(pv) ==> forall|k: int|
                hi <= k < pv.len() ==> key_cmp((#[trigger] pv[k]).0, key@) > 0,
        decreases hi - lo,
    {
        let mid = lo + (hi - lo) / 2;
        let c = str_cmp(pairs[mid].0.as_str(), key);
        proof {
            assert(pv[mid as int] == (pairs@[mid as int].0@, pairs@[mid as int].1));
            assert(c == key_cmp(pv[mid as int].0, key@));
        }
        if c == 0 {
            let mut m = mid;
            while m > 0 && str_cmp(pairs[m - 1].0.as_str(), key) == 0
                invariant
                    pv == pairs_view(pairs@),
                    m <= mid < pairs@.len(),
                    key_cmp(pv[m as int].0, key@) == 0,
                decreases m,
            {
                proof {
                    assert(pv[m - 1] == (pairs@[m - 1].0@, pairs@[m - 1].1));
                }
                m = m - 1;
            }
            proof {
                lemma_key_cmp_eq(pv[m as int].0, key@);
                assert(pv[m as int] == (key@, pv[m as int].1));
                if pairs_sorted(pv) {
                    assert(m > 0 ==> pv[m - 1] == (pairs@[m - 1].0@, pairs@[m - 1].1));
                    assert forall|k: int| 0 <= k < m implies (#[trigger] pv[k]).0 != key@ by {
                        if pv[k].0 == key@ {
                            assert(key_le(pv[k].0, pv[m - 1].0));
                            assert(key_le(pv[m - 1].0, pv[m as int].0));
                            lemma_key_cmp_eq(pv[k].0, key@);
                            lemma_key_cmp_eq(pv[m - 1].0, key@);
                            lemma_lex_cmp_bytes_basic(
                                vstd::utf8::encode_utf8(pv[m - 1].0),
                                vstd::utf8::encode_utf8(key@),
                            );
                            lemma_lex_cmp_bytes_trans(
                                vstd::utf8::encode_utf8(key@),
                                vstd::utf8::encode_utf8(pv[m - 1].0),
                                vstd::utf8::encode_utf8(key@),
                            );
                            assert(key_cmp(key@, pv[m - 1].0) <= 0);
                            assert(key_cmp(pv[m - 1].0, key@) == 0);
                            assert(false);
                        }
                    }
                    lemma_lin_find_at(pv, key@, m as int);
                }
            }
            return Option::Some(pairs[m].1);
        } else if c < 0 {
            proof {
                if pairs_sorted(pv) {
                    assert forall|k: int| 0 <= k < mid + 1 implies key_cmp(
                        (#[trigger] pv[k]).0,
                        key@,
                    ) < 0 by {
                        assert(key_le(pv[k].0, pv[mid as int].0));
                        lemma_lex_cmp_bytes_trans(
                            vstd::utf8::encode_utf8(pv[k].0),
                            vstd::utf8::encode_utf8(pv[mid as int].0),
                            vstd::utf8::encode_utf8(key@),
                        );
                        lemma_key_cmp_eq(pv[k].0, key@);
                        if key_cmp(pv[k].0, key@) == 0 {
                            lemma_lex_cmp_bytes_basic(
                                vstd::utf8::encode_utf8(pv[k].0),
                                vstd::utf8::encode_utf8(key@),
                            );
                            lemma_lex_cmp_bytes_trans(
                                vstd::utf8::encode_utf8(key@),
                                vstd::utf8::encode_utf8(pv[k].0),
                                vstd::utf8::encode_utf8(pv[mid as int].0),
                            );
                            assert(key_cmp(key@, pv[mid as int].0) <= 0);
                            lemma_lex_cmp_bytes_basic(
                                vstd::utf8::encode_utf8(pv[mid as int].0),
                                vstd::utf8::encode_utf8(key@),
                            );
                            assert(false);
                        }
                    }
                }
            }
            lo = mid + 1;
        } else {
            proof {
                if pairs_sorted(pv) {
                    assert forall|k: int| mid <= k < pv.len() implies key_cmp(
                        (#[trigger] pv[k]).0,
                        key@,
                    ) > 0 by {
                        assert(key_le(pv[mid as int].0, pv[k].0));
                        lemma_lex_cmp_bytes_basic(
                            vstd::utf8::encode_utf8(pv[mid as int].0),
                            vstd::utf8::encode_utf8(pv[k].0),
                        );
                        lemma_lex_cmp_bytes_basic(
                            vstd::utf8::encode_utf8(pv[k].0),
                            vstd::utf8::encode_utf8(key@),
                        );
                        if key_cmp(pv[k].0, key@) <= 0 {
                            lemma_lex_cmp_bytes_trans(
                                vstd::utf8::encode_utf8(pv[mid as int].0),
                                vstd::utf8::encode_utf8(pv[k].0),
                                vstd::utf8::encode_utf8(key@),
                            );
                            assert(false);
                        }
                    }
                }
            }
            hi = mid;
        }
    }
    proof {
        if pairs_sorted(pv) {
            assert forall|k: int| 0 <= k < pv.len() implies (#[trigger] pv[k]).0 != key@ by {
                lemma_key_cmp_eq(pv[k].0, key@);
            }
            lemma_lin_find_none(pv, key@);
        }
    }
    Option::None
}


/// The kind of a node, as text.
pub open spec fn spec_kind_name(n: NodeView) -> Seq<char> {
    match n {
        NodeView::Null => "null"@,
        NodeView::Bool(_) => "bool"@,
        NodeView::Int(_) => "int"@,
        NodeView::Float(_) => "float"@,
        NodeView::Str(_) => "string"@,
        NodeView::Array(_) => "array"@,
        NodeView::Object(_) => "object"@,
    }
}

/// The name of a node's kind, for diagnostics.
pub fn node_type_name(node: &ValueNode) -> (r: &'static str)
    ensures
        r@ == spec_kind_name(node@),
{
    match node {
        ValueNode::Null => "null",
        ValueNode::Bool(_) => "bool",
        ValueNode::Int(_) => "int",
        ValueNode::Float(_) => "float",
        ValueNode::String(_) => "string",
        ValueNode::Array(_) => "array",
        ValueNode::Object(_) => "object",
    }
}

/// Key lookup on the node at `idx`: binary search over the node's sorted
/// entries.
///
/// On an object whose entries are sorted, returns exactly what a linear
/// scan would: the first entry carrying the key, or `KeyNotFound`. On any
/// other node kind, `TypeMismatch`.
pub fn get_by_key(tree: &FlatValue, idx: u32, key: &str) -> (r: Result<u32, TraversalError>)
    requires
        nodes_refs_ok(tree@.nodes),
        idx < tree@.nodes.len(),
    ensures
        match tree@.nodes[idx as int] {
            NodeView::Object(pairs) => {
                &&& (r matches Ok(v) ==> v < idx && has_key(pairs, key@))
                &&& (pairs_sorted(pairs) ==> match lin_find(pairs, key@) {
                    Option::Some(v) => r == Ok::<u32, TraversalError>(v),
                    Option::None => r matches Err(e) && e matches TraversalError::KeyNotFound(m)
                        && m@ == key@,
                })
            },
            _ => r matches Err(e) && e matches TraversalError::TypeMismatch(m) && m@
                == spec_kind_name(tree@.nodes[idx as int]),
        },
{
    let node = &tree.nodes[idx as usize];
    proof {
        assert(node@ == tree@.nodes[idx as int]);
        assert(node_refs_ok(node@, idx as int));
    }
    match node {
        ValueNode::Object(pairs) => {
            let ghost pv = pairs_view(pairs@);
            match find_key_in_object(pairs, key) {
                Option::Some(v) => {
                    proof {
                        let j = choose|j: int|
                            0 <= j < pairs@.len() && (#[trigger] pairs_view(pairs@)[j]) == (
                                key@,
                                v,
                            );
                        assert(pv[j].1 < idx);
                        if pairs_sorted(pv) {
                            lemma_lin_find_scan(pv, key@);
                        }
                    }
                    Result::Ok(v)
                },
                Option::None => Result::Err(
                    TraversalError::KeyNotFound(String::from_str(key)),
                ),
            }
        },
        _ => Result::Err(TraversalError::TypeMismatch(String::from_str(node_type_name(node)))),
    }
}

/// Element access on the node at `idx`: the `i`-th element of an array.
/// `IndexOutOfBounds` (naming the index) past the end, `TypeMismatch`
/// (naming the node kind) on any other kind.
pub fn get_by_index(tree: &FlatValue, idx: u32, i: usize) -> (r: Result<u32, TraversalError>)
    requires
        nodes_refs_ok(tree@.nodes),
        idx < tree@.nodes.len(),
    ensures
        match tree@.nodes[idx as int] {
            NodeView::Array(els) => if i < els.len() {
                r == Ok::<u32, TraversalError>(els[i as int]) && els[i as int] < idx
            } else {
                r matches Err(e) && e matches TraversalError::IndexOutOfBounds(m) && m@
                    == crate::project::dec_digits(i as int)
            },
            _ => r matches Err(e) && e matches TraversalError::TypeMismatch(m) && m@
                == spec_kind_name(tree@.nodes[idx as int]),
        },
{
    let node = &tree.nodes[idx as usize];
    proof {
        assert(node@ == tree@.nodes[idx as int]);
        assert(node_refs_ok(node@, idx as int));
    }
    match node {
        ValueNode::Array(els) => {
            if i < els.len() {
                Result::Ok(els[i])
            } else {
                Result::Err(TraversalError::IndexOutOfBounds(usize_to_string(i)))
            }
        },
        _ => Result::Err(TraversalError::TypeMismatch(String::from_str(node_type_name(node)))),
    }
}

/// The number of entries of an object or elements of an array at `idx`;
/// `TypeMismatch` on scalars.
pub fn node_len(tree: &FlatValue, idx: u32) -> (r: Result<usize, TraversalError>)
    requires
        idx < tree@.nodes.len(),
    ensures
        match tree@.nodes[idx as int] {
            NodeView::Object(pairs) => r == Ok::<usize, TraversalError>(pairs.len() as usize),
            NodeView::Array(els) => r == Ok::<usize, TraversalError>(els.len() as usize),
            _ => r matches Err(e) && e matches TraversalError::TypeMismatch(m) && m@
                == spec_kind_name(tree@.nodes[idx as int]),
        },
{
    let node = &tree.nodes[idx as usize];
    proof {
        assert(node@ == tree@.nodes[idx as int]);
    }
    match node {
        ValueNode::Object(pairs) => Result::Ok(pairs.len()),
        ValueNode::Array(els) => Result::Ok(els.len()),
        _ => Result::Err(TraversalError::TypeMismatch(String::from_str(node_type_name(node)))),
    }
}

/// The ordered key list of the object at `idx`; `TypeMismatch` on any
/// other kind.
pub fn keys_of(tree: &FlatValue, idx: u32) -> (r: Result<Vec<String>, TraversalError>)
    requires
        idx < tree@.nodes.len(),
    ensures
        match tree@.nodes[idx as int] {
            NodeView::Object(pairs) => match r {
                Ok(ks) => ks@.len() == pairs.len() && forall|j: int|
                    0 <= j < pairs.len() ==> (#[trigger] ks@[j])@ == pairs[j].0,
                Err(_) => false,
            },
            _ => r matches Err(e) && e matches TraversalError::TypeMismatch(m) && m@
                == spec_kind_name(tree@.nodes[idx as int]),
        },
{
    let node = &tree.nodes[idx as usize];
    proof {
        assert(node@ == tree@.nodes[idx as int]);
    }
    match node {
        ValueNode::Object(pairs) => {
            let ghost pv = pairs_view(pairs@);
            let mut ks: Vec<String> = Vec::new();
            let mut j: usize = 0;
            let n = pairs.len();
            while j < n
                invariant
                    pv == pairs_view(pairs@),
                    n == pairs@.len(),
                    j <= n,
                    ks@.len() == j,
                    forall|k: int| 0 <= k < j ==> (#[trigger] ks@[k])@ == pv[k].0,
                decreases n - j,
            {
                ks.push(clone_string(&pairs[j].0));
                proof {
                    assert(pv[j as int] == (pairs@[j as int].0@, pairs@[j as int].1));
                }
                j = j + 1;
            }
            Result::Ok(ks)
        },
        _ => Result::Err(TraversalError::TypeMismatch(String::from_str(node_type_name(node)))),
    }
}

/// Whether the object at `idx` has an entry with this key, via the same
/// binary search as [`get_by_key`]; `TypeMismatch` on any other kind.
pub fn contains_key(tree: &FlatValue, idx: u32, key: &str) -> (r: Result<bool, TraversalError>)
    requires
        nodes_refs_ok(tree@.nodes),
        idx < tree@.nodes.len(),
    ensures
        match tree@.nodes[idx as int] {
            NodeView::Object(pairs) => {
                &&& (r matches Ok(true) ==> has_key(pairs, key@))
                &&& (pairs_sorted(pairs) ==> r == Ok::<bool, TraversalError>(
                    has_key(pairs, key@),
                ))
            },
            _ => r matches Err(e) && e matches TraversalError::TypeMismatch(m) && m@
                == spec_kind_name(tree@.nodes[idx as int]),
        },
{
    let node = &tree.nodes[idx as usize];
    proof {
        assert(node@ == tree@.nodes[idx as int]);
    }
    match node {
        ValueNode::Object(pairs) => {
            let ghost pv = pairs_view(pairs@);
            let found = find_key_in_object(pairs, key);
            proof {
                if let Option::Some(v) = found {
                    let j = choose|j: int|
                        0 <= j < pairs@.len() && (#[trigger] pairs_view(pairs@)[j]) == (key@, v);
                }
                if pairs_sorted(pv) {
                    lemma_lin_find_scan(pv, key@);
                }
            }
            Result::Ok(found.is_some())
        },
        _ => Result::Err(TraversalError::TypeMismatch(String::from_str(node_type_name(node)))),
    }
}

/// The decimal text of a machine word.
pub fn usize_to_string(x: usize) -> (r: String)
    ensures
        r@ == crate::project::dec_digits(x as int),
{
    crate::project::u64_to_string(x as u64)
}



/// The views of a sequence of strings.
pub open spec fn strs_view(s: Seq<String>) -> Seq<Seq<char>> {
    s.map_values(|x: String| x@)
}

/// Position of the first occurrence of `sep`, or the length if there is
/// none.
pub open spec fn first_at(s: Seq<char>, sep: char) -> nat
    decreases s.len(),
{
    if s.len() == 0 {
        0
    } else if s[0] == sep {
        0
    } else {
        1 + first_at(s.skip(1), sep)
    }
}

/// The segments of `s` separated by `sep`: one more segment than there are
/// separators, empty segments included.
pub open spec fn split_on(s: Seq<char>, sep: char) -> Seq<Seq<char>>
    decreases s.len(),
{
    let i = first_at(s, sep) as int;
    if i >= s.len() {
        seq![s]
    } else {
        seq![s.take(i)] + split_on(s.skip(i + 1), sep)
    }
}

/// The dot-separated segments of a path.
pub open spec fn split_dots(s: Seq<char>) -> Seq<Seq<char>> {
    split_on(s, '.')
}

/// `first_at` is the scan result: no separator before `i`, and one at `i`
/// unless `i` is the length.
pub proof fn lemma_first_at(s: Seq<char>, sep: char, i: int)
    requires
        0 <= i <= s.len(),
        forall|k: int| 0 <= k < i ==> s[k] != sep,
        i < s.len() ==> s[i] == sep,
    ensures
        first_at(s, sep) == i,
    decreases i,
{
    if i > 0 {
        let t = s.skip(1);
        assert forall|k: int| 0 <= k < i - 1 implies t[k] != sep by {
            assert(t[k] == s[k + 1]);
        }
        assert(i - 1 < t.len() ==> t[i - 1] == s[i]);
        lemma_first_at(t, sep, i - 1);
    }
}

/// The digit part of an index segment: an optional leading plus sign is
/// dropped.
pub open spec fn digits_of(s: Seq<char>) -> Seq<char> {
    if s.len() > 0 && s[0] == '+' {
        s.skip(1)
    } else {
        s
    }
}

/// Non-empty and all decimal digits.
pub open spec fn all_digits(s: Seq<char>) -> bool {
    s.len() > 0 && forall|i: int| 0 <= i < s.len() ==> '0' <= #[trigger] s[i] <= '9'
}

/// The segment is a non-negative decimal integer literal.
pub open spec fn index_literal(s: Seq<char>) -> bool {
    all_digits(digits_of(s))
}

/// The value of a digit string.
pub open spec fn dec_val(s: Seq<char>) -> int
    decreases s.len(),
{
    if s.len() == 0 {
        0
    } else {
        dec_val(s.drop_last()) * 10 + (s.last() as int - '0' as int)
    }
}

/// Parse a decimal array-index segment. `None` exactly on segments that
/// are not non-negative decimal literals. Values too large for any array
/// are reported as at least `0x1_0000_0000`, never as something smaller.
pub fn parse_array_index(seg: &str) -> (r: Option<u64>)
    ensures
        r is Some <==> index_literal(seg@),
        r matches Some(v) ==> (v as int == dec_val(digits_of(seg@))) || (v >= 0x1_0000_0000
            && dec_val(digits_of(seg@)) >= 0x1_0000_0000),
{
    let n = seg.unicode_len();
    if n == 0 {
        return Option::None;
    }
    let mut start: usize = 0;
    if seg.get_char(0) == '+' {
        start = 1;
    }
    if start >= n {
        proof {
            assert(digits_of(seg@) =~= seg@.skip(1));
            assert(!all_digits(digits_of(seg@)));
        }
        return Option::None;
    }
    let ghost ds = digits_of(seg@);
    proof {
        if start == 1 {
            assert(ds =~= seg@.skip(1));
        } else {
            assert(ds =~= seg@);
        }
    }
    let mut acc: u64 = 0;
    let mut i: usize = start;
    while i < n
        invariant
            start <= i <= n,
            n == seg@.len(),
            start == 0 || start == 1,
            start == 1 ==> seg@[0] == '+',
            ds == digits_of(seg@),
            ds.len() == n - start,
            forall|k: int| start <= k < n ==> ds[k - start] == seg@[k],
            forall|k: int| 0 <= k < i - start ==> '0' <= #[trigger] ds[k] <= '9',
            (acc as int == dec_val(ds.take(i - start))) || (acc >= 0x1_0000_0000 && dec_val(
                ds.take(i - start),
            ) >= 0x1_0000_0000),
            acc as int <= dec_val(ds.take(i - start)),
            dec_val(ds.take(i - start)) >= 0,
        decreases n - i,
    {
        let c = seg.get_char(i);
        if c < '0' || c > '9' {
            proof {
                assert(ds[i - start] == seg@[i as int]);
                assert(!all_digits(ds));
            }
            return Option::None;
        }
        let d = (c as u32 - 48) as u64;
        let ghost pre = ds.take(i - start);
        proof {
            assert(ds.take(i + 1 - start).drop_last() =~= pre);
            assert(ds.take(i + 1 - start).last() == ds[i - start]);
            assert(ds[i - start] == seg@[i as int]);
            assert(dec_val(ds.take(i + 1 - start)) == dec_val(pre) * 10 + (seg@[i as int] as int
                - '0' as int));
        }
        if acc >= 0x1_0000_0000u64 {
            proof {
                assert(dec_val(pre) * 10 >= dec_val(pre));
            }
        } else {
            acc = acc * 10 + d;
        }
        i = i + 1;
    }
    proof {
        assert(ds.take(n - start) =~= ds);
        assert(all_digits(ds));
    }
    Option::Some(acc)
}

/// What resolving a path yields: the node it reaches, or the first failing
/// segment with the way it fails. Each failing outcome carries the text
/// its error names: the absent key, the out-of-range segment, the
/// non-numeric segment, or the kind of the scalar that refused traversal.
pub enum PathOutcome {
    /// The path resolves to this node index.
    Found(u32),
    /// An object lacks this segment's key.
    Missing(Seq<char>),
    /// The numeric segment exceeds the array's length.
    OutOfRange(Seq<char>),
    /// The segment cannot be applied to the node it meets: a non-numeric
    /// segment on an array (carrying the segment), or any segment on a
    /// scalar (carrying the node's kind).
    Mismatch(Seq<char>),
}

/// Resolve segments `k ..` of a path against the tree, starting at `cur`.
/// Object steps follow the first entry carrying the key; array steps
/// follow the decimal index.
pub open spec fn path_eval(nodes: Seq<NodeView>, cur: u32, segs: Seq<Seq<char>>, k: int)
    -> PathOutcome
    decreases segs.len() - k,
{
    if k >= segs.len() {
        PathOutcome::Found(cur)
    } else if cur >= nodes.len() {
        PathOutcome::Mismatch(segs[k])
    } else {
        match nodes[cur as int] {
            NodeView::Object(pairs) => match lin_find(pairs, segs[k]) {
                Option::Some(v) => path_eval(nodes, v, segs, k + 1),
                Option::None => PathOutcome::Missing(segs[k]),
            },
            NodeView::Array(els) => if !index_literal(segs[k]) {
                PathOutcome::Mismatch(segs[k])
            } else if dec_val(digits_of(segs[k])) >= els.len() {
                PathOutcome::OutOfRange(segs[k])
            } else {
                path_eval(nodes, els[dec_val(digits_of(segs[k]))], segs, k + 1)
            },
            _ => PathOutcome::Mismatch(spec_kind_name(nodes[cur as int])),
        }
    }
}

/// Split text on a separator character.
pub fn split_char(path: &str, sep: char) -> (r: Vec<String>)
    ensures
        r@.len() == split_on(path@, sep).len(),
        forall|j: int| 0 <= j < r@.len() ==> (#[trigger] r@[j])@ == split_on(path@, sep)[j],
{
    let n = path.unicode_len();
    let mut out: Vec<String> = Vec::new();
    let mut start: usize = 0;
    let mut i: usize = 0;
    proof {
        assert(path@.skip(0) =~= path@);
        assert(strs_view(out@) =~= Seq::<Seq<char>>::empty());
        assert(strs_view(out@) + split_on(path@.skip(0), sep) =~= split_on(path@, sep));
    }
    let mut done: bool = false;
    while !done
        invariant
            start <= i <= n,
            n == path@.len(),
            !done ==> (forall|k: int| start <= k < i ==> path@[k] != sep) && split_on(path@, sep)
                =~= strs_view(out@) + split_on(path@.skip(start as int), sep),
            done ==> split_on(path@, sep) =~= strs_view(out@),
        decreases (if done { 0int } else { n - i + 2 }),
    {
        if i == n {
            let seg = path.substring_char(start, n).to_owned();
            proof {
                let rest = path@.skip(start as int);
                lemma_first_at(rest, sep, n - start);
                assert(rest.take(n - start) =~= rest);
                assert(split_on(rest, sep) =~= seq![rest]);
                assert(seg@ == path@.subrange(start as int, n as int));
                assert(seg@ =~= rest);
                assert(strs_view(out@.push(seg)) =~= strs_view(out@) + seq![seg@]);
                assert(split_on(path@, sep) =~= strs_view(out@.push(seg)));
            }
            out.push(seg);
            done = true;
        } else {
            let c = path.get_char(i);
            if c == sep {
                let seg = path.substring_char(start, i).to_owned();
                proof {
                    let rest = path@.skip(start as int);
                    lemma_first_at(rest, sep, i - start);
                    assert(rest.take(i - start) =~= path@.subrange(start as int, i as int));
                    assert(rest.skip(i - start + 1) =~= path@.skip(i + 1));
                    assert(split_on(rest, sep) =~= seq![path@.subrange(start as int, i as int)]
                        + split_on(path@.skip(i + 1), sep));
                    assert(seg@ == path@.subrange(start as int, i as int));
                    assert(strs_view(out@.push(seg)) =~= strs_view(out@) + seq![seg@]);
                    assert(strs_view(out@) + (seq![seg@] + split_on(path@.skip(i + 1), sep))
                        =~= strs_view(out@.push(seg)) + split_on(path@.skip(i + 1), sep));
                }
                out.push(seg);
                start = i + 1;
            }
            i = i + 1;
        }
    }
    proof {
        assert forall|j: int| 0 <= j < out@.len() implies (#[trigger] out@[j])@ == split_on(
            path@,
            sep,
        )[j] by {
            assert(strs_view(out@)[j] == out@[j]@);
        }
    }
    out
}

/// Resolve a dot-separated path from the node `root`.
///
/// For each segment: objects resolve by key lookup, arrays by decimal
/// index, and scalars refuse traversal. On a tree whose objects are sorted
/// the result is exactly [`path_eval`] over [`split_dots`]: the node it
/// names on success, and on failure the error variant matching the first
/// failing segment, which `KeyNotFound` carries verbatim.
pub fn path_get(tree: &FlatValue, root: u32, path: &str) -> (r: Result<u32, TraversalError>)
    requires
        nodes_refs_ok(tree@.nodes),
        nodes_encodable(tree@.nodes),
        root < tree@.nodes.len(),
    ensures
        r matches Ok(v) ==> v < tree@.nodes.len(),
        crate::value::objects_sorted(tree@.nodes) ==> match path_eval(
            tree@.nodes,
            root,
            split_dots(path@),
            0,
        ) {
            PathOutcome::Found(v) => r == Ok::<u32, TraversalError>(v),
            PathOutcome::Missing(seg) => r matches Err(e) && e matches
                TraversalError::KeyNotFound(m) && m@ == seg,
            PathOutcome::OutOfRange(seg) => r matches Err(e) && e matches
                TraversalError::IndexOutOfBounds(m) && m@ == seg,
            PathOutcome::Mismatch(txt) => r matches Err(e) && e matches
                TraversalError::TypeMismatch(m) && m@ == txt,
        },
{
    let segs = split_char(path, '.');
    let ghost sv = split_dots(path@);
    let mut cur: u32 = root;
    let mut k: usize = 0;
    let n = segs.len();
    while k < n
        invariant
            nodes_refs_ok(tree@.nodes),
            nodes_encodable(tree@.nodes),
            cur < tree@.nodes.len(),
            k <= n,
            sv == split_dots(path@),
            n == segs@.len() == sv.len(),
            forall|j: int| 0 <= j < n ==> (#[trigger] segs@[j])@ == sv[j],
            crate::value::objects_sorted(tree@.nodes) ==> path_eval(tree@.nodes, root, sv, 0)
                == path_eval(tree@.nodes, cur, sv, k as int),
        decreases n - k,
    {
        let seg = &segs[k];
        let node = &tree.nodes[cur as usize];
        proof {
            assert(node@ == tree@.nodes[cur as int]);
            assert(node_refs_ok(node@, cur as int));
            assert(crate::codec::node_encodable(node@));
            assert(seg@ == sv[k as int]);
        }
        match node {
            ValueNode::Object(pairs) => {
                let ghost pv = pairs_view(pairs@);
                match find_key_in_object(pairs, seg.as_str()) {
                    Option::Some(v) => {
                        proof {
                            let j = choose|j: int|
                                0 <= j < pairs@.len() && (#[trigger] pairs_view(pairs@)[j]) == (
                                    seg@,
                                    v,
                                );
                            assert(pv[j].1 < cur);
                            if crate::value::objects_sorted(tree@.nodes) {
                                assert(pairs_sorted(pv));
                                assert(lin_find(pv, sv[k as int]) == Option::Some(v));
                                assert(path_eval(tree@.nodes, cur, sv, k as int) == path_eval(
                                    tree@.nodes,
                                    v,
                                    sv,
                                    k + 1,
                                ));
                            }
                        }
                        cur = v;
                    },
                    Option::None => {
                        proof {
                            if crate::value::objects_sorted(tree@.nodes) {
                                assert(pairs_sorted(pv));
                                assert(lin_find(pv, sv[k as int]) is None);
                                assert(path_eval(tree@.nodes, cur, sv, k as int)
                                    == PathOutcome::Missing(sv[k as int]));
                                assert(path_eval(tree@.nodes, root, sv, 0)
                                    == PathOutcome::Missing(sv[k as int]));
                            }
                        }
                        let m = clone_string(seg);
                        proof {
                            assert(m@ == sv[k as int]);
                        }
                        return Result::Err(TraversalError::KeyNotFound(m));
                    },
                }
            },
            ValueNode::Array(els) => {
                match parse_array_index(seg.as_str()) {
                    Option::None => {
                        proof {
                            assert(!index_literal(sv[k as int]));
                            assert(path_eval(tree@.nodes, cur, sv, k as int)
                                == PathOutcome::Mismatch(sv[k as int]));
                        }
                        return Result::Err(
                            TraversalError::TypeMismatch(clone_string(seg)),
                        );
                    },
                    Option::Some(v) => {
                        if v >= els.len() as u64 {
                            proof {
                                assert(els@.len() < 0x1_0000_0000);
                                assert(dec_val(digits_of(sv[k as int])) >= els@.len());
                                assert(path_eval(tree@.nodes, cur, sv, k as int)
                                    == PathOutcome::OutOfRange(sv[k as int]));
                            }
                            return Result::Err(
                                TraversalError::IndexOutOfBounds(clone_string(seg)),
                            );
                        }
                        proof {
                            assert(v < 0x1_0000_0000);
                            assert(v as int == dec_val(digits_of(sv[k as int])));
                            assert((els@[v as int] as int) < cur as int);
                            assert(path_eval(tree@.nodes, cur, sv, k as int) == path_eval(
                                tree@.nodes,
                                els@[v as int],
                                sv,
                                k + 1,
                            ));
                        }
                        cur = els[v as usize];
                    },
                }
            },
            _ => {
                proof {
                    assert(path_eval(tree@.nodes, cur, sv, k as int) == PathOutcome::Mismatch(
                        spec_kind_name(node@),
                    ));
                    if crate::value::objects_sorted(tree@.nodes) {
                        assert(path_eval(tree@.nodes, root, sv, 0) == PathOutcome::Mismatch(
                            spec_kind_name(node@),
                        ));
                    }
                }
                return Result::Err(
                    TraversalError::TypeMismatch(String::from_str(node_type_name(node))),
                );
            },
        }
        k = k + 1;
    }
    proof {
        assert(path_eval(tree@.nodes, cur, sv, n as int) == PathOutcome::Found(cur));
    }
    Result::Ok(cur)
}


/// Round trip: the serialization of any well-formed, encodable tree
/// decodes to exactly that tree, so materializing the decoded archive at
/// its root agrees with materializing the tree directly.
pub proof fn lemma_round_trip_materialize(t: TreeView)
    requires
        crate::codec::tree_encodable(t),
        nodes_refs_ok(t.nodes),
        t.root is Some,
    ensures
        crate::codec::parse_archive(crate::codec::archive_bytes(t)) == Option::Some(t),
        mat_spec(
            crate::codec::parse_archive(crate::codec::archive_bytes(t)).unwrap().nodes,
            t.root.unwrap() as int,
        ) == mat_spec(t.nodes, t.root.unwrap() as int),
{
    crate::codec::lemma_archive_round_trip(t);
}

} // verus!
