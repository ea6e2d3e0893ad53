//! Format adapters: JSON, YAML, TOML and INI.
//!
//! Parsing of the text grammars is delegated to the parser crates; the
//! adapters here consume each parser's value as an opaque tree, classify
//! one layer at a time through a thin trusted wrapper, and build the
//! canonical [`FlatValue`] bottom-up in verified code. Whatever the parser
//! returned, the tree the adapter emits is well formed: children appended
//! before parents and every object sorted ascending by raw key bytes.

use vstd::prelude::*;
use simd_json::prelude::ValueAsScalar;
use simd_json::prelude::ValueAsArray;
use simd_json::prelude::ValueAsObject;
use simd_json::prelude::ValueIntoArray;
use simd_json::prelude::ValueIntoObject;
use crate::value::{FlatValue, ValueNode, NodeView, nodes_wf, node_wf, lemma_add_node_wf};
use crate::error::SnapconfigError;
use crate::parsers::{parse_scalar_value, scalar_node, Format, spec_format_of};
use crate::order::{sort_pairs, pairs_view, pairs_sorted};
use vstd::string::StringExecFns;

verus! {

/// One layer of an adapter value: a scalar, the elements of an array, the
/// entries of a mapping (entries with a `None` key are dropped), or an
/// inner value to unwrap (a tagged YAML value).
pub enum Shallow<V> {
    Null,
    Bool(bool),
    Int(i64),
    Float(String),
    Str(String),
    Arr(Vec<V>),
    Obj(Vec<(Option<String>, V)>),
    Inner(V),
}

/// A termination measure on adapter values: nested values are strict
/// subtrees of a finite value, so any structural size strictly shrinks.
pub trait Weighted: Sized {
    spec fn weight(self) -> nat;
}

/// A source value an adapter can classify layer by layer.
pub trait Adapter: Weighted {
    fn shallow(self) -> (r: Shallow<Self>)
        ensures
            shallow_bounded(r, self.weight()),
    ;
}

/// Total weight of a sequence of values.
pub open spec fn sum_weights<V: Weighted>(s: Seq<V>) -> nat
    decreases s.len(),
{
    if s.len() == 0 {
        0
    } else {
        s[0].weight() + sum_weights(s.skip(1))
    }
}

/// Total weight of a sequence of keyed values.
pub open spec fn sum_pair_weights<V: Weighted>(s: Seq<(Option<String>, V)>) -> nat
    decreases s.len(),
{
    if s.len() == 0 {
        0
    } else {
        s[0].1.weight() + sum_pair_weights(s.skip(1))
    }
}

/// The nested values of one classified layer weigh strictly less than the
/// value they came from.
pub open spec fn shallow_bounded<V: Weighted>(r: Shallow<V>, w: nat) -> bool {
    match r {
        Shallow::Arr(a) => sum_weights(a@) < w,
        Shallow::Obj(ps) => sum_pair_weights(ps@) < w,
        Shallow::Inner(v) => v.weight() < w,
        _ => true,
    }
}

/// Each element weighs no more than the whole sequence.
proof fn lemma_sum_weights_elem<V: Weighted>(s: Seq<V>, i: int)
    requires
        0 <= i < s.len(),
    ensures
        s[i].weight() <= sum_weights(s),
    decreases s.len(),
{
    if i > 0 {
        lemma_sum_weights_elem(s.skip(1), i - 1);
        assert(s.skip(1)[i - 1] == s[i]);
    }
}

/// Each entry's value weighs no more than the whole entry sequence.
proof fn lemma_sum_pair_weights_elem<V: Weighted>(s: Seq<(Option<String>, V)>, i: int)
    requires
        0 <= i < s.len(),
    ensures
        s[i].1.weight() <= sum_pair_weights(s),
    decreases s.len(),
{
    if i > 0 {
        lemma_sum_pair_weights_elem(s.skip(1), i - 1);
        assert(s.skip(1)[i - 1] == s[i]);
    }
}

/// Append the tree a source value denotes, bottom-up. Fails only when the
/// arena runs out of 32-bit indices; the arena stays well formed either
/// way, already-placed nodes never move, and the returned index is in
/// bounds.
#[verifier::rlimit(50)]
pub fn add_value<V: Adapter>(flat: &mut FlatValue, v: V) -> (r: Result<u32, ()>)
    requires
        nodes_wf(old(flat)@.nodes),
    ensures
        nodes_wf(final(flat)@.nodes),
        final(flat)@.root == old(flat)@.root,
        final(flat)@.nodes.len() >= old(flat)@.nodes.len(),
        r matches Ok(idx) ==> (idx as int) < final(flat)@.nodes.len(),
        r is Ok ==> final(flat)@.nodes.len() > old(flat)@.nodes.len(),
        r is Err ==> final(flat)@.nodes.len() >= 0xFFFF_FFFE,
    decreases v.weight(),
{
    let ghost w = v.weight();
    match v.shallow() {
        Shallow::Null => {
            if flat.len() >= 0xFFFF_FFFEusize {
                return Result::Err(());
            }
            proof {
                lemma_add_node_wf(flat@.nodes, NodeView::Null);
            }
            Result::Ok(flat.add_node(ValueNode::Null))
        },
        Shallow::Bool(b) => {
            if flat.len() >= 0xFFFF_FFFEusize {
                return Result::Err(());
            }
            proof {
                lemma_add_node_wf(flat@.nodes, NodeView::Bool(b));
            }
            Result::Ok(flat.add_node(ValueNode::Bool(b)))
        },
        Shallow::Int(i) => {
            if flat.len() >= 0xFFFF_FFFEusize {
                return Result::Err(());
            }
            proof {
                lemma_add_node_wf(flat@.nodes, NodeView::Int(i));
            }
            Result::Ok(flat.add_node(ValueNode::Int(i)))
        },
        Shallow::Float(t) => {
            if flat.len() >= 0xFFFF_FFFEusize {
                return Result::Err(());
            }
            proof {
                lemma_add_node_wf(flat@.nodes, NodeView::Float(t@));
            }
            Result::Ok(flat.add_node(ValueNode::Float(t)))
        },
        Shallow::Str(t) => {
            if flat.len() >= 0xFFFF_FFFEusize {
                return Result::Err(());
            }
            proof {
                lemma_add_node_wf(flat@.nodes, NodeView::Str(t@));
            }
            Result::Ok(flat.add_node(ValueNode::String(t)))
        },
        Shallow::Arr(a) => {
            let mut rest = a;
            let mut idxs: Vec<u32> = Vec::new();
            while rest.len() > 0
                invariant
                    nodes_wf(flat@.nodes),
                    flat@.root == old(flat)@.root,
                    flat@.nodes.len() >= old(flat)@.nodes.len(),
                    w == v.weight(),
                    sum_weights(rest@) < w,
                    forall|k: int|
                        0 <= k < idxs@.len() ==> ((#[trigger] idxs@[k]) as int)
                            < flat@.nodes.len(),
                decreases rest@.len(),
            {
                let ghost pre_rest = rest@;
                let item = rest.remove(0);
                proof {
                    assert(pre_rest.remove(0) =~= pre_rest.skip(1));
                    assert(item.weight() <= sum_weights(pre_rest)) by {
                        lemma_sum_weights_elem(pre_rest, 0);
                    }
                    assert(sum_weights(rest@) <= sum_weights(pre_rest));
                }
                let idx = match add_value(flat, item) {
                    Result::Ok(i) => i,
                    Result::Err(()) => {
                        return Result::Err(());
                    },
                };
                idxs.push(idx);
            }
            if flat.len() >= 0xFFFF_FFFEusize {
                return Result::Err(());
            }
            proof {
                assert(node_wf(NodeView::Array(idxs@), flat@.nodes.len() as int));
                lemma_add_node_wf(flat@.nodes, NodeView::Array(idxs@));
            }
            Result::Ok(flat.add_node(ValueNode::Array(idxs)))
        },
        Shallow::Obj(ps) => {
            let mut rest = ps;
            let mut pairs: Vec<(String, u32)> = Vec::new();
            while rest.len() > 0
                invariant
                    nodes_wf(flat@.nodes),
                    flat@.root == old(flat)@.root,
                    flat@.nodes.len() >= old(flat)@.nodes.len(),
                    w == v.weight(),
                    sum_pair_weights(rest@) < w,
                    forall|k: int|
                        0 <= k < pairs@.len() ==> ((#[trigger] pairs@[k]).1 as int)
                            < flat@.nodes.len(),
                decreases rest@.len(),
            {
                let ghost pre_rest = rest@;
                let (key_opt, item) = rest.remove(0);
                proof {
                    assert(pre_rest.remove(0) =~= pre_rest.skip(1));
                    assert(pre_rest[0].1.weight() <= sum_pair_weights(pre_rest)) by {
                        lemma_sum_pair_weights_elem(pre_rest, 0);
                    }
                    assert(item == pre_rest[0].1);
                    assert(sum_pair_weights(rest@) <= sum_pair_weights(pre_rest));
                }
                match key_opt {
                    Option::Some(key) => {
                        let idx = match add_value(flat, item) {
                            Result::Ok(i) => i,
                            Result::Err(()) => {
                                return Result::Err(());
                            },
                        };
                        pairs.push((key, idx));
                    },
                    Option::None => {},
                }
            }
            let ghost presort = pairs@;
            sort_pairs(&mut pairs);
            if flat.len() >= 0xFFFF_FFFEusize {
                return Result::Err(());
            }
            proof {
                broadcast use vstd::seq_lib::group_to_multiset_ensures;

                let pv = pairs_view(pairs@);
                assert forall|k: int| 0 <= k < pv.len() implies ((#[trigger] pv[k]).1 as int)
                    < flat@.nodes.len() by {
                    assert(pairs@.to_multiset().count(pairs@[k]) > 0) by {
                        assert(pairs@.contains(pairs@[k]));
                    }
                    assert(presort.contains(pairs@[k]));
                    let j = choose|j: int| 0 <= j < presort.len() && presort[j] == pairs@[k];
                    assert(pv[k] == (pairs@[k].0@, pairs@[k].1));
                }
                assert(node_wf(NodeView::Object(pv), flat@.nodes.len() as int));
                lemma_add_node_wf(flat@.nodes, NodeView::Object(pv));
            }
            Result::Ok(flat.add_node(ValueNode::Object(pairs)))
        },
        Shallow::Inner(x) => add_value(flat, x),
    }
}

/// Build a rooted tree from one source value.
pub fn build_tree<V: Adapter>(v: V) -> (r: Result<FlatValue, SnapconfigError>)
    ensures
        r matches Ok(t) ==> t.wf() && t@.root is Some && t@.nodes.len() > 0,
        r matches Err(e) ==> e matches SnapconfigError::Serialize(_),
{
    let mut flat = FlatValue::new();
    match add_value(&mut flat, v) {
        Result::Ok(idx) => {
            flat.set_root(idx);
            Result::Ok(flat)
        },
        Result::Err(()) => Result::Err(
            SnapconfigError::Serialize(String::from_str("tree has too many nodes to index")),
        ),
    }
}


#[verifier::external_type_specification]
#[verifier::external_body]
pub struct ExJsonValue(simd_json::value::owned::Value);

#[verifier::external_type_specification]
#[verifier::external_body]
pub struct ExYamlValue(serde_yaml::Value);

#[verifier::external_type_specification]
#[verifier::external_body]
pub struct ExTomlValue(toml::Value);

pub uninterp spec fn json_weight(v: simd_json::value::owned::Value) -> nat;

pub uninterp spec fn yaml_weight(v: serde_yaml::Value) -> nat;

pub uninterp spec fn toml_weight(v: toml::Value) -> nat;

impl Weighted for simd_json::value::owned::Value {
    open spec fn weight(self) -> nat {
        json_weight(self)
    }
}

impl Weighted for serde_yaml::Value {
    open spec fn weight(self) -> nat {
        yaml_weight(self)
    }
}

impl Weighted for toml::Value {
    open spec fn weight(self) -> nat {
        toml_weight(self)
    }
}

/// Relies on simd_json's OwnedValue being a finite tree: classifying a
/// value hands out its direct children, which are strict subtrees, so any
/// structural size strictly shrinks. Scalar accessors follow simd_json's
/// own accessor methods; floats are converted to their decimal text, and a
/// value no accessor claims (null, or an integer above the signed 64-bit
/// range) classifies as null.
#[verifier::external_body]
fn shallow_json(v: simd_json::value::owned::Value) -> (r: Shallow<simd_json::value::owned::Value>)
    ensures
        shallow_bounded(r, json_weight(v)),
{
    if let Some(b) = v.as_bool() {
        Shallow::Bool(b)
    } else if let Some(i) = v.as_i64() {
        Shallow::Int(i)
    } else if let Some(f) = v.as_f64() {
        Shallow::Float(f.to_string())
    } else if let Some(s) = v.as_str() {
        Shallow::Str(s.to_string())
    } else if v.as_array().is_some() {
        Shallow::Arr(v.into_array().unwrap_or_default())
    } else if v.as_object().is_some() {
        Shallow::Obj(json_object_entries(v))
    } else {
        Shallow::Null
    }
}

/// Relies on simd_json's OwnedValue::into_object: the entries of an object
/// value in iteration order (none for other kinds); each entry's value is
/// a strict subtree, so the entries together weigh less than the value.
#[verifier::external_body]
fn json_object_entries(v: simd_json::value::owned::Value) -> (r: Vec<
    (Option<String>, simd_json::value::owned::Value),
>)
    ensures
        sum_pair_weights(r@) < json_weight(v),
{
    v.into_object().map(|o| o.into_iter().map(|(k, x)| (Some(k), x)).collect()).unwrap_or_default()
}

/// Relies on serde_yaml's Value being a finite tree, as for JSON: one
/// classification layer hands out strict subtrees. Numbers follow
/// serde_yaml's as_i64/as_f64; mapping keys that are not strings are
/// dropped via as_str; tagged values unwrap to their inner value.
#[verifier::external_body]
fn shallow_yaml(v: serde_yaml::Value) -> (r: Shallow<serde_yaml::Value>)
    ensures
        shallow_bounded(r, yaml_weight(v)),
{
    match v {
        serde_yaml::Value::Null => Shallow::Null,
        serde_yaml::Value::Bool(b) => Shallow::Bool(b),
        serde_yaml::Value::Number(n) => n.as_i64().map(Shallow::Int).unwrap_or_else(
            || n.as_f64().map(|f| Shallow::Float(f.to_string())).unwrap_or(Shallow::Null),
        ),
        serde_yaml::Value::String(s) => Shallow::Str(s),
        serde_yaml::Value::Sequence(a) => Shallow::Arr(a),
        serde_yaml::Value::Mapping(m) => Shallow::Obj(
            m.into_iter().map(|(k, x)| (k.as_str().map(|s| s.to_string()), x)).collect(),
        ),
        serde_yaml::Value::Tagged(t) => Shallow::Inner(t.value),
    }
}

/// Relies on toml's Value being a finite tree, as for JSON: one
/// classification layer hands out strict subtrees. Floats and datetimes
/// are converted to their text form, as toml displays them.
#[verifier::external_body]
fn shallow_toml(v: toml::Value) -> (r: Shallow<toml::Value>)
    ensures
        shallow_bounded(r, toml_weight(v)),
{
    match v {
        toml::Value::String(s) => Shallow::Str(s),
        toml::Value::Integer(i) => Shallow::Int(i),
        toml::Value::Float(f) => Shallow::Float(f.to_string()),
        toml::Value::Boolean(b) => Shallow::Bool(b),
        toml::Value::Datetime(dt) => Shallow::Str(dt.to_string()),
        toml::Value::Array(a) => Shallow::Arr(a),
        toml::Value::Table(t) => Shallow::Obj(
            t.into_iter().map(|(k, x)| (Some(k), x)).collect(),
        ),
    }
}

impl Adapter for simd_json::value::owned::Value {
    fn shallow(self) -> (r: Shallow<Self>) {
        shallow_json(self)
    }
}

impl Adapter for serde_yaml::Value {
    fn shallow(self) -> (r: Shallow<Self>) {
        shallow_yaml(self)
    }
}

impl Adapter for toml::Value {
    fn shallow(self) -> (r: Shallow<Self>) {
        shallow_toml(self)
    }
}

/// Whether simd_json::to_owned_value accepts this text. The parse is a
/// function of the text alone, so acceptance can be named.
pub uninterp spec fn json_parses(s: Seq<char>) -> bool;

/// Whether serde_yaml::from_str accepts this text.
pub uninterp spec fn yaml_parses(s: Seq<char>) -> bool;

/// Whether toml::from_str accepts this text.
pub uninterp spec fn toml_parses(s: Seq<char>) -> bool;

/// Whether ini::Ini::load_from_str accepts this text.
pub uninterp spec fn ini_parses(s: Seq<char>) -> bool;

/// Relies on simd_json::to_owned_value to parse JSON text: it succeeds
/// exactly on the texts it accepts ([`json_parses`]); the error is carried
/// as its message.
#[verifier::external_body]
fn json_parse(content: &str) -> (r: Result<simd_json::value::owned::Value, String>)
    ensures
        r is Ok <==> json_parses(content@),
{
    let mut bytes = content.as_bytes().to_vec();
    match simd_json::to_owned_value(&mut bytes) {
        Ok(v) => Ok(v),
        Err(e) => Err(e.to_string()),
    }
}

/// Relies on serde_yaml::from_str to parse YAML text: it succeeds exactly
/// on the texts it accepts ([`yaml_parses`]); the error is carried as its
/// message.
#[verifier::external_body]
fn yaml_parse(content: &str) -> (r: Result<serde_yaml::Value, String>)
    ensures
        r is Ok <==> yaml_parses(content@),
{
    match serde_yaml::from_str::<serde_yaml::Value>(content) {
        Ok(v) => Ok(v),
        Err(e) => Err(e.to_string()),
    }
}

/// Relies on toml::from_str to parse TOML text: it succeeds exactly on
/// the texts it accepts ([`toml_parses`]); the error is carried as its
/// message.
#[verifier::external_body]
fn toml_parse(content: &str) -> (r: Result<toml::Value, String>)
    ensures
        r is Ok <==> toml_parses(content@),
{
    match toml::from_str::<toml::Value>(content) {
        Ok(v) => Ok(v),
        Err(e) => Err(e.to_string()),
    }
}

/// Relies on ini::Ini::load_from_str to parse INI text, handing back each
/// section's name (None for the general section) and its properties in
/// order: it succeeds exactly on the texts it accepts ([`ini_parses`]);
/// the error is carried as its message.
#[verifier::external_body]
fn ini_load(content: &str) -> (r: Result<Vec<(Option<String>, Vec<(String, String)>)>, String>)
    ensures
        r is Ok <==> ini_parses(content@),
{
    match ini::Ini::load_from_str(content) {
        Ok(doc) => Ok(
            doc.iter().map(
                |(sec, props)| (
                    sec.map(|s| s.to_string()),
                    props.iter().map(|(k, v)| (k.to_string(), v.to_string())).collect(),
                ),
            ).collect(),
        ),
        Err(e) => Err(e.to_string()),
    }
}

/// Normalize a parsed JSON value into a canonical tree.
pub fn from_simd_json(value: simd_json::value::owned::Value) -> (r: Result<FlatValue, SnapconfigError>)
    ensures
        r matches Ok(t) ==> t.wf() && t@.root is Some && t@.nodes.len() > 0,
        r matches Err(e) ==> e matches SnapconfigError::Serialize(_),
{
    build_tree(value)
}

/// Normalize a parsed YAML value into a canonical tree.
pub fn from_yaml(value: serde_yaml::Value) -> (r: Result<FlatValue, SnapconfigError>)
    ensures
        r matches Ok(t) ==> t.wf() && t@.root is Some && t@.nodes.len() > 0,
        r matches Err(e) ==> e matches SnapconfigError::Serialize(_),
{
    build_tree(value)
}

/// Normalize a parsed TOML value into a canonical tree.
pub fn from_toml(value: toml::Value) -> (r: Result<FlatValue, SnapconfigError>)
    ensures
        r matches Ok(t) ==> t.wf() && t@.root is Some && t@.nodes.len() > 0,
        r matches Err(e) ==> e matches SnapconfigError::Serialize(_),
{
    build_tree(value)
}

/// Parse JSON text into a canonical tree.
pub fn parse_json(content: &str) -> (r: Result<FlatValue, SnapconfigError>)
    ensures
        r matches Ok(t) ==> t.wf() && t@.root is Some && t@.nodes.len() > 0,
        r matches Err(e) ==> (e matches SnapconfigError::JsonParse(_) || e matches
            SnapconfigError::Serialize(_)),
        (r matches Err(e) && e matches SnapconfigError::JsonParse(_)) <==> !json_parses(content@),
        json_parses(content@) ==> (r is Ok || (r matches Err(e) && e matches
            SnapconfigError::Serialize(_))),
{
    match json_parse(content) {
        Result::Ok(v) => from_simd_json(v),
        Result::Err(m) => Result::Err(SnapconfigError::JsonParse(m)),
    }
}

/// Parse YAML text into a canonical tree.
pub fn parse_yaml(content: &str) -> (r: Result<FlatValue, SnapconfigError>)
    ensures
        r matches Ok(t) ==> t.wf() && t@.root is Some && t@.nodes.len() > 0,
        r matches Err(e) ==> (e matches SnapconfigError::YamlParse(_) || e matches
            SnapconfigError::Serialize(_)),
        (r matches Err(e) && e matches SnapconfigError::YamlParse(_)) <==> !yaml_parses(content@),
        yaml_parses(content@) ==> (r is Ok || (r matches Err(e) && e matches
            SnapconfigError::Serialize(_))),
{
    match yaml_parse(content) {
        Result::Ok(v) => from_yaml(v),
        Result::Err(m) => Result::Err(SnapconfigError::YamlParse(m)),
    }
}

/// Parse TOML text into a canonical tree.
pub fn parse_toml(content: &str) -> (r: Result<FlatValue, SnapconfigError>)
    ensures
        r matches Ok(t) ==> t.wf() && t@.root is Some && t@.nodes.len() > 0,
        r matches Err(e) ==> (e matches SnapconfigError::TomlParse(_) || e matches
            SnapconfigError::Serialize(_)),
        (r matches Err(e) && e matches SnapconfigError::TomlParse(_)) <==> !toml_parses(content@),
        toml_parses(content@) ==> (r is Ok || (r matches Err(e) && e matches
            SnapconfigError::Serialize(_))),
{
    match toml_parse(content) {
        Result::Ok(v) => from_toml(v),
        Result::Err(m) => Result::Err(SnapconfigError::TomlParse(m)),
    }
}

/// Parse INI text into a canonical tree: one object per section (the
/// general section is named `default`), each property coerced as a raw
/// scalar, sections and properties sorted ascending by raw key bytes.
pub fn parse_ini(content: &str) -> (r: Result<FlatValue, SnapconfigError>)
    ensures
        r matches Ok(t) ==> t.wf() && t@.root is Some && t@.nodes.len() > 0,
        r matches Err(e) ==> (e matches SnapconfigError::IniParse(_) || e matches
            SnapconfigError::Serialize(_)),
        (r matches Err(e) && e matches SnapconfigError::IniParse(_)) <==> !ini_parses(content@),
        ini_parses(content@) ==> (r is Ok || (r matches Err(e) && e matches
            SnapconfigError::Serialize(_))),
{
    let sections = match ini_load(content) {
        Result::Ok(s) => s,
        Result::Err(m) => {
            return Result::Err(SnapconfigError::IniParse(m));
        },
    };
    let mut flat = FlatValue::new();
    let mut secs: Vec<(String, u32)> = Vec::new();
    let mut rest = sections;
    while rest.len() > 0
        invariant
            ini_parses(content@),
            nodes_wf(flat@.nodes),
            flat@.root is None,
            forall|k: int|
                0 <= k < secs@.len() ==> ((#[trigger] secs@[k]).1 as int) < flat@.nodes.len(),
        decreases rest@.len(),
    {
        let (name_opt, props) = rest.remove(0);
        let name = match name_opt {
            Option::Some(n) => n,
            Option::None => String::from_str("default"),
        };
        let mut pairs: Vec<(String, u32)> = Vec::new();
        let mut prest = props;
        while prest.len() > 0
            invariant
                ini_parses(content@),
                nodes_wf(flat@.nodes),
                flat@.root is None,
                forall|k: int|
                    0 <= k < pairs@.len() ==> ((#[trigger] pairs@[k]).1 as int)
                        < flat@.nodes.len(),
                forall|k: int|
                    0 <= k < secs@.len() ==> ((#[trigger] secs@[k]).1 as int)
                        < flat@.nodes.len(),
            decreases prest@.len(),
        {
            let (pk, pv) = prest.remove(0);
            if flat.len() >= 0xFFFF_FFFEusize {
                return Result::Err(
                    SnapconfigError::Serialize(
                        String::from_str("tree has too many nodes to index"),
                    ),
                );
            }
            let ghost pre_nodes = flat@.nodes;
            let vidx = parse_scalar_value(&mut flat, pv.as_str());
            proof {
                assert(crate::value::node_refs_ok(scalar_node(pv@), pre_nodes.len() as int))
                    by {
                    match scalar_node(pv@) {
                        NodeView::Array(els) => {
                            assert(false);
                        },
                        NodeView::Object(ps2) => {
                            assert(false);
                        },
                        _ => {},
                    }
                }
                assert(node_wf(scalar_node(pv@), pre_nodes.len() as int)) by {
                    match scalar_node(pv@) {
                        NodeView::Object(ps2) => {
                            assert(false);
                        },
                        _ => {},
                    }
                }
                lemma_add_node_wf(pre_nodes, scalar_node(pv@));
            }
            pairs.push((pk, vidx));
        }
        let ghost presort = pairs@;
        sort_pairs(&mut pairs);
        if flat.len() >= 0xFFFF_FFFEusize {
            return Result::Err(
                SnapconfigError::Serialize(String::from_str("tree has too many nodes to index")),
            );
        }
        proof {
            broadcast use vstd::seq_lib::group_to_multiset_ensures;

            let pvw = pairs_view(pairs@);
            assert forall|k: int| 0 <= k < pvw.len() implies ((#[trigger] pvw[k]).1 as int)
                < flat@.nodes.len() by {
                assert(pairs@.to_multiset().count(pairs@[k]) > 0) by {
                    assert(pairs@.contains(pairs@[k]));
                }
                assert(presort.contains(pairs@[k]));
                let j = choose|j: int| 0 <= j < presort.len() && presort[j] == pairs@[k];
                assert(pvw[k] == (pairs@[k].0@, pairs@[k].1));
            }
            assert(node_wf(NodeView::Object(pvw), flat@.nodes.len() as int));
            lemma_add_node_wf(flat@.nodes, NodeView::Object(pvw));
        }
        let sidx = flat.add_node(ValueNode::Object(pairs));
        secs.push((name, sidx));
    }
    let ghost presecs = secs@;
    sort_pairs(&mut secs);
    if flat.len() >= 0xFFFF_FFFEusize {
        return Result::Err(
            SnapconfigError::Serialize(String::from_str("tree has too many nodes to index")),
        );
    }
    proof {
        broadcast use vstd::seq_lib::group_to_multiset_ensures;

        let pvw = pairs_view(secs@);
        assert forall|k: int| 0 <= k < pvw.len() implies ((#[trigger] pvw[k]).1 as int)
            < flat@.nodes.len() by {
            assert(secs@.to_multiset().count(secs@[k]) > 0) by {
                assert(secs@.contains(secs@[k]));
            }
            assert(presecs.contains(secs@[k]));
            let j = choose|j: int| 0 <= j < presecs.len() && presecs[j] == secs@[k];
            assert(pvw[k] == (secs@[k].0@, secs@[k].1));
        }
        assert(node_wf(NodeView::Object(pvw), flat@.nodes.len() as int));
        lemma_add_node_wf(flat@.nodes, NodeView::Object(pvw));
    }
    let root = flat.add_node(ValueNode::Object(secs));
    flat.set_root(root);
    Result::Ok(flat)
}

/// Parse source text in the format the path's suffix names; unrecognized
/// suffixes parse as dotenv text.
pub fn parse_content(content: &str, path: &str) -> (r: Result<FlatValue, SnapconfigError>)
    requires
        content@.len() + 2 < 0xFFFF_FFFF,
    ensures
        r matches Ok(t) ==> t.wf() && t@.root is Some,
        (spec_format_of(path@) is None || spec_format_of(path@) == Option::Some(Format::Env))
            ==> r is Ok,
{
    let fmt = match Format::from_path(path) {
        Option::Some(f) => f,
        Option::None => Format::Env,
    };
    match fmt {
        Format::Json => parse_json(content),
        Format::Yaml => parse_yaml(content),
        Format::Toml => parse_toml(content),
        Format::Ini => parse_ini(content),
        Format::Env => {
            let t = crate::parsers::parse_env(content);
            proof {
                assert(t@.root == Option::Some((t@.nodes.len() - 1) as u32));
            }
            Result::Ok(t)
        },
    }
}

} // verus!
