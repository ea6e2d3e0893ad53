//! The loaded-configuration handle.
//!
//! A [`SnapConfig`] pairs a validated tree (decoded from an archive the
//! caller read from the cache file) with its root index and the paths it
//! came from. All traversal goes through the verified reader functions;
//! errors of one call never invalidate the handle.

use vstd::prelude::*;
use vstd::string::StringExecFns;
use crate::value::{FlatValue, NodeView, nodes_refs_ok};
use crate::codec::{open_archive, nodes_encodable, parse_archive};
use crate::error::{SnapconfigError, TraversalError};
use crate::reader::{ConfigValue, materialize_node, mat_spec, path_get, path_eval, split_dots,
    keys_of, node_len, contains_key, has_key, node_type_name, spec_kind_name, PathOutcome};
use crate::parsers::{parse_env, Format, ci_match};
use crate::adapters::{parse_json, parse_yaml, parse_toml, parse_ini};

verus! {

/// A loaded configuration: a validated tree, its root, and the paths the
/// data came from.
pub struct SnapConfig {
    pub tree: FlatValue,
    pub root_idx: u32,
    pub cache_path: String,
    pub source_path: Option<String>,
}

impl SnapConfig {
    /// The handle's validity: the tree passed validation and the root is
    /// in bounds.
    pub open spec fn valid(&self) -> bool {
        nodes_refs_ok(self.tree@.nodes) && nodes_encodable(self.tree@.nodes) && (self.root_idx
            as int) < self.tree@.nodes.len()
    }

    /// Bind a validated tree to its root and paths.
    pub fn new(tree: FlatValue, root_idx: u32, cache_path: String, source_path: Option<String>)
        -> (r: SnapConfig)
        requires
            nodes_refs_ok(tree@.nodes),
            nodes_encodable(tree@.nodes),
            (root_idx as int) < tree@.nodes.len(),
        ensures
            r.valid(),
            r.tree == tree,
            r.root_idx == root_idx,
            r.cache_path == cache_path,
            r.source_path == source_path,
    {
        SnapConfig { tree, root_idx, cache_path, source_path }
    }

    /// Resolve a dot-separated path from the root; see
    /// [`crate::reader::path_get`] for the exact contract.
    pub fn get(&self, path: &str) -> (r: Result<u32, TraversalError>)
        requires
            self.valid(),
        ensures
            r matches Ok(v) ==> (v as int) < self.tree@.nodes.len(),
            crate::value::objects_sorted(self.tree@.nodes) ==> match path_eval(
                self.tree@.nodes,
                self.root_idx,
                split_dots(path@),
                0,
            ) {
                PathOutcome::Found(v) => r == Ok::<u32, TraversalError>(v),
                PathOutcome::Missing(seg) => r matches Err(e) && e matches
                    TraversalError::KeyNotFound(m) && m@ == seg,
                PathOutcome::OutOfRange(seg) => r matches Err(e) && e matches
                    TraversalError::IndexOutOfBounds(m) && m@ == seg,
                PathOutcome::Mismatch(txt) => r matches Err(e) && e matches
                    TraversalError::TypeMismatch(m) && m@ == txt,
            },
    {
        path_get(&self.tree, self.root_idx, path)
    }

    /// The ordered keys of the root object.
    pub fn keys(&self) -> (r: Result<Vec<String>, TraversalError>)
        requires
            self.valid(),
        ensures
            match self.tree@.nodes[self.root_idx as int] {
                NodeView::Object(pairs) => match r {
                    Ok(ks) => ks@.len() == pairs.len() && forall|j: int|
                        0 <= j < pairs.len() ==> (#[trigger] ks@[j])@ == pairs[j].0,
                    Err(_) => false,
                },
                _ => r is Err,
            },
    {
        keys_of(&self.tree, self.root_idx)
    }

    /// The entry or element count of the root node.
    pub fn len(&self) -> (r: Result<usize, TraversalError>)
        requires
            self.valid(),
        ensures
            match self.tree@.nodes[self.root_idx as int] {
                NodeView::Object(pairs) => r == Ok::<usize, TraversalError>(
                    pairs.len() as usize,
                ),
                NodeView::Array(els) => r == Ok::<usize, TraversalError>(els.len() as usize),
                _ => r is Err,
            },
    {
        node_len(&self.tree, self.root_idx)
    }

    /// Whether the root object has an entry with this key.
    pub fn contains(&self, key: &str) -> (r: Result<bool, TraversalError>)
        requires
            self.valid(),
        ensures
            match self.tree@.nodes[self.root_idx as int] {
                NodeView::Object(pairs) => {
                    &&& (r matches Ok(true) ==> has_key(pairs, key@))
                    &&& (crate::order::pairs_sorted(pairs) ==> r == Ok::<bool, TraversalError>(
                        has_key(pairs, key@),
                    ))
                },
                _ => r is Err,
            },
    {
        contains_key(&self.tree, self.root_idx, key)
    }

    /// Materialize the whole configuration as an owned value.
    pub fn to_value(&self) -> (r: ConfigValue)
        requires
            self.valid(),
        ensures
            r@ == mat_spec(self.tree@.nodes, self.root_idx as int),
    {
        materialize_node(&self.tree, self.root_idx)
    }

    /// The kind of the root node.
    pub fn root_type(&self) -> (r: &'static str)
        requires
            self.valid(),
        ensures
            r@ == spec_kind_name(self.tree@.nodes[self.root_idx as int]),
    {
        let node = &self.tree.nodes[self.root_idx as usize];
        proof {
            assert(node@ == self.tree@.nodes[self.root_idx as int]);
        }
        node_type_name(node)
    }
}

/// Open a cache buffer as a handle: validate the archive, decode it, and
/// bind the declared root. Fails `InvalidCache` exactly when the buffer
/// is not a valid archive or declares no root.
pub fn open_handle(
    buf: &[u8],
    cache_path: String,
    source_path: Option<String>,
) -> (r: Result<SnapConfig, SnapconfigError>)
    ensures
        r is Ok <==> (parse_archive(buf@) matches Option::Some(t) && t.root is Some),
        r matches Ok(c) ==> c.valid() && Option::Some(c.tree@) == parse_archive(buf@)
            && parse_archive(buf@).unwrap().root == Option::Some(c.root_idx),
        r matches Ok(c) ==> c.cache_path == cache_path && c.source_path == source_path,
        r matches Err(e) ==> e matches SnapconfigError::InvalidCache(_),
{
    let tree = match open_archive(buf) {
        Result::Ok(t) => t,
        Result::Err(e) => {
            return Result::Err(e);
        },
    };
    let root_idx = match tree.root() {
        Option::Some(i) => i,
        Option::None => {
            return Result::Err(
                SnapconfigError::InvalidCache(String::from_str("cache declares no root node")),
            );
        },
    };
    Result::Ok(SnapConfig::new(tree, root_idx, cache_path, source_path))
}

/// The format a name passed to [`loads`] selects.
pub open spec fn spec_loads_format(f: Seq<char>) -> Option<Format> {
    if ci_match(f, "json"@) {
        Option::Some(Format::Json)
    } else if ci_match(f, "yaml"@) || ci_match(f, "yml"@) {
        Option::Some(Format::Yaml)
    } else if ci_match(f, "toml"@) {
        Option::Some(Format::Toml)
    } else if ci_match(f, "ini"@) || ci_match(f, "cfg"@) {
        Option::Some(Format::Ini)
    } else if ci_match(f, "env"@) {
        Option::Some(Format::Env)
    } else {
        Option::None
    }
}

/// Parse text in the named format (`json`, `yaml`/`yml`, `toml`,
/// `ini`/`cfg`, `env`, any ASCII case) directly to an owned value, with no
/// caching and no archive. Fails `UnknownFormat` exactly on other names.
pub fn loads(content: &str, format: &str) -> (r: Result<ConfigValue, SnapconfigError>)
    requires
        content@.len() + 2 < 0xFFFF_FFFF,
    ensures
        spec_loads_format(format@) is None <==> (r matches Err(e) && e matches
            SnapconfigError::UnknownFormat(_)),
        spec_loads_format(format@) == Option::Some(Format::Env) ==> (r matches Ok(v) && exists|
            t: crate::value::TreeView,
        |
            {
                &&& #[trigger] crate::parsers::env_tree_ok(content@, t)
                &&& crate::value::nodes_wf(t.nodes)
                &&& v@ == crate::reader::mat_spec(t.nodes, t.nodes.len() - 1)
            }),
        spec_loads_format(format@) == Option::Some(Format::Json) ==> ((r matches Err(e)
            && e matches SnapconfigError::JsonParse(_)) <==> !crate::adapters::json_parses(
            content@,
        )),
        spec_loads_format(format@) == Option::Some(Format::Yaml) ==> ((r matches Err(e)
            && e matches SnapconfigError::YamlParse(_)) <==> !crate::adapters::yaml_parses(
            content@,
        )),
        spec_loads_format(format@) == Option::Some(Format::Toml) ==> ((r matches Err(e)
            && e matches SnapconfigError::TomlParse(_)) <==> !crate::adapters::toml_parses(
            content@,
        )),
        spec_loads_format(format@) == Option::Some(Format::Ini) ==> ((r matches Err(e)
            && e matches SnapconfigError::IniParse(_)) <==> !crate::adapters::ini_parses(
            content@,
        )),
{
    let fmt = if crate::parsers::str_ci_eq(format, "json") {
        Format::Json
    } else if crate::parsers::str_ci_eq(format, "yaml") || crate::parsers::str_ci_eq(
        format,
        "yml",
    ) {
        Format::Yaml
    } else if crate::parsers::str_ci_eq(format, "toml") {
        Format::Toml
    } else if crate::parsers::str_ci_eq(format, "ini") || crate::parsers::str_ci_eq(
        format,
        "cfg",
    ) {
        Format::Ini
    } else if crate::parsers::str_ci_eq(format, "env") {
        Format::Env
    } else {
        return Result::Err(SnapconfigError::UnknownFormat(String::from_str(format)));
    };
    let tree = match fmt {
        Format::Json => parse_json(content),
        Format::Yaml => parse_yaml(content),
        Format::Toml => parse_toml(content),
        Format::Ini => parse_ini(content),
        Format::Env => Result::Ok(parse_env(content)),
    };
    let tree = match tree {
        Result::Ok(t) => t,
        Result::Err(e) => {
            return Result::Err(e);
        },
    };
    let root = match tree.root() {
        Option::Some(i) => i,
        Option::None => {
            return Result::Err(
                SnapconfigError::Serialize(String::from_str("adapter produced no root")),
            );
        },
    };
    proof {
        assert((root as int) < tree@.nodes.len());
    }
    let v = materialize_node(&tree, root);
    proof {
        match fmt {
            Format::Env => {
                assert(crate::parsers::env_tree_ok(content@, tree@));
                assert(crate::value::nodes_wf(tree@.nodes));
                assert(root as int == tree@.nodes.len() - 1);
                assert(v@ == crate::reader::mat_spec(tree@.nodes, tree@.nodes.len() - 1));
            },
            _ => {},
        }
    }
    Result::Ok(v)
}

} // verus!
