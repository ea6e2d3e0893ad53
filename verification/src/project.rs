//! Projection of an object-rooted tree into environment assignments.
//!
//! The caller supplies which keys the environment already defines; the
//! decision of what to write is computed here and proved exact: scalar
//! leaves become text (strings as-is, integers and floats in decimal,
//! booleans as `true`/`false`, null as empty), collections are skipped,
//! and a key the environment defines — or one written earlier in the same
//! run — is kept unless overriding is requested. Writing the variables is
//! I/O and stays with the caller.

use vstd::prelude::*;
use vstd::string::StringExecFns;
use crate::value::{FlatValue, ValueNode, NodeView, nodes_refs_ok, node_refs_ok};

verus! {

/// The character of one decimal digit.
pub open spec fn digit_char(d: int) -> char {
    if d == 0 {
        '0'
    } else if d == 1 {
        '1'
    } else if d == 2 {
        '2'
    } else if d == 3 {
        '3'
    } else if d == 4 {
        '4'
    } else if d == 5 {
        '5'
    } else if d == 6 {
        '6'
    } else if d == 7 {
        '7'
    } else if d == 8 {
        '8'
    } else {
        '9'
    }
}

/// The decimal digits of a non-negative number, most significant first.
pub open spec fn dec_digits(v: int) -> Seq<char>
    decreases v,
{
    if v < 10 {
        seq![digit_char(v)]
    } else {
        dec_digits(v / 10).push(digit_char(v % 10))
    }
}

/// The canonical decimal text of an integer.
pub open spec fn int_text(v: int) -> Seq<char> {
    if v < 0 {
        seq!['-'] + dec_digits(-v)
    } else {
        dec_digits(v)
    }
}

/// One digit as text.
fn digit_str(d: u64) -> (r: &'static str)
    requires
        d < 10,
    ensures
        r@ == seq![digit_char(d as int)],
{
    let r: &'static str = match d {
        0u64 => "0",
        1u64 => "1",
        2u64 => "2",
        3u64 => "3",
        4u64 => "4",
        5u64 => "5",
        6u64 => "6",
        7u64 => "7",
        8u64 => "8",
        _ => "9",
    };
    proof {
        reveal_strlit("0");
        reveal_strlit("1");
        reveal_strlit("2");
        reveal_strlit("3");
        reveal_strlit("4");
        reveal_strlit("5");
        reveal_strlit("6");
        reveal_strlit("7");
        reveal_strlit("8");
        reveal_strlit("9");
        assert(r@ =~= seq![digit_char(d as int)]);
    }
    r
}

/// The decimal text of a 64-bit unsigned integer.
pub fn u64_to_string(v: u64) -> (r: String)
    ensures
        r@ == dec_digits(v as int),
{
    let ghost m0 = v as int;
    let mut digits: Vec<u64> = Vec::new();
    let mut cur: u64 = v;
    loop
        invariant_except_break
            m0 == v,
            digits@.len() == 0 ==> cur == v,
            digits@.len() > 0 ==> dec_digits(m0) =~= (if cur as int > 0 {
                dec_digits(cur as int)
            } else {
                Seq::<char>::empty()
            }) + digits@.map_values(|d: u64| digit_char(d as int)).reverse(),
            digits@.len() > 0 ==> cur as int > 0,
            forall|k: int| 0 <= k < digits@.len() ==> (#[trigger] digits@[k]) < 10,
        ensures
            dec_digits(m0) =~= digits@.map_values(|d: u64| digit_char(d as int)).reverse(),
            digits@.len() > 0,
            forall|k: int| 0 <= k < digits@.len() ==> (#[trigger] digits@[k]) < 10,
        decreases cur,
    {
        let ghost pre = digits@;
        let ghost vpre = cur as int;
        let d = cur % 10;
        digits.push(d);
        cur = cur / 10;
        proof {
            let f = |x: u64| digit_char(x as int);
            assert(digits@ =~= pre.push(d));
            assert(digits@.map_values(f) =~= pre.map_values(f).push(digit_char(d as int)));
            assert(digits@.map_values(f).reverse() =~= seq![digit_char(d as int)]
                + pre.map_values(f).reverse());
            let tail = if cur as int > 0 {
                dec_digits(cur as int)
            } else {
                Seq::<char>::empty()
            };
            let pretail = if vpre > 0 {
                dec_digits(vpre)
            } else {
                Seq::<char>::empty()
            };
            if pre.len() == 0 {
                assert(vpre == m0);
                assert(pre.map_values(f).reverse() =~= Seq::<char>::empty());
                if vpre >= 10 {
                    assert(dec_digits(vpre) == dec_digits(vpre / 10).push(digit_char(vpre % 10)));
                    assert(dec_digits(m0) =~= tail + digits@.map_values(f).reverse());
                } else {
                    assert(d as int == vpre);
                    assert(dec_digits(vpre) =~= seq![digit_char(vpre)]);
                    assert(dec_digits(m0) =~= tail + digits@.map_values(f).reverse());
                }
            } else {
                assert(dec_digits(m0) =~= pretail + pre.map_values(f).reverse());
                if vpre >= 10 {
                    assert(dec_digits(vpre) == dec_digits(vpre / 10).push(digit_char(vpre % 10)));
                    assert(dec_digits(vpre) =~= dec_digits(vpre / 10) + seq![digit_char(
                        vpre % 10,
                    )]);
                    assert(dec_digits(m0) =~= tail + digits@.map_values(f).reverse());
                } else {
                    assert(vpre > 0);
                    assert(d as int == vpre);
                    assert(dec_digits(vpre) =~= seq![digit_char(vpre)]);
                    assert(dec_digits(m0) =~= tail + digits@.map_values(f).reverse());
                }
            }
        }
        if cur == 0 {
            break;
        }
    }
    let mut out = String::new();
    let ghost head = out@;
    let n = digits.len();
    let mut i: usize = n;
    proof {
        assert(head =~= Seq::<char>::empty());
    }
    while i > 0
        invariant
            i <= n,
            n == digits@.len(),
            head =~= Seq::<char>::empty(),
            forall|k: int| 0 <= k < digits@.len() ==> (#[trigger] digits@[k]) < 10,
            out@ =~= head + digits@.map_values(|d: u64| digit_char(d as int)).reverse().take(
                n - i,
            ),
        decreases i,
    {
        i = i - 1;
        out.append(digit_str(digits[i]));
        proof {
            let rev = digits@.map_values(|d: u64| digit_char(d as int)).reverse();
            assert(rev[n - i - 1] == digit_char(digits@[i as int] as int));
            assert(rev.take(n - i) =~= rev.take(n - i - 1).push(rev[n - i - 1]));
            assert(out@ =~= head + rev.take(n - i));
        }
    }
    proof {
        let rev = digits@.map_values(|d: u64| digit_char(d as int)).reverse();
        assert(rev.take(n as int) =~= rev);
        assert(out@ =~= dec_digits(m0));
    }
    out
}

/// The canonical decimal text of a 64-bit signed integer.
pub fn i64_to_string(v: i64) -> (r: String)
    ensures
        r@ == int_text(v as int),
{
    let mag: u64 = if v < 0 {
        ((-(v + 1)) as u64) + 1
    } else {
        v as u64
    };
    proof {
        if v < 0 {
            assert(mag as int == -(v as int));
        }
    }
    let ds = u64_to_string(mag);
    if v < 0 {
        let mut out = String::from_str("-");
        out.append(ds.as_str());
        proof {
            reveal_strlit("-");
            assert(out@ =~= seq!['-'] + dec_digits(mag as int));
            assert(int_text(v as int) == seq!['-'] + dec_digits(-(v as int)));
        }
        out
    } else {
        ds
    }
}

/// The text a scalar node projects to: strings as-is, integers and floats
/// in decimal text, booleans as `true`/`false`, null as empty text;
/// arrays and objects project to nothing.
pub open spec fn projected_text(n: NodeView) -> Option<Seq<char>> {
    match n {
        NodeView::Str(s) => Option::Some(s),
        NodeView::Int(i) => Option::Some(int_text(i as int)),
        NodeView::Float(t) => Option::Some(t),
        NodeView::Bool(b) => Option::Some(
            if b {
                "true"@
            } else {
                "false"@
            },
        ),
        NodeView::Null => Option::Some(Seq::empty()),
        _ => Option::None,
    }
}

/// A key is among the existing environment keys.
pub open spec fn key_defined(existing: Seq<Seq<char>>, key: Seq<char>) -> bool {
    exists|j: int| 0 <= j < existing.len() && existing[j] == key
}

/// The assignments projection makes from entry `k` on, given the keys
/// `defined` so far (the environment's keys plus every key written earlier
/// in the run): entries whose key is defined are skipped unless
/// overriding, only scalar leaves are written, and each written key counts
/// as defined for the entries after it.
pub open spec fn spec_assignments(
    nodes: Seq<NodeView>,
    pairs: Seq<(Seq<char>, u32)>,
    defined: Seq<Seq<char>>,
    override_existing: bool,
    k: int,
) -> Seq<(Seq<char>, Seq<char>)>
    decreases pairs.len() - k,
{
    if k < 0 || k >= pairs.len() {
        Seq::empty()
    } else {
        if key_defined(defined, pairs[k].0) && !override_existing {
            spec_assignments(nodes, pairs, defined, override_existing, k + 1)
        } else if pairs[k].1 < nodes.len() {
            match projected_text(nodes[pairs[k].1 as int]) {
                Option::Some(t) => seq![(pairs[k].0, t)] + spec_assignments(
                    nodes,
                    pairs,
                    defined.push(pairs[k].0),
                    override_existing,
                    k + 1,
                ),
                Option::None => spec_assignments(nodes, pairs, defined, override_existing, k + 1),
            }
        } else {
            spec_assignments(nodes, pairs, defined, override_existing, k + 1)
        }
    }
}

/// Compute the environment assignments for a loaded tree: one `(key,
/// text)` per scalar entry of the root object, in entry order. A key the
/// environment already defines, or one written earlier in the same run, is
/// skipped unless overriding is requested. A non-object root yields no
/// assignments.
pub fn env_assignments(
    tree: &FlatValue,
    root_idx: u32,
    existing: &Vec<String>,
    override_existing: bool,
) -> (r: Vec<(String, String)>)
    requires
        nodes_refs_ok(tree@.nodes),
        root_idx < tree@.nodes.len(),
    ensures
        ({
            let ev = crate::reader::strs_view(existing@);
            match tree@.nodes[root_idx as int] {
                NodeView::Object(pairs) => r@.len() == spec_assignments(
                    tree@.nodes,
                    pairs,
                    ev,
                    override_existing,
                    0,
                ).len() && forall|k: int|
                    0 <= k < r@.len() ==> ((#[trigger] r@[k]).0@, r@[k].1@) == spec_assignments(
                        tree@.nodes,
                        pairs,
                        ev,
                        override_existing,
                        0,
                    )[k],
                _ => r@.len() == 0,
            }
        }),
{
    let ghost ev = crate::reader::strs_view(existing@);
    let node = &tree.nodes[root_idx as usize];
    proof {
        assert(node@ == tree@.nodes[root_idx as int]);
        assert(node_refs_ok(node@, root_idx as int));
    }
    let mut out: Vec<(String, String)> = Vec::new();
    match node {
        ValueNode::Object(pairs) => {
            let ghost pv = crate::order::pairs_view(pairs@);
            let mut written: Vec<String> = Vec::new();
            let ghost dcur = ev;
            let n = pairs.len();
            let mut k: usize = 0;
            proof {
                assert(dcur =~= ev + crate::reader::strs_view(written@));
            }
            while k < n
                invariant
                    nodes_refs_ok(tree@.nodes),
                    root_idx < tree@.nodes.len(),
                    tree@.nodes[root_idx as int] == NodeView::Object(pv),
                    node_refs_ok(NodeView::Object(pv), root_idx as int),
                    pv == crate::order::pairs_view(pairs@),
                    ev == crate::reader::strs_view(existing@),
                    n == pairs@.len(),
                    k <= n,
                    dcur == ev + crate::reader::strs_view(written@),
                    forall|j: int| 0 <= j < n ==> (#[trigger] pairs@[j].0)@ == pv[j].0
                        && pairs@[j].1 == pv[j].1,
                    spec_assignments(tree@.nodes, pv, ev, override_existing, 0) =~= out_view(out@)
                        + spec_assignments(tree@.nodes, pv, dcur, override_existing, k as int),
                decreases n - k,
            {
                let ghost pre_out = out@;
                proof {
                    assert(pv[k as int] == (pairs@[k as int].0@, pairs@[k as int].1));
                    assert(pv[k as int].1 < root_idx);
                }
                let key = &pairs[k].0;
                let mut defined = false;
                let en = existing.len();
                let mut j: usize = 0;
                while j < en && !defined
                    invariant
                        j <= en,
                        en == existing@.len(),
                        ev == crate::reader::strs_view(existing@),
                        !defined ==> forall|m: int| 0 <= m < j ==> (#[trigger] ev[m]) != key@,
                        defined ==> key_defined(ev, key@),
                    decreases en - j + (if defined { 0int } else { 1int }),
                {
                    proof {
                        assert(ev[j as int] == existing@[j as int]@);
                    }
                    if existing[j].eq(key) {
                        defined = true;
                    } else {
                        j = j + 1;
                    }
                }
                proof {
                    if defined {
                        let m = choose|m: int| 0 <= m < ev.len() && (#[trigger] ev[m]) == key@;
                        assert(dcur[m] == ev[m]);
                        assert(key_defined(dcur, key@));
                    }
                }
                let wn = written.len();
                let mut w: usize = 0;
                while w < wn && !defined
                    invariant
                        w <= wn,
                        wn == written@.len(),
                        ev == crate::reader::strs_view(existing@),
                        dcur == ev + crate::reader::strs_view(written@),
                        defined ==> key_defined(dcur, key@),
                        !defined ==> forall|m: int|
                            0 <= m < w ==> (#[trigger] crate::reader::strs_view(written@)[m])
                                != key@,
                        !defined ==> forall|m: int| 0 <= m < ev.len() ==> (#[trigger] ev[m])
                            != key@,
                    decreases wn - w + (if defined { 0int } else { 1int }),
                {
                    proof {
                        assert(crate::reader::strs_view(written@)[w as int] == written@[
                            w as int
                        ]@);
                        assert(dcur[ev.len() + w] == crate::reader::strs_view(written@)[w as int]);
                    }
                    if written[w].eq(key) {
                        defined = true;
                    } else {
                        w = w + 1;
                    }
                }
                proof {
                    if !defined {
                        assert forall|m: int| 0 <= m < dcur.len() implies (#[trigger] dcur[m])
                            != key@ by {
                            if m < ev.len() {
                                assert(dcur[m] == ev[m]);
                            } else {
                                assert(dcur[m] == crate::reader::strs_view(written@)[m
                                    - ev.len()]);
                            }
                        }
                        assert(!key_defined(dcur, key@));
                    }
                }
                if defined && !override_existing {
                    proof {
                        lemma_assignments_step(tree@.nodes, pv, dcur, override_existing, k as int);
                    }
                } else {
                    let vidx = pairs[k].1;
                    let child = &tree.nodes[vidx as usize];
                    proof {
                        assert(child@ == tree@.nodes[pv[k as int].1 as int]);
                    }
                    let text: Option<String> = match child {
                        ValueNode::String(sv) => Option::Some(crate::reader::clone_string(sv)),
                        ValueNode::Int(iv) => Option::Some(i64_to_string(*iv)),
                        ValueNode::Float(tv) => Option::Some(crate::reader::clone_string(tv)),
                        ValueNode::Bool(bv) => {
                            let t = if *bv {
                                String::from_str("true")
                            } else {
                                String::from_str("false")
                            };
                            proof {
                                reveal_strlit("true");
                                reveal_strlit("false");
                            }
                            Option::Some(t)
                        },
                        ValueNode::Null => Option::Some(String::new()),
                        _ => Option::None,
                    };
                    match text {
                        Option::Some(t) => {
                            proof {
                                assert(projected_text(child@) == Option::Some(t@));
                                lemma_assignments_step(
                                    tree@.nodes,
                                    pv,
                                    dcur,
                                    override_existing,
                                    k as int,
                                );
                            }
                            let kc = crate::reader::clone_string(key);
                            let ghost pre_written = written@;
                            out.push((kc, t));
                            written.push(crate::reader::clone_string(&pairs[k].0));
                            proof {
                                assert(out_view(out@) =~= out_view(pre_out) + seq![
                                    (out@.last().0@, out@.last().1@),
                                ]);
                                assert(crate::reader::strs_view(written@)
                                    =~= crate::reader::strs_view(pre_written).push(key@));
                                assert(dcur.push(pv[k as int].0) =~= ev
                                    + crate::reader::strs_view(written@));
                            }
                            proof {
                                dcur = dcur.push(pv[k as int].0);
                            }
                        },
                        Option::None => {
                            proof {
                                assert(projected_text(child@) is None);
                                lemma_assignments_step(
                                    tree@.nodes,
                                    pv,
                                    dcur,
                                    override_existing,
                                    k as int,
                                );
                            }
                        },
                    }
                }
                k = k + 1;
            }
            proof {
                assert(spec_assignments(tree@.nodes, pv, dcur, override_existing, n as int)
                    =~= Seq::<(Seq<char>, Seq<char>)>::empty());
                assert(spec_assignments(tree@.nodes, pv, ev, override_existing, 0) =~= out_view(
                    out@,
                ));
                assert forall|kk: int| 0 <= kk < out@.len() implies ((#[trigger] out@[kk]).0@,
                    out@[kk].1@) == spec_assignments(tree@.nodes, pv, ev, override_existing, 0)[kk]
                    by {
                    assert(out_view(out@)[kk] == (out@[kk].0@, out@[kk].1@));
                }
            }
            out
        },
        _ => out,
    }
}

/// The text view of computed assignments.
pub open spec fn out_view(s: Seq<(String, String)>) -> Seq<(Seq<char>, Seq<char>)> {
    s.map_values(|p: (String, String)| (p.0@, p.1@))
}

/// One unfolding step of [`spec_assignments`].
proof fn lemma_assignments_step(
    nodes: Seq<NodeView>,
    pairs: Seq<(Seq<char>, u32)>,
    defined: Seq<Seq<char>>,
    override_existing: bool,
    k: int,
)
    requires
        0 <= k < pairs.len(),
    ensures
        spec_assignments(nodes, pairs, defined, override_existing, k)
            == if key_defined(defined, pairs[k].0) && !override_existing {
            spec_assignments(nodes, pairs, defined, override_existing, k + 1)
        } else if pairs[k].1 < nodes.len() {
            match projected_text(nodes[pairs[k].1 as int]) {
                Option::Some(t) => seq![(pairs[k].0, t)] + spec_assignments(
                    nodes,
                    pairs,
                    defined.push(pairs[k].0),
                    override_existing,
                    k + 1,
                ),
                Option::None => spec_assignments(nodes, pairs, defined, override_existing, k + 1),
            }
        } else {
            spec_assignments(nodes, pairs, defined, override_existing, k + 1)
        },
{
}

} // verus!
