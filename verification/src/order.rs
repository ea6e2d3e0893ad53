//! Ordering of object keys.
//!
//! Object entries are sorted ascending by the raw UTF-8 bytes of their keys.
//! The order is defined here as a spec-level lexicographic three-way
//! comparison on byte sequences, together with a verified executable
//! comparison on `&str` and the sort used by all adapters.

use vstd::prelude::*;
use vstd::multiset::Multiset;
use vstd::string::StringSliceAdditionalSpecFns;
use vstd::string::StrSliceExecFns;

verus! {

broadcast use vstd::seq_lib::group_to_multiset_ensures;

/// Lexicographic three-way comparison of two byte sequences:
/// negative if `a` sorts before `b`, zero if equal, positive if after.
pub open spec fn lex_cmp_bytes(a: Seq<u8>, b: Seq<u8>) -> int
    decreases a.len(),
{
    if a.len() == 0 && b.len() == 0 {
        0
    } else if a.len() == 0 {
        -1
    } else if b.len() == 0 {
        1
    } else if a[0] < b[0] {
        -1
    } else if a[0] > b[0] {
        1
    } else {
        lex_cmp_bytes(a.skip(1), b.skip(1))
    }
}

/// Key order on text: by the raw bytes of the UTF-8 encoding.
pub open spec fn key_cmp(a: Seq<char>, b: Seq<char>) -> int {
    lex_cmp_bytes(vstd::utf8::encode_utf8(a), vstd::utf8::encode_utf8(b))
}

/// `a` sorts no later than `b`.
pub open spec fn key_le(a: Seq<char>, b: Seq<char>) -> bool {
    key_cmp(a, b) <= 0
}

/// A pair sequence is sorted ascending by raw key bytes (duplicates allowed).
pub open spec fn pairs_sorted(s: Seq<(Seq<char>, u32)>) -> bool {
    forall|i: int, j: int| 0 <= i <= j < s.len() ==> key_le(s[i].0, s[j].0)
}

/// The comparison only answers 0 on equal sequences, and flips with its
/// arguments.
pub proof fn lemma_lex_cmp_bytes_basic(a: Seq<u8>, b: Seq<u8>)
    ensures
        lex_cmp_bytes(a, b) == 0 <==> a =~= b,
        lex_cmp_bytes(a, b) == -lex_cmp_bytes(b, a),
    decreases a.len(),
{
    if a.len() != 0 && b.len() != 0 && a[0] == b[0] {
        lemma_lex_cmp_bytes_basic(a.skip(1), b.skip(1));
        if lex_cmp_bytes(a, b) == 0 {
            assert(a.skip(1) =~= b.skip(1));
            assert(a.len() == b.len());
            assert forall|i: int| 0 <= i < a.len() implies a[i] == b[i] by {
                if i > 0 {
                    assert(a.skip(1)[i - 1] == a[i]);
                    assert(b.skip(1)[i - 1] == b[i]);
                }
            }
            assert(a =~= b);
        }
        if a =~= b {
            assert(a.skip(1) =~= b.skip(1));
        }
    }
}

/// The order is transitive.
pub proof fn lemma_lex_cmp_bytes_trans(a: Seq<u8>, b: Seq<u8>, c: Seq<u8>)
    requires
        lex_cmp_bytes(a, b) <= 0,
        lex_cmp_bytes(b, c) <= 0,
    ensures
        lex_cmp_bytes(a, c) <= 0,
    decreases a.len(),
{
    if a.len() != 0 && b.len() != 0 && c.len() != 0 && a[0] == b[0] && b[0] == c[0] {
        lemma_lex_cmp_bytes_trans(a.skip(1), b.skip(1), c.skip(1));
    }
}

/// Three-way comparison of two strings by their raw UTF-8 bytes.
pub fn str_cmp(a: &str, b: &str) -> (r: i32)
    ensures
        r == lex_cmp_bytes(a.spec_bytes(), b.spec_bytes()),
        -1 <= r <= 1,
{
    let ab = a.as_bytes();
    let bb = b.as_bytes();
    let mut i: usize = 0;
    proof {
        assert(ab@.skip(0) =~= ab@);
        assert(bb@.skip(0) =~= bb@);
    }
    loop
        invariant
            ab@ == a.spec_bytes(),
            bb@ == b.spec_bytes(),
            i <= ab@.len(),
            i <= bb@.len(),
            lex_cmp_bytes(ab@, bb@) == lex_cmp_bytes(ab@.skip(i as int), bb@.skip(i as int)),
        decreases ab@.len() - i,
    {
        proof {
            assert(ab@.skip(i as int).len() == ab@.len() - i);
            assert(bb@.skip(i as int).len() == bb@.len() - i);
        }
        if i >= ab.len() {
            if i >= bb.len() {
                return 0;
            }
            return -1;
        }
        if i >= bb.len() {
            return 1;
        }
        let x = ab[i];
        let y = bb[i];
        proof {
            assert(ab@.skip(i as int)[0] == ab@[i as int]);
            assert(bb@.skip(i as int)[0] == bb@[i as int]);
        }
        if x < y {
            return -1;
        }
        if x > y {
            return 1;
        }
        proof {
            assert(ab@.skip(i as int).skip(1) =~= ab@.skip(i + 1));
            assert(bb@.skip(i as int).skip(1) =~= bb@.skip(i + 1));
        }
        i = i + 1;
    }
}

/// Keys compare equal exactly when they are the same text.
pub proof fn lemma_key_cmp_eq(a: Seq<char>, b: Seq<char>)
    ensures
        key_cmp(a, b) == 0 <==> a == b,
{
    broadcast use vstd::utf8::encode_utf8_decode_utf8;

    let ea = vstd::utf8::encode_utf8(a);
    let eb = vstd::utf8::encode_utf8(b);
    lemma_lex_cmp_bytes_basic(ea, eb);
    if lex_cmp_bytes(ea, eb) == 0 {
        assert(ea =~= eb);
        assert(vstd::utf8::decode_utf8(ea) == a);
        assert(vstd::utf8::decode_utf8(eb) == b);
    }
    if a == b {
        assert(ea =~= eb);
    }
}

/// The key view of a pair sequence: each key as characters, each value index
/// as an integer.
pub open spec fn pairs_view(s: Seq<(String, u32)>) -> Seq<(Seq<char>, u32)> {
    s.map_values(|p: (String, u32)| (p.0@, p.1))
}

/// Sort object entries ascending by raw key bytes.
///
/// The result is a permutation of the input, sorted by [`key_le`]; entries
/// with equal keys may appear in any order among themselves.
pub fn sort_pairs(pairs: &mut Vec<(String, u32)>)
    ensures
        pairs_sorted(pairs_view(final(pairs)@)),
        final(pairs)@.to_multiset() == old(pairs)@.to_multiset(),
        pairs_view(final(pairs)@).to_multiset() == pairs_view(old(pairs)@).to_multiset(),
{
    let ghost orig = pairs@;
    let mut out: Vec<(String, u32)> = Vec::new();
    while pairs.len() > 0
        invariant
            out@.to_multiset().add(pairs@.to_multiset()) =~= orig.to_multiset(),
            pairs_view(out@).to_multiset().add(pairs_view(pairs@).to_multiset())
                =~= pairs_view(orig).to_multiset(),
            pairs_sorted(pairs_view(out@)),
            forall|i: int, j: int|
                0 <= i < out@.len() && 0 <= j < pairs@.len() ==> key_le(
                    out@[i].0@,
                    pairs@[j].0@,
                ),
        decreases pairs@.len(),
    {
        let m = min_key_index(pairs);
        let ghost prev = pairs@;
        let ghost oldout = out@;
        let item = pairs.remove(m);
        out.push(item);
        proof {
            assert(0 <= m < prev.len());
            assert(prev[m as int] == item);
            assert(prev.contains(item));
            assert(prev.to_multiset().count(item) > 0);
            assert(out@.to_multiset().add(pairs@.to_multiset()) =~= orig.to_multiset()) by {
                assert(pairs@ == prev.remove(m as int));
                assert(prev.remove(m as int).to_multiset() == prev.to_multiset().remove(
                    prev[m as int],
                ));
                assert(pairs@.to_multiset() == prev.to_multiset().remove(item));
                assert(out@.to_multiset() =~= oldout.to_multiset().insert(item));
                assert(oldout.to_multiset().insert(item).add(prev.to_multiset().remove(item))
                    =~= oldout.to_multiset().add(prev.to_multiset()));
            }
            assert(pairs_view(out@).to_multiset().add(pairs_view(pairs@).to_multiset())
                =~= pairs_view(orig).to_multiset()) by {
                let vitem = (item.0@, item.1);
                assert(pairs_view(pairs@) =~= pairs_view(prev).remove(m as int));
                assert(pairs_view(prev).remove(m as int).to_multiset() == pairs_view(
                    prev,
                ).to_multiset().remove(pairs_view(prev)[m as int]));
                assert(pairs_view(prev)[m as int] == vitem);
                assert(pairs_view(out@) =~= pairs_view(oldout).push(vitem));
                assert(pairs_view(oldout).push(vitem).to_multiset() =~= pairs_view(
                    oldout,
                ).to_multiset().insert(vitem));
                assert(pairs_view(prev).to_multiset().count(vitem) > 0) by {
                    assert(pairs_view(prev)[m as int] == vitem);
                    assert(pairs_view(prev).contains(vitem));
                }
                assert(pairs_view(oldout).to_multiset().insert(vitem).add(pairs_view(
                    prev,
                ).to_multiset().remove(vitem)) =~= pairs_view(oldout).to_multiset().add(
                    pairs_view(prev).to_multiset(),
                ));
            }
            assert forall|i: int, j: int|
                0 <= i < out@.len() && 0 <= j < pairs@.len() implies key_le(
                out@[i].0@,
                pairs@[j].0@,
            ) by {
                let k: int = if j < m { j } else { j + 1 };
                assert(pairs@[j] == prev[k]);
                if i < oldout.len() {
                    assert(out@[i] == oldout[i]);
                    assert(key_le(oldout[i].0@, prev[k].0@));
                } else {
                    assert(out@[i] == item);
                    assert(key_le(prev[m as int].0@, prev[k].0@));
                }
            }
            assert forall|i: int, j: int| 0 <= i <= j < out@.len() implies key_le(
                pairs_view(out@)[i].0,
                pairs_view(out@)[j].0,
            ) by {
                assert(pairs_view(out@)[i].0 == out@[i].0@);
                assert(pairs_view(out@)[j].0 == out@[j].0@);
                if j < oldout.len() {
                    assert(out@[i] == oldout[i] && out@[j] == oldout[j]);
                    assert(key_le(pairs_view(oldout)[i].0, pairs_view(oldout)[j].0));
                    assert(pairs_view(oldout)[i].0 == oldout[i].0@);
                    assert(pairs_view(oldout)[j].0 == oldout[j].0@);
                } else {
                    assert(out@[j] == item);
                    if i < oldout.len() {
                        assert(out@[i] == oldout[i]);
                        assert(key_le(oldout[i].0@, prev[m as int].0@));
                    } else {
                        lemma_lex_cmp_bytes_basic(
                            vstd::utf8::encode_utf8(item.0@),
                            vstd::utf8::encode_utf8(item.0@),
                        );
                    }
                }
            }
        }
    }
    proof {
        assert(pairs_view(pairs@).to_multiset().len() == 0);
        assert(pairs_view(pairs@).to_multiset() =~= Multiset::<(Seq<char>, u32)>::empty());
    }
    *pairs = out;
    proof {
        assert(pairs_view(pairs@).to_multiset() =~= pairs_view(orig).to_multiset());
    }
}

/// Index of an entry whose key sorts no later than every key in `pairs`.
fn min_key_index(pairs: &Vec<(String, u32)>) -> (m: usize)
    requires
        pairs@.len() > 0,
    ensures
        m < pairs@.len(),
        forall|j: int| 0 <= j < pairs@.len() ==> key_le(pairs@[m as int].0@, pairs@[j].0@),
{
    let mut m: usize = 0;
    let mut i: usize = 1;
    proof {
        lemma_lex_cmp_bytes_basic(
            vstd::utf8::encode_utf8(pairs@[0].0@),
            vstd::utf8::encode_utf8(pairs@[0].0@),
        );
    }
    while i < pairs.len()
        invariant
            m < i <= pairs@.len(),
            forall|j: int| 0 <= j < i ==> key_le(pairs@[m as int].0@, pairs@[j].0@),
        decreases pairs@.len() - i,
    {
        let c = str_cmp(pairs[i].0.as_str(), pairs[m].0.as_str());
        if c < 0 {
            proof {
                let old_m = m as int;
                assert forall|j: int| 0 <= j < i + 1 implies key_le(
                    pairs@[i as int].0@,
                    pairs@[j].0@,
                ) by {
                    lemma_lex_cmp_bytes_basic(
                        vstd::utf8::encode_utf8(pairs@[i as int].0@),
                        vstd::utf8::encode_utf8(pairs@[i as int].0@),
                    );
                    if j < i {
                        lemma_lex_cmp_bytes_trans(
                            vstd::utf8::encode_utf8(pairs@[i as int].0@),
                            vstd::utf8::encode_utf8(pairs@[old_m].0@),
                            vstd::utf8::encode_utf8(pairs@[j].0@),
                        );
                    }
                }
            }
            m = i;
        } else {
            proof {
                lemma_lex_cmp_bytes_basic(
                    vstd::utf8::encode_utf8(pairs@[i as int].0@),
                    vstd::utf8::encode_utf8(pairs@[m as int].0@),
                );
            }
        }
        i = i + 1;
    }
    m
}

} // verus!
