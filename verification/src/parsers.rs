//! Scalar coercion, dotenv parsing and format detection.
//!
//! INI and dotenv sources carry raw strings; [`parse_scalar_value`] applies
//! the coercion rules: empty text stays a string, `true`/`false` (any case)
//! become booleans, `null`/`none`/`nil` (any case) become null, then an
//! integer parse and a floating-point-literal check are tried, and anything
//! else stays a string. Every rule is stated as a spec function and the
//! executable code is proved to follow it exactly.

use vstd::prelude::*;
use vstd::string::StrSliceExecFns;
use vstd::string::StringExecFns;
use crate::value::{FlatValue, ValueNode, NodeView};
use crate::reader::{first_at, split_on, lemma_first_at, split_char, all_digits, dec_val,
    strs_view};
use crate::order::{sort_pairs, pairs_view, pairs_sorted};

verus! {

/// `c` is a decimal digit.
pub open spec fn is_digit(c: char) -> bool {
    '0' <= c <= '9'
}

/// `c` matches the lowercase letter `l`, ignoring ASCII case.
pub open spec fn ci_char(c: char, l: char) -> bool {
    c == l || ('A' <= c <= 'Z' && c as int + 32 == l as int)
}

/// `s` matches the lowercase ASCII literal `lit`, ignoring ASCII case.
pub open spec fn ci_match(s: Seq<char>, lit: Seq<char>) -> bool {
    s.len() == lit.len() && forall|i: int| 0 <= i < s.len() ==> ci_char(#[trigger] s[i], lit[i])
}

/// Case-insensitive (ASCII) comparison against a lowercase literal.
pub fn str_ci_eq(s: &str, lit: &str) -> (r: bool)
    ensures
        r == ci_match(s@, lit@),
{
    let n = s.unicode_len();
    let m = lit.unicode_len();
    if n != m {
        return false;
    }
    let mut i: usize = 0;
    while i < n
        invariant
            i <= n,
            n == s@.len() == lit@.len(),
            forall|k: int| 0 <= k < i ==> ci_char(#[trigger] s@[k], lit@[k]),
        decreases n - i,
    {
        let c = s.get_char(i);
        let l = lit.get_char(i);
        let cu = c as u32;
        let lu = l as u32;
        let ok = cu == lu || (c >= 'A' && c <= 'Z' && cu + 32 == lu);
        if !ok {
            proof {
                assert(c as int == cu as int && l as int == lu as int);
                assert(c != l);
                assert(!ci_char(s@[i as int], lit@[i as int]));
            }
            return false;
        }
        proof {
            assert(c as int == cu as int && l as int == lu as int);
            assert(ci_char(s@[i as int], lit@[i as int]));
        }
        i = i + 1;
    }
    true
}

/// The sign-stripped part of a numeric literal.
pub open spec fn strip_sign(s: Seq<char>) -> Seq<char> {
    if s.len() > 0 && (s[0] == '+' || s[0] == '-') {
        s.skip(1)
    } else {
        s
    }
}

/// Digits with an optional leading sign.
pub open spec fn signed_digits(s: Seq<char>) -> bool {
    all_digits(s) || (s.len() > 0 && (s[0] == '+' || s[0] == '-') && all_digits(s.skip(1)))
}

/// The signed value of an integer literal.
pub open spec fn int_val(s: Seq<char>) -> int {
    if s.len() > 0 && s[0] == '-' {
        -dec_val(s.skip(1))
    } else {
        dec_val(strip_sign(s))
    }
}

/// `s` is a decimal integer literal whose value fits a 64-bit signed word.
pub open spec fn int_literal(s: Seq<char>) -> bool {
    signed_digits(s) && -0x8000_0000_0000_0000 <= int_val(s) <= 0x7FFF_FFFF_FFFF_FFFF
}

/// The number of dots in `s`.
pub open spec fn dots_count(s: Seq<char>) -> int
    decreases s.len(),
{
    if s.len() == 0 {
        0
    } else {
        dots_count(s.drop_last()) + if s.last() == '.' {
            1int
        } else {
            0int
        }
    }
}

/// `s` has at least one digit.
pub open spec fn has_digit(s: Seq<char>) -> bool {
    exists|i: int| 0 <= i < s.len() && is_digit(#[trigger] s[i])
}

/// A float mantissa: non-empty, digits and at most one dot, at least one
/// digit.
pub open spec fn mantissa_ok(m: Seq<char>) -> bool {
    m.len() > 0 && (forall|i: int| 0 <= i < m.len() ==> is_digit(#[trigger] m[i]) || m[i] == '.')
        && dots_count(m) <= 1 && has_digit(m)
}

/// Position of the first exponent marker (`e` or `E`), or the length.
pub open spec fn first_exp(s: Seq<char>) -> nat
    decreases s.len(),
{
    if s.len() == 0 {
        0
    } else if s[0] == 'e' || s[0] == 'E' {
        0
    } else {
        1 + first_exp(s.skip(1))
    }
}

/// The sign-stripped text is a decimal float: a mantissa, optionally
/// followed by an exponent marker and signed digits.
pub open spec fn float_number(b: Seq<char>) -> bool {
    let e = first_exp(b) as int;
    if e >= b.len() {
        mantissa_ok(b)
    } else {
        mantissa_ok(b.take(e)) && signed_digits(b.skip(e + 1))
    }
}

/// `s` is a floating-point literal: an optional sign, then `inf`,
/// `infinity` or `nan` in any case, or a decimal number with an optional
/// exponent.
pub open spec fn float_literal(s: Seq<char>) -> bool {
    let b = strip_sign(s);
    ci_match(b, "inf"@) || ci_match(b, "infinity"@) || ci_match(b, "nan"@) || float_number(b)
}

/// `first_exp` is the scan result.
proof fn lemma_first_exp_at(s: Seq<char>, i: int)
    requires
        0 <= i <= s.len(),
        forall|k: int| 0 <= k < i ==> s[k] != 'e' && s[k] != 'E',
        i < s.len() ==> s[i] == 'e' || s[i] == 'E',
    ensures
        first_exp(s) == i,
    decreases i,
{
    if i > 0 {
        let t = s.skip(1);
        assert forall|k: int| 0 <= k < i - 1 implies t[k] != 'e' && t[k] != 'E' by {
            assert(t[k] == s[k + 1]);
        }
        assert(i - 1 < t.len() ==> t[i - 1] == s[i]);
        lemma_first_exp_at(t, i - 1);
    }
}

/// Parse a 64-bit signed decimal literal. `None` exactly on text that is
/// not such a literal, value overflow included.
#[verifier::rlimit(100)]
pub fn parse_i64(s: &str) -> (r: Option<i64>)
    ensures
        r is Some <==> int_literal(s@),
        r matches Some(v) ==> v as int == int_val(s@),
{
    let n = s.unicode_len();
    if n == 0 {
        return Option::None;
    }
    let c0 = s.get_char(0);
    let neg = c0 == '-';
    let start: usize = if c0 == '-' || c0 == '+' {
        1
    } else {
        0
    };
    if start >= n {
        proof {
            assert(!all_digits(s@));
            assert(!all_digits(s@.skip(1)));
        }
        return Option::None;
    }
    let ghost ds = if start == 1 {
        s@.skip(1)
    } else {
        s@
    };
    let mut mag: u64 = 0;
    let mut big: bool = false;
    let mut i: usize = start;
    proof {
        assert(ds.take(0) =~= Seq::<char>::empty());
    }
    while i < n
        invariant
            start <= i <= n,
            n == s@.len(),
            start == 0 || start == 1,
            start == 1 ==> (s@[0] == '-' || s@[0] == '+'),
            start == 0 ==> (s@[0] != '-' && s@[0] != '+'),
            start == 0 ==> ds == s@,
            start == 1 ==> ds == s@.skip(1),
            ds.len() == n - start,
            forall|k: int| 0 <= k < ds.len() ==> ds[k] == s@[k + start],
            forall|k: int| 0 <= k < i - start ==> is_digit(#[trigger] ds[k]),
            dec_val(ds.take(i - start)) >= 0,
            !big ==> mag as int == dec_val(ds.take(i - start)) && mag
                <= 0x8000_0000_0000_0000u64,
            big ==> dec_val(ds.take(i - start)) > 0x8000_0000_0000_0000,
        decreases n - i,
    {
        let c = s.get_char(i);
        if c < '0' || c > '9' {
            proof {
                assert(ds[i - start] == s@[i as int]);
                assert(!all_digits(ds));
                if start == 1 {
                    assert(!is_digit(s@[0]));
                    assert(!all_digits(s@));
                }
                assert(!signed_digits(s@));
                assert(!int_literal(s@));
            }
            return Option::None;
        }
        let d = (c as u32 - 48) as u64;
        let ghost pre = ds.take(i - start);
        proof {
            assert(ds.take(i + 1 - start).drop_last() =~= pre);
            assert(ds.take(i + 1 - start).last() == ds[i - start]);
            assert(ds[i - start] == s@[i as int]);
            vstd::utf8::char_u32_cast(c, c as u32);
            assert(dec_val(ds.take(i + 1 - start)) == dec_val(pre) * 10 + (c as int - '0' as int));
        }
        if big {
            proof {
                assert(dec_val(pre) * 10 >= dec_val(pre)) by (nonlinear_arith)
                    requires
                        dec_val(pre) >= 0,
                ;
            }
        } else if mag > (0x8000_0000_0000_0000u64 - d) / 10 {
            proof {
                let cbound: int = 0x8000_0000_0000_0000;
                assert(10 * ((cbound - d) / 10) >= cbound - d - 9);
                assert(mag as int * 10 >= ((cbound - d) / 10) * 10 + 10) by (nonlinear_arith)
                    requires
                        mag as int >= (cbound - d) / 10 + 1,
                ;
                assert(dec_val(ds.take(i + 1 - start)) > cbound);
            }
            big = true;
        } else {
            proof {
                let cbound: int = 0x8000_0000_0000_0000;
                assert(mag as int * 10 + d <= cbound) by (nonlinear_arith)
                    requires
                        mag as int <= (cbound - d) / 10,
                        0 <= d <= 9,
                        10 * ((cbound - d) / 10) <= cbound - d,
                ;
            }
            mag = mag * 10 + d;
        }
        i = i + 1;
    }
    proof {
        assert(ds.take(n - start) =~= ds);
        assert(all_digits(ds));
        assert(signed_digits(s@));
        if start == 1 {
            assert(strip_sign(s@) =~= ds);
        } else {
            assert(strip_sign(s@) =~= ds);
        }
        if neg {
            assert(int_val(s@) == -dec_val(ds));
        } else {
            assert(int_val(s@) == dec_val(ds));
        }
    }
    if big {
        proof {
            if neg {
                assert(int_val(s@) < -0x8000_0000_0000_0000);
            } else {
                assert(int_val(s@) > 0x7FFF_FFFF_FFFF_FFFF);
            }
            assert(!int_literal(s@));
        }
        return Option::None;
    }
    if mag == 0x8000_0000_0000_0000u64 {
        if neg {
            proof {
                assert(int_val(s@) == -0x8000_0000_0000_0000);
                assert(int_literal(s@));
            }
            return Option::Some(-0x7FFF_FFFF_FFFF_FFFFi64 - 1);
        }
        proof {
            assert(int_val(s@) == 0x8000_0000_0000_0000);
            assert(!int_literal(s@));
        }
        return Option::None;
    }
    proof {
        assert(int_literal(s@));
    }
    if neg {
        Option::Some(-(mag as i64))
    } else {
        Option::Some(mag as i64)
    }
}

/// Whether `s` is a floating-point literal (value not computed: verified
/// code carries float text, never float values).
#[verifier::rlimit(100)]
pub fn is_float_literal(s: &str) -> (r: bool)
    ensures
        r == float_literal(s@),
{
    let n = s.unicode_len();
    if n == 0 {
        proof {
            reveal_strlit("inf");
            reveal_strlit("infinity");
            reveal_strlit("nan");
            assert(!ci_match(s@, "inf"@));
            assert(!ci_match(s@, "infinity"@));
            assert(!ci_match(s@, "nan"@));
            assert(!mantissa_ok(s@.take(first_exp(s@) as int)));
            assert(!mantissa_ok(s@));
        }
        return false;
    }
    let c0 = s.get_char(0);
    let start: usize = if c0 == '-' || c0 == '+' {
        1
    } else {
        0
    };
    let b = s.substring_char(start, n);
    proof {
        assert(b@ =~= strip_sign(s@));
    }
    if str_ci_eq(b, "inf") || str_ci_eq(b, "infinity") || str_ci_eq(b, "nan") {
        return true;
    }
    let m = b.unicode_len();
    if m == 0 {
        proof {
            assert(!mantissa_ok(b@.take(first_exp(b@) as int)));
            assert(!mantissa_ok(b@));
        }
        return false;
    }
    // find the exponent marker
    let mut e: usize = 0;
    let mut found: bool = false;
    while !found && e < m
        invariant
            e <= m,
            m == b@.len(),
            forall|k: int| 0 <= k < e ==> b@[k] != 'e' && b@[k] != 'E',
            found ==> e < m && (b@[e as int] == 'e' || b@[e as int] == 'E'),
        decreases m - e + (if found { 0int } else { 1int }),
    {
        let c = b.get_char(e);
        if c == 'e' || c == 'E' {
            found = true;
        } else {
            e = e + 1;
        }
    }
    proof {
        lemma_first_exp_at(b@, e as int);
    }
    // mantissa: b[0..e]
    if e == 0 {
        proof {
            assert(!mantissa_ok(b@.take(0)));
        }
        return false;
    }
    let mut dots: usize = 0;
    let mut digit_seen: bool = false;
    let mut i: usize = 0;
    proof {
        assert(b@.take(0) =~= Seq::<char>::empty());
    }
    while i < e
        invariant
            i <= e <= m,
            m == b@.len(),
            b@ == strip_sign(s@),
            !ci_match(b@, "inf"@),
            !ci_match(b@, "infinity"@),
            !ci_match(b@, "nan"@),
            e as int == first_exp(b@),
            dots <= i,
            dots as int == dots_count(b@.take(i as int)),
            digit_seen == has_digit(b@.take(i as int)),
            forall|k: int| 0 <= k < i ==> is_digit(#[trigger] b@[k]) || b@[k] == '.',
        decreases e - i,
    {
        let c = b.get_char(i);
        proof {
            assert(b@.take(i + 1).drop_last() =~= b@.take(i as int));
            assert(b@.take(i + 1).last() == b@[i as int]);
            if is_digit(b@[i as int]) {
                assert(b@.take(i + 1)[i as int] == b@[i as int]);
                assert(has_digit(b@.take(i + 1)));
            } else {
                if has_digit(b@.take(i as int)) {
                    let k = choose|k: int|
                        0 <= k < i && is_digit(#[trigger] b@.take(i as int)[k]);
                    assert(b@.take(i + 1)[k] == b@.take(i as int)[k]);
                    assert(has_digit(b@.take(i + 1)));
                }
                if has_digit(b@.take(i + 1)) {
                    let k = choose|k: int|
                        0 <= k < i + 1 && is_digit(#[trigger] b@.take(i + 1)[k]);
                    assert(b@.take(i + 1)[k] == b@[k]);
                    if k < i {
                        assert(b@.take(i as int)[k] == b@[k]);
                        assert(has_digit(b@.take(i as int)));
                    }
                }
                assert(has_digit(b@.take(i + 1)) == has_digit(b@.take(i as int)));
            }
        }
        if c >= '0' && c <= '9' {
            digit_seen = true;
        } else if c == '.' {
            dots = dots + 1;
        } else {
            proof {
                assert(b@.take(e as int)[i as int] == b@[i as int]);
                assert(!mantissa_ok(b@.take(e as int)));
                if e as int >= b@.len() {
                    assert(b@.take(e as int) =~= b@);
                    assert(!mantissa_ok(b@));
                }
                assert(!float_number(b@));
                assert(!float_literal(s@));
            }
            return false;
        }
        i = i + 1;
    }
    let mant_ok = dots <= 1 && digit_seen;
    proof {
        let mant = b@.take(e as int);
        if first_exp(b@) >= b@.len() {
            assert(mant =~= b@);
        }
        assert(mant_ok == mantissa_ok(mant));
    }
    if !mant_ok {
        proof {
            assert(!float_number(b@));
        }
        return false;
    }
    if e == m {
        proof {
            assert(b@.take(e as int) =~= b@);
            assert(float_number(b@));
        }
        return true;
    }
    // exponent: b[e+1..m] must be signed digits
    let x = b.substring_char(e + 1, m);
    proof {
        assert(x@ =~= b@.skip(e + 1));
    }
    let xn = x.unicode_len();
    if xn == 0 {
        proof {
            assert(!all_digits(x@));
            assert(!signed_digits(x@));
            assert(!float_number(b@));
        }
        return false;
    }
    let xc0 = x.get_char(0);
    let xs: usize = if xc0 == '-' || xc0 == '+' {
        1
    } else {
        0
    };
    if xs >= xn {
        proof {
            assert(!is_digit(x@[0]));
            assert(!all_digits(x@));
            assert(!all_digits(x@.skip(1)));
            assert(!float_number(b@));
        }
        return false;
    }
    let mut k: usize = xs;
    while k < xn
        invariant
            xs <= k <= xn,
            xn == x@.len(),
            x@ == b@.skip(e + 1),
            b@ == strip_sign(s@),
            !ci_match(b@, "inf"@),
            !ci_match(b@, "infinity"@),
            !ci_match(b@, "nan"@),
            e as int == first_exp(b@),
            e < m == b@.len(),
            mantissa_ok(b@.take(e as int)),
            xs == 0 || xs == 1,
            xs == 1 ==> (x@[0] == '-' || x@[0] == '+'),
            xs == 0 ==> (x@[0] != '-' && x@[0] != '+'),
            forall|j: int| xs <= j < k ==> is_digit(#[trigger] x@[j]),
        decreases xn - k,
    {
        let c = x.get_char(k);
        if c < '0' || c > '9' {
            proof {
                if xs == 1 {
                    assert(x@.skip(1)[k - 1] == x@[k as int]);
                    assert(!is_digit(x@[0]));
                    assert(!all_digits(x@.skip(1)));
                }
                assert(!all_digits(x@));
                assert(!signed_digits(x@));
                assert(!float_number(b@));
            }
            return false;
        }
        k = k + 1;
    }
    proof {
        if xs == 1 {
            assert forall|j: int| 0 <= j < x@.skip(1).len() implies is_digit(
                #[trigger] x@.skip(1)[j],
            ) by {
                assert(x@.skip(1)[j] == x@[j + 1]);
            }
            assert(all_digits(x@.skip(1)));
        } else {
            assert(all_digits(x@));
        }
        assert(signed_digits(b@.skip(e + 1)));
        assert(float_number(b@));
    }
    true
}

/// The node a raw scalar string coerces to: empty text is a string,
/// `true`/`false` (any ASCII case) a boolean, `null`/`none`/`nil` (any
/// ASCII case) null, then a 64-bit integer literal, then a float literal
/// kept as its text, else a string.
pub open spec fn scalar_node(s: Seq<char>) -> NodeView {
    if s.len() == 0 {
        NodeView::Str(s)
    } else if ci_match(s, "true"@) {
        NodeView::Bool(true)
    } else if ci_match(s, "false"@) {
        NodeView::Bool(false)
    } else if ci_match(s, "null"@) || ci_match(s, "none"@) || ci_match(s, "nil"@) {
        NodeView::Null
    } else if int_literal(s) {
        NodeView::Int(int_val(s) as i64)
    } else if float_literal(s) {
        NodeView::Float(s)
    } else {
        NodeView::Str(s)
    }
}

/// Append the node `value` coerces to and return its index.
pub fn parse_scalar_value(flat: &mut FlatValue, value: &str) -> (idx: u32)
    requires
        old(flat)@.nodes.len() < u32::MAX,
    ensures
        idx == old(flat)@.nodes.len(),
        final(flat)@.nodes == old(flat)@.nodes.push(scalar_node(value@)),
        final(flat)@.root == old(flat)@.root,
{
    if value.is_empty() {
        let empty = String::new();
        proof {
            assert(value@ =~= empty@);
        }
        let idx = flat.add_node(ValueNode::String(empty));
        proof {
            assert(scalar_node(value@) == NodeView::Str(value@));
        }
        return idx;
    }
    if str_ci_eq(value, "true") {
        return flat.add_node(ValueNode::Bool(true));
    }
    if str_ci_eq(value, "false") {
        return flat.add_node(ValueNode::Bool(false));
    }
    if str_ci_eq(value, "null") || str_ci_eq(value, "none") || str_ci_eq(value, "nil") {
        return flat.add_node(ValueNode::Null);
    }
    match parse_i64(value) {
        Option::Some(v) => {
            proof {
                assert(scalar_node(value@) == NodeView::Int(int_val(value@) as i64));
                assert(v == int_val(value@) as i64);
            }
            return flat.add_node(ValueNode::Int(v));
        },
        Option::None => {},
    }
    if is_float_literal(value) {
        return flat.add_node(ValueNode::Float(value.to_owned()));
    }
    flat.add_node(ValueNode::String(value.to_owned()))
}


/// Whitespace trimmed from dotenv lines, keys and values: the characters
/// with the Unicode White_Space property, as `str::trim` removes.
pub open spec fn ws(c: char) -> bool {
    c == ' ' || c == '\t' || c == '\n' || c == '\u{B}' || c == '\u{C}' || c == '\r'
        || c == '\u{85}' || c == '\u{A0}' || c == '\u{1680}' || ('\u{2000}' <= c
        && c <= '\u{200A}') || c == '\u{2028}' || c == '\u{2029}' || c == '\u{202F}'
        || c == '\u{205F}' || c == '\u{3000}'
}

/// Whether `c` is trimmed whitespace.
pub fn is_ws(c: char) -> (r: bool)
    ensures
        r == ws(c),
{
    c == ' ' || c == '\t' || c == '\n' || c == '\u{B}' || c == '\u{C}' || c == '\r'
        || c == '\u{85}' || c == '\u{A0}' || c == '\u{1680}' || (c >= '\u{2000}'
        && c <= '\u{200A}') || c == '\u{2028}' || c == '\u{2029}' || c == '\u{202F}'
        || c == '\u{205F}' || c == '\u{3000}'
}

/// Leading whitespace removed.
pub open spec fn ltrim(s: Seq<char>) -> Seq<char>
    decreases s.len(),
{
    if s.len() > 0 && ws(s[0]) {
        ltrim(s.skip(1))
    } else {
        s
    }
}

/// Trailing whitespace removed.
pub open spec fn rtrim(s: Seq<char>) -> Seq<char>
    decreases s.len(),
{
    if s.len() > 0 && ws(s.last()) {
        rtrim(s.drop_last())
    } else {
        s
    }
}

/// Leading and trailing whitespace removed.
pub open spec fn trim_spec(s: Seq<char>) -> Seq<char> {
    rtrim(ltrim(s))
}

/// `ltrim` drops exactly the scanned whitespace prefix.
proof fn lemma_ltrim_at(s: Seq<char>, i: int)
    requires
        0 <= i <= s.len(),
        forall|k: int| 0 <= k < i ==> ws(#[trigger] s[k]),
        i < s.len() ==> !ws(s[i]),
    ensures
        ltrim(s) == s.skip(i),
    decreases i,
{
    if i == 0 {
        assert(s.skip(0) =~= s);
    } else {
        let t = s.skip(1);
        assert forall|k: int| 0 <= k < i - 1 implies ws(#[trigger] t[k]) by {
            assert(t[k] == s[k + 1]);
        }
        assert(i - 1 < t.len() ==> t[i - 1] == s[i]);
        lemma_ltrim_at(t, i - 1);
        assert(t.skip(i - 1) =~= s.skip(i));
    }
}

/// `rtrim` drops exactly the scanned whitespace suffix.
proof fn lemma_rtrim_at(s: Seq<char>, j: int)
    requires
        0 <= j <= s.len(),
        forall|k: int| j <= k < s.len() ==> ws(#[trigger] s[k]),
        j > 0 ==> !ws(s[j - 1]),
    ensures
        rtrim(s) == s.take(j),
    decreases s.len(),
{
    if s.len() == 0 {
        assert(s.take(0) =~= s);
    } else if j == s.len() {
        if j > 0 && !ws(s.last()) {
            assert(s.take(j) =~= s);
        } else {
            let t = s.drop_last();
            assert forall|k: int| j - 1 <= k < t.len() implies ws(#[trigger] t[k]) by {
                assert(t[k] == s[k]);
            }
            lemma_rtrim_at(t, j - 1);
            assert(false);
        }
    } else {
        assert(ws(s.last()));
        let t = s.drop_last();
        assert forall|k: int| j <= k < t.len() implies ws(#[trigger] t[k]) by {
            assert(t[k] == s[k]);
        }
        assert(j > 0 ==> t[j - 1] == s[j - 1]);
        lemma_rtrim_at(t, j);
        assert(t.take(j) =~= s.take(j));
    }
}

/// Strip surrounding whitespace.
pub fn trim_str(s: &str) -> (r: String)
    ensures
        r@ == trim_spec(s@),
{
    let n = s.unicode_len();
    let mut lo: usize = 0;
    let mut lo_done: bool = false;
    while !lo_done && lo < n
        invariant
            lo <= n,
            n == s@.len(),
            forall|k: int| 0 <= k < lo ==> ws(#[trigger] s@[k]),
            lo_done ==> lo < n && !ws(s@[lo as int]),
        decreases n - lo + (if lo_done { 0int } else { 1int }),
    {
        let c = s.get_char(lo);
        if is_ws(c) {
            lo = lo + 1;
        } else {
            lo_done = true;
        }
    }
    let mut hi: usize = n;
    let mut hi_done: bool = false;
    while !hi_done && hi > lo
        invariant
            lo <= hi <= n,
            n == s@.len(),
            forall|k: int| 0 <= k < lo ==> ws(#[trigger] s@[k]),
            forall|k: int| hi <= k < n ==> ws(#[trigger] s@[k]),
            hi_done ==> hi > lo && !ws(s@[hi - 1]),
        decreases hi + (if hi_done { 0int } else { 1int }),
    {
        let c = s.get_char(hi - 1);
        if is_ws(c) {
            hi = hi - 1;
        } else {
            hi_done = true;
        }
    }
    let r = s.substring_char(lo, hi).to_owned();
    proof {
        lemma_ltrim_at(s@, lo as int);
        let t = s@.skip(lo as int);
        assert forall|k: int| hi - lo <= k < t.len() implies ws(#[trigger] t[k]) by {
            assert(t[k] == s@[k + lo]);
        }
        assert(hi - lo > 0 ==> t[hi - lo - 1] == s@[hi - 1]);
        lemma_rtrim_at(t, hi - lo);
        assert(t.take(hi - lo) =~= s@.subrange(lo as int, hi as int));
    }
    r
}

/// What a dotenv line contributes: nothing for blank and comment lines and
/// lines without `=`; otherwise the trimmed key and the trimmed,
/// quote-stripped value. An `export ` prefix is dropped first.
pub open spec fn env_line_entry(line: Seq<char>) -> Option<(Seq<char>, Seq<char>)> {
    let t = trim_spec(line);
    if t.len() == 0 || t[0] == '#' {
        Option::None
    } else {
        let u = if t.len() >= 7 && t.take(7) == "export "@ {
            t.skip(7)
        } else {
            t
        };
        let e = first_at(u, '=') as int;
        if e >= u.len() {
            Option::None
        } else {
            let key = trim_spec(u.take(e));
            let rawv = trim_spec(u.skip(e + 1));
            let v = if rawv.len() >= 2 && ((rawv[0] == '"' && rawv.last() == '"') || (rawv[0]
                == '\'' && rawv.last() == '\'')) {
                rawv.subrange(1, rawv.len() - 1)
            } else {
                rawv
            };
            Option::Some((key, v))
        }
    }
}

/// The key-value entries of a sequence of lines, in order.
pub open spec fn env_entries(lines: Seq<Seq<char>>) -> Seq<(Seq<char>, Seq<char>)>
    decreases lines.len(),
{
    if lines.len() == 0 {
        Seq::empty()
    } else {
        (match env_line_entry(lines[0]) {
            Option::Some(e) => seq![e],
            Option::None => Seq::empty(),
        }) + env_entries(lines.skip(1))
    }
}

/// Entries of one more line: the prefix entries plus that line's entry.
proof fn lemma_env_entries_snoc(lines: Seq<Seq<char>>, i: int)
    requires
        0 <= i < lines.len(),
    ensures
        env_entries(lines.take(i + 1)) =~= env_entries(lines.take(i)) + match env_line_entry(
            lines[i],
        ) {
            Option::Some(e) => seq![e],
            Option::None => Seq::empty(),
        },
    decreases i,
{
    if i == 0 {
        assert(lines.take(0) =~= Seq::<Seq<char>>::empty());
        assert(lines.take(1)[0] == lines[0]);
        assert(lines.take(1).skip(1) =~= Seq::<Seq<char>>::empty());
    } else {
        let t = lines.skip(1);
        lemma_env_entries_snoc(t, i - 1);
        assert(t[i - 1] == lines[i]);
        assert(lines.take(i + 1)[0] == lines[0]);
        assert(lines.take(i + 1).skip(1) =~= t.take(i));
        assert(lines.take(i)[0] == lines[0]);
        assert(lines.take(i).skip(1) =~= t.take(i - 1));
    }
}

/// Splitting yields at most one segment more than the separators present.
proof fn lemma_split_on_len(s: Seq<char>, sep: char)
    ensures
        split_on(s, sep).len() <= s.len() + 1,
    decreases s.len(),
{
    let i = first_at(s, sep) as int;
    if i < s.len() {
        lemma_split_on_len(s.skip(i + 1), sep);
    }
}

/// The entries are never more numerous than the lines.
proof fn lemma_env_entries_len(lines: Seq<Seq<char>>)
    ensures
        env_entries(lines).len() <= lines.len(),
    decreases lines.len(),
{
    if lines.len() > 0 {
        lemma_env_entries_len(lines.skip(1));
    }
}

/// Parse dotenv-style text: one `KEY=value` per line, `#` comments and
/// blank lines skipped, an `export ` prefix allowed, surrounding quotes
/// stripped from values, and scalar coercion applied to each value.
///
/// The shape of a tree the dotenv adapter emits for this text: one scalar
/// node per entry in line order, then a sorted root object mapping each
/// key to its value's node; duplicate keys all kept, their order among
/// themselves open.
pub open spec fn env_tree_ok(content: Seq<char>, t: crate::value::TreeView) -> bool {
    let ents = env_entries(split_on(content, '\n'));
    &&& t.nodes.len() == ents.len() + 1
    &&& (forall|i: int|
        0 <= i < ents.len() ==> t.nodes[i] == scalar_node((#[trigger] ents[i]).1))
    &&& match t.nodes.last() {
        NodeView::Object(pairs) => pairs.to_multiset() =~= Seq::new(
            ents.len(),
            |i: int| (ents[i].0, i as u32),
        ).to_multiset(),
        _ => false,
    }
    &&& t.root == Option::Some((t.nodes.len() - 1) as u32)
}

/// The result is a well-formed tree satisfying [`env_tree_ok`]: one scalar
/// node per entry in line order, then a root object whose entries are
/// sorted ascending by raw key bytes and map each key to its value's node.
/// Duplicate keys are all kept; their order among themselves is
/// unspecified.
pub fn parse_env(content: &str) -> (r: FlatValue)
    requires
        content@.len() + 2 < 0xFFFF_FFFF,
    ensures
        r.wf(),
        0 < r@.nodes.len() < 0xFFFF_FFFF,
        r@.root == Option::Some((r@.nodes.len() - 1) as u32),
        env_tree_ok(content@, r@),
{
    broadcast use vstd::seq_lib::group_to_multiset_ensures;

    let lines = split_char(content, '\n');
    let ghost lv = strs_view(lines@);
    let ghost ents = env_entries(lv);
    proof {
        assert(lv =~= split_on(content@, '\n'));
        lemma_split_on_len(content@, '\n');
        lemma_env_entries_len(lv);
    }
    let mut flat = FlatValue::new();
    let mut pairs: Vec<(String, u32)> = Vec::new();
    let n = lines.len();
    let mut i: usize = 0;
    proof {
        assert(lv.take(0) =~= Seq::<Seq<char>>::empty());
    }
    while i < n
        invariant
            i <= n,
            n == lines@.len() == lv.len(),
            lv == strs_view(lines@),
            lv == split_on(content@, '\n'),
            ents == env_entries(lv),
            n <= content@.len() + 1,
            content@.len() + 2 < 0xFFFF_FFFF,
            forall|j: int| 0 <= j < n ==> (#[trigger] lines@[j])@ == lv[j],
            flat@.root is None,
            flat@.nodes.len() == pairs@.len(),
            pairs@.len() == env_entries(lv.take(i as int)).len(),
            pairs@.len() <= i,
            forall|k: int|
                0 <= k < pairs@.len() ==> flat@.nodes[k] == scalar_node(
                    (#[trigger] env_entries(lv.take(i as int))[k]).1,
                ),
            forall|k: int|
                0 <= k < pairs@.len() ==> (#[trigger] pairs_view(pairs@)[k]) == (
                    env_entries(lv.take(i as int))[k].0,
                    k as u32,
                ),
        decreases n - i,
    {
        let ghost pre_ents = env_entries(lv.take(i as int));
        proof {
            lemma_env_entries_snoc(lv, i as int);
            assert(lines@[i as int]@ == lv[i as int]);
        }
        let line = &lines[i];
        let t = trim_str(line.as_str());
        let tn = t.as_str().unicode_len();
        if tn == 0 || t.as_str().get_char(0) == '#' {
            proof {
                assert(env_line_entry(lv[i as int]) is None);
                assert(env_entries(lv.take(i + 1)) =~= pre_ents);
            }
            i = i + 1;
            continue ;
        }
        // strip an `export ` prefix
        let has_export = tn >= 7 && t.as_str().get_char(0) == 'e' && t.as_str().get_char(1) == 'x'
            && t.as_str().get_char(2) == 'p' && t.as_str().get_char(3) == 'o'
            && t.as_str().get_char(4) == 'r' && t.as_str().get_char(5) == 't'
            && t.as_str().get_char(6) == ' ';
        proof {
            reveal_strlit("export ");
            assert("export "@.len() == 7);
            if has_export {
                assert(t@.take(7) =~= "export "@);
            } else if t@.len() >= 7 {
                if t@.take(7) == "export "@ {
                    assert(t@.take(7)[0] == 'e' && t@.take(7)[1] == 'x' && t@.take(7)[2] == 'p'
                        && t@.take(7)[3] == 'o' && t@.take(7)[4] == 'r' && t@.take(7)[5] == 't'
                        && t@.take(7)[6] == ' ');
                    assert(false);
                }
            }
        }
        let u: String = if has_export {
            let su = t.as_str().substring_char(7, tn).to_owned();
            proof {
                assert(su@ =~= t@.skip(7));
            }
            su
        } else {
            t
        };
        let un = u.as_str().unicode_len();
        // find `=`
        let mut e: usize = 0;
        let mut found: bool = false;
        while !found && e < un
            invariant
                e <= un,
                un == u@.len(),
                forall|k: int| 0 <= k < e ==> u@[k] != '=',
                found ==> e < un && u@[e as int] == '=',
            decreases un - e + (if found { 0int } else { 1int }),
        {
            if u.as_str().get_char(e) == '=' {
                found = true;
            } else {
                e = e + 1;
            }
        }
        proof {
            lemma_first_at(u@, '=', e as int);
        }
        if !found {
            proof {
                assert(env_line_entry(lv[i as int]) is None);
                assert(env_entries(lv.take(i + 1)) =~= pre_ents);
            }
            i = i + 1;
            continue ;
        }
        let key = trim_str(u.as_str().substring_char(0, e));
        let rawv = trim_str(u.as_str().substring_char(e + 1, un));
        proof {
            assert(u@.subrange(0, e as int) =~= u@.take(e as int));
            assert(u@.subrange(e + 1, un as int) =~= u@.skip(e + 1));
        }
        let rn = rawv.as_str().unicode_len();
        let quoted = rn >= 2 && {
            let c0 = rawv.as_str().get_char(0);
            let cl = rawv.as_str().get_char(rn - 1);
            (c0 == '"' && cl == '"') || (c0 == '\'' && cl == '\'')
        };
        let v: String = if quoted {
            let sv = rawv.as_str().substring_char(1, rn - 1).to_owned();
            proof {
                assert(sv@ =~= rawv@.subrange(1, rawv@.len() - 1));
            }
            sv
        } else {
            rawv
        };
        let ghost entry = (key@, v@);
        proof {
            assert(env_line_entry(lv[i as int]) == Option::Some(entry));
            assert(env_entries(lv.take(i + 1)) =~= pre_ents + seq![entry]);
            lemma_env_entries_len(lv.take(i as int));
            assert(flat@.nodes.len() < 0xFFFF_FFFF);
        }
        let ghost pre_nodes = flat@.nodes;
        let ghost pre_pairs = pairs@;
        let idx = parse_scalar_value(&mut flat, v.as_str());
        pairs.push((key, idx));
        proof {
            let new_ents = env_entries(lv.take(i + 1));
            assert(new_ents == pre_ents + seq![entry]);
            assert(new_ents.len() == pre_ents.len() + 1);
            assert(flat@.nodes == pre_nodes.push(scalar_node(v@)));
            assert forall|k: int| 0 <= k < pairs@.len() implies flat@.nodes[k] == scalar_node(
                (#[trigger] new_ents[k]).1,
            ) by {
                if k < pairs@.len() - 1 {
                    assert(new_ents[k] == pre_ents[k]);
                    assert(flat@.nodes[k] == pre_nodes[k]);
                    assert(pre_nodes[k] == scalar_node(pre_ents[k].1));
                } else {
                    assert(new_ents[k] == entry);
                    assert(flat@.nodes[k] == scalar_node(v@));
                }
            }
            assert forall|k: int| 0 <= k < pairs@.len() implies (#[trigger] pairs_view(pairs@)[k])
                == (new_ents[k].0, k as u32) by {
                assert(pairs_view(pairs@)[k] == (pairs@[k].0@, pairs@[k].1));
                if k < pairs@.len() - 1 {
                    assert(pairs@[k] == pre_pairs[k]);
                    assert(pairs_view(pre_pairs)[k] == (pre_pairs[k].0@, pre_pairs[k].1));
                    assert(pairs_view(pre_pairs)[k] == (pre_ents[k].0, k as u32));
                    assert(new_ents[k] == pre_ents[k]);
                } else {
                    assert(pairs@[k] == (key, idx));
                    assert(new_ents[k] == entry);
                }
            }
        }
        i = i + 1;
    }
    proof {
        assert(lv.take(n as int) =~= lv);
    }
    let ghost presort = pairs@;
    sort_pairs(&mut pairs);
    proof {
        assert(flat@.nodes.len() < 0xFFFF_FFFF);
        // every sorted pair is one of the built pairs
        assert(pairs@.to_multiset() == presort.to_multiset());
    }
    let root = flat.add_node(ValueNode::Object(pairs));
    flat.set_root(root);
    proof {
        let nodes = flat@.nodes;
        assert(nodes.last() == NodeView::Object(pairs_view(pairs@)));
        // references: each entry's value index is below the root
        assert forall|j: int|
            0 <= j < pairs_view(pairs@).len() implies ((#[trigger] pairs_view(pairs@)[j]).1 as int)
            < nodes.len() - 1 by {
            assert(pairs@.to_multiset().count(pairs@[j]) > 0) by {
                assert(pairs@.contains(pairs@[j]));
            }
            assert(presort.to_multiset().count(pairs@[j]) > 0);
            assert(presort.contains(pairs@[j]));
            let k = choose|k: int| 0 <= k < presort.len() && presort[k] == pairs@[j];
            assert(pairs_view(presort)[k] == (env_entries(lv)[k].0, k as u32));
            assert(pairs_view(pairs@)[j] == (pairs@[j].0@, pairs@[j].1));
        }
        assert(crate::value::nodes_refs_ok(nodes)) by {
            assert forall|ii: int| 0 <= ii < nodes.len() implies crate::value::node_refs_ok(
                #[trigger] nodes[ii],
                ii,
            ) by {
                if ii < nodes.len() - 1 {
                    assert(nodes[ii] == scalar_node(env_entries(lv)[ii].1));
                    assert(crate::value::node_refs_ok(nodes[ii], ii)) by {
                        match scalar_node(env_entries(lv)[ii].1) {
                            NodeView::Array(els) => {
                                assert(false);
                            },
                            NodeView::Object(ps) => {
                                assert(false);
                            },
                            _ => {},
                        }
                    }
                }
            }
        }
        assert(crate::value::objects_sorted(nodes)) by {
            assert forall|ii: int| 0 <= ii < nodes.len() implies match #[trigger] nodes[ii] {
                NodeView::Object(ps) => pairs_sorted(ps),
                _ => true,
            } by {
                if ii < nodes.len() - 1 {
                    match scalar_node(env_entries(lv)[ii].1) {
                        NodeView::Object(ps) => {
                            assert(false);
                        },
                        _ => {},
                    }
                }
            }
        }
        // the multiset of entries is as promised
        let ents2 = env_entries(lv);
        assert(pairs_view(presort) =~= Seq::new(ents2.len(), |k: int| (ents2[k].0, k as u32)));
        assert(pairs_view(pairs@).to_multiset() == pairs_view(presort).to_multiset());
    }
    flat
}

/// The source formats the library can ingest.
#[derive(Debug, Clone, Copy, PartialEq, Eq, Structural)]
pub enum Format {
    Json,
    Yaml,
    Toml,
    Ini,
    Env,
}

/// `s` ends with the lowercase ASCII suffix `suf`, ignoring ASCII case.
pub open spec fn ends_with_ci(s: Seq<char>, suf: Seq<char>) -> bool {
    s.len() >= suf.len() && ci_match(s.skip(s.len() - suf.len()), suf)
}

/// `s` contains the lowercase ASCII text `pat`, ignoring ASCII case.
pub open spec fn contains_ci(s: Seq<char>, pat: Seq<char>) -> bool {
    exists|i: int| 0 <= i <= s.len() - pat.len() && ci_match(#[trigger] s.subrange(i, i + pat.len()), pat)
}

/// The format a path's suffix names: `.json`, `.yaml`/`.yml`, `.toml`,
/// `.ini`/`.cfg`/`.conf`, or `.env` (also any segment containing `.env.`),
/// matched case-insensitively; `None` otherwise.
pub open spec fn spec_format_of(s: Seq<char>) -> Option<Format> {
    if ends_with_ci(s, ".json"@) {
        Option::Some(Format::Json)
    } else if ends_with_ci(s, ".yaml"@) || ends_with_ci(s, ".yml"@) {
        Option::Some(Format::Yaml)
    } else if ends_with_ci(s, ".toml"@) {
        Option::Some(Format::Toml)
    } else if ends_with_ci(s, ".ini"@) || ends_with_ci(s, ".cfg"@) || ends_with_ci(s, ".conf"@) {
        Option::Some(Format::Ini)
    } else if ends_with_ci(s, ".env"@) || contains_ci(s, ".env."@) {
        Option::Some(Format::Env)
    } else {
        Option::None
    }
}

/// Suffix check, ignoring ASCII case.
pub fn str_ends_with_ci(s: &str, suf: &str) -> (r: bool)
    ensures
        r == ends_with_ci(s@, suf@),
{
    let n = s.unicode_len();
    let m = suf.unicode_len();
    if n < m {
        return false;
    }
    let tail = s.substring_char(n - m, n);
    proof {
        assert(tail@ =~= s@.skip(s@.len() - suf@.len()));
    }
    str_ci_eq(tail, suf)
}

/// Substring check, ignoring ASCII case.
pub fn str_contains_ci(s: &str, pat: &str) -> (r: bool)
    ensures
        r == contains_ci(s@, pat@),
{
    let n = s.unicode_len();
    let m = pat.unicode_len();
    if n < m {
        proof {
            assert forall|i: int| 0 <= i <= s@.len() - pat@.len() implies !ci_match(
                #[trigger] s@.subrange(i, i + pat@.len()),
                pat@,
            ) by {
                assert(false);
            }
        }
        return false;
    }
    let mut i: usize = 0;
    while i <= n - m
        invariant
            m <= n,
            n == s@.len(),
            m == pat@.len(),
            i <= n - m + 1,
            forall|k: int| 0 <= k < i ==> !ci_match(#[trigger] s@.subrange(k, k + pat@.len()), pat@),
        decreases n - m - i + 1,
    {
        let window = s.substring_char(i, i + m);
        proof {
            assert(window@ =~= s@.subrange(i as int, i + pat@.len()));
        }
        if str_ci_eq(window, pat) {
            return true;
        }
        i = i + 1;
    }
    false
}

impl Format {
    /// Detect a format from a file path by its suffix, ignoring ASCII
    /// case; unrecognized suffixes yield `None`.
    pub fn from_path(path: &str) -> (r: Option<Format>)
        ensures
            r == spec_format_of(path@),
    {
        if str_ends_with_ci(path, ".json") {
            Option::Some(Format::Json)
        } else if str_ends_with_ci(path, ".yaml") || str_ends_with_ci(path, ".yml") {
            Option::Some(Format::Yaml)
        } else if str_ends_with_ci(path, ".toml") {
            Option::Some(Format::Toml)
        } else if str_ends_with_ci(path, ".ini") || str_ends_with_ci(path, ".cfg")
            || str_ends_with_ci(path, ".conf") {
            Option::Some(Format::Ini)
        } else if str_ends_with_ci(path, ".env") || str_contains_ci(path, ".env.") {
            Option::Some(Format::Env)
        } else {
            Option::None
        }
    }
}

} // verus!
