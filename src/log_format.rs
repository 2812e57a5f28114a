//! Writing records back as log lines, such that reading them again gives
//! the same records.
use vstd::arithmetic::div_mod::lemma_fundamental_div_mod;
use vstd::prelude::*;

use vstd::utf8::*;

use vstd::string::StringExecFns;

use vstd::string::StringSliceAdditionalSpecFns;

use crate::cc_log::{build, lemma_build_error_stays, log_model, Addr, NodeType, WeakMapEntry};
use crate::log_line::{
    addr_at, count_at, dec_end, dec_value, has_at, hex_digit_value, hex_end, hex_value,
    is_dec_digit, is_hex_digit, label_from, line_model, lit_delegate, lit_edge, lit_garbage, lit_gc,
    lit_gc_marked, lit_incr_root, lit_key, lit_known, lit_known_end, lit_nil, lit_rc, lit_rc_end,
    lit_space, lit_value, lit_weak_map, weak_addr_at, addr_line_rest, LineModel, ParsedLine,
};

verus! {

broadcast use encode_utf8_valid_utf8, encode_utf8_decode_utf8;

/// The byte of hexadecimal digit `d`, in lower case.
pub open spec fn hex_byte(d: nat) -> u8 {
    if d < 10 {
        (48 + d) as u8
    } else {
        (87 + d) as u8
    }
}

/// `v` in hexadecimal, without leading zeros.
pub open spec fn hex_digits(v: nat) -> Seq<u8>
    decreases v,
{
    if v < 16 {
        seq![hex_byte(v)]
    } else {
        hex_digits(v / 16).push(hex_byte(v % 16))
    }
}

/// `v` in decimal, without leading zeros.
pub open spec fn dec_digits(v: nat) -> Seq<u8>
    decreases v,
{
    if v < 10 {
        seq![(48 + v) as u8]
    } else {
        dec_digits(v / 10).push((48 + v % 10) as u8)
    }
}

proof fn lemma_hex_digits(v: nat)
    ensures
        hex_digits(v).len() > 0,
        forall|i: int| 0 <= i < hex_digits(v).len() ==> #[trigger] is_hex_digit(hex_digits(v)[i]),
        hex_value(hex_digits(v)) == v,
    decreases v,
{
    if v < 16 {
        assert(hex_digits(v).drop_last() =~= Seq::<u8>::empty());
        assert(hex_digit_value(hex_byte(v)) == v);
        assert(hex_value(hex_digits(v)) == hex_value(hex_digits(v).drop_last()) * 16
            + hex_digit_value(hex_digits(v).last()));
    } else {
        lemma_hex_digits(v / 16);
        lemma_fundamental_div_mod(v as int, 16);
        let d = hex_digits(v);
        assert(d.drop_last() =~= hex_digits(v / 16));
        assert(hex_digit_value(hex_byte(v % 16)) == v % 16);
        assert(d.last() == hex_byte(v % 16));
        assert(hex_value(d) == hex_value(d.drop_last()) * 16 + hex_digit_value(d.last()));
        assert forall|i: int| 0 <= i < d.len() implies #[trigger] is_hex_digit(d[i]) by {
            if i < d.len() - 1 {
                assert(d[i] == hex_digits(v / 16)[i]);
            }
        }
    }
}

proof fn lemma_dec_digits(v: nat)
    ensures
        dec_digits(v).len() > 0,
        forall|i: int| 0 <= i < dec_digits(v).len() ==> #[trigger] is_dec_digit(dec_digits(v)[i]),
        dec_value(dec_digits(v)) == v,
    decreases v,
{
    if v < 10 {
        assert(dec_digits(v).drop_last() =~= Seq::<u8>::empty());
        assert(dec_value(dec_digits(v)) == dec_value(dec_digits(v).drop_last()) * 10 + (
        dec_digits(v).last() - 48) as nat);
    } else {
        lemma_dec_digits(v / 10);
        lemma_fundamental_div_mod(v as int, 10);
        let d = dec_digits(v);
        assert(d.drop_last() =~= dec_digits(v / 10));
        assert(d.last() == (48 + v % 10) as u8);
        assert(dec_value(d) == dec_value(d.drop_last()) * 10 + (d.last() - 48) as nat);
        assert forall|i: int| 0 <= i < d.len() implies #[trigger] is_dec_digit(d[i]) by {
            if i < d.len() - 1 {
                assert(d[i] == dec_digits(v / 10)[i]);
            }
        }
    }
}

/// An address as the log writes it: `0x` and lower-case hexadecimal digits.
pub open spec fn addr_bytes(a: Addr) -> Seq<u8> {
    seq![48u8, 120] + hex_digits(a as nat)
}

pub open spec fn separator_bytes() -> Seq<u8> {
    seq![61u8, 61, 61, 61, 61, 61, 61, 61, 61, 61]
}

/// The line that writes the record `m`.
pub open spec fn line_bytes(m: LineModel) -> Seq<u8> {
    match m {
        LineModel::Node(a, NodeType::GC(false), l) => addr_bytes(a) + lit_gc() + encode_utf8(l),
        LineModel::Node(a, NodeType::GC(true), l) => addr_bytes(a) + lit_gc_marked() + encode_utf8(l),
        LineModel::Node(a, NodeType::RefCounted(n), l) => addr_bytes(a) + lit_rc() + dec_digits(
            n as nat,
        ) + lit_rc_end() + encode_utf8(l),
        LineModel::Edge(a, l) => lit_edge() + addr_bytes(a) + lit_space() + encode_utf8(l),
        LineModel::WeakMap(w) => lit_weak_map() + addr_bytes(w.weak_map) + lit_key() + addr_bytes(
            w.key,
        ) + lit_delegate() + addr_bytes(w.key_delegate) + lit_value() + addr_bytes(w.value),
        LineModel::IncrRoot(a) => lit_incr_root() + addr_bytes(a),
        LineModel::Comment => seq![35u8],
        LineModel::Separator => separator_bytes(),
        LineModel::Garbage(a) => addr_bytes(a) + lit_garbage(),
        LineModel::KnownEdge(a, n) => addr_bytes(a) + lit_known() + dec_digits(n as nat)
            + lit_known_end(),
    }
}

/// A record that a line can write: its counts are not negative.
pub open spec fn writable(m: LineModel) -> bool {
    match m {
        LineModel::Node(_, NodeType::RefCounted(n), _) => n >= 0,
        LineModel::KnownEdge(_, n) => n >= 0,
        _ => true,
    }
}

proof fn lemma_hex_end_block(s: Seq<u8>, i: int, n: int)
    requires
        0 <= i,
        0 <= n,
        i + n <= s.len(),
        forall|k: int| i <= k < i + n ==> #[trigger] is_hex_digit(s[k]),
    ensures
        hex_end(s, i) == hex_end(s, i + n),
    decreases n,
{
    if n > 0 {
        lemma_hex_end_block(s, i + 1, n - 1);
    }
}

proof fn lemma_dec_end_block(s: Seq<u8>, i: int, n: int)
    requires
        0 <= i,
        0 <= n,
        i + n <= s.len(),
        forall|k: int| i <= k < i + n ==> #[trigger] is_dec_digit(s[k]),
    ensures
        dec_end(s, i) == dec_end(s, i + n),
    decreases n,
{
    if n > 0 {
        lemma_dec_end_block(s, i + 1, n - 1);
    }
}

/// An address written in a line is read back where what follows it is no
/// hexadecimal digit.
proof fn lemma_addr_in(pre: Seq<u8>, a: Addr, rest: Seq<u8>)
    requires
        rest.len() == 0 || !is_hex_digit(rest[0]),
    ensures
        addr_at(pre + addr_bytes(a) + rest, pre.len() as int) == Some(
            (a, (pre.len() + addr_bytes(a).len()) as int),
        ),
        addr_bytes(a).len() >= 3,
        addr_bytes(a)[0] == 48,
{
    let d = hex_digits(a as nat);
    lemma_hex_digits(a as nat);
    let s = pre + addr_bytes(a) + rest;
    let i = pre.len() as int;
    let n = d.len() as int;
    assert(s[i] == 48 && s[i + 1] == 120);
    assert forall|k: int| i + 2 <= k < i + 2 + n implies #[trigger] is_hex_digit(s[k]) by {
        assert(s[k] == d[k - i - 2]);
    }
    lemma_hex_end_block(s, i + 2, n);
    if rest.len() > 0 {
        assert(s[i + 2 + n] == rest[0]);
    }
    assert(hex_end(s, i + 2 + n) == i + 2 + n);
    assert(s.subrange(i + 2, i + 2 + n) =~= d);
}

/// A count written in a line is read back where what follows it is no
/// decimal digit.
proof fn lemma_count_in(pre: Seq<u8>, n: i32, rest: Seq<u8>)
    requires
        n >= 0,
        rest.len() == 0 || !is_dec_digit(rest[0]),
    ensures
        count_at(pre + dec_digits(n as nat) + rest, pre.len() as int) == Some(
            (n, (pre.len() + dec_digits(n as nat).len()) as int),
        ),
{
    let d = dec_digits(n as nat);
    lemma_dec_digits(n as nat);
    let s = pre + d + rest;
    let i = pre.len() as int;
    let m = d.len() as int;
    assert forall|k: int| i <= k < i + m implies #[trigger] is_dec_digit(s[k]) by {
        assert(s[k] == d[k - i]);
    }
    lemma_dec_end_block(s, i, m);
    if rest.len() > 0 {
        assert(s[i + m] == rest[0]);
    }
    assert(dec_end(s, i + m) == i + m);
    assert(s.subrange(i, i + m) =~= d);
}

proof fn lemma_lit_in(pre: Seq<u8>, lit: Seq<u8>, rest: Seq<u8>)
    ensures
        has_at(pre + lit + rest, pre.len() as int, lit),
{
    assert((pre + lit + rest).subrange(pre.len() as int, (pre.len() + lit.len()) as int) =~= lit);
}

proof fn lemma_not_at(s: Seq<u8>, i: int, lit: Seq<u8>, k: int)
    requires
        0 <= k < lit.len(),
        0 <= i,
        i + k < s.len(),
        s[i + k] != lit[k],
    ensures
        !has_at(s, i, lit),
{
    if i + lit.len() <= s.len() {
        assert(s.subrange(i, i + lit.len())[k] != lit[k]);
    }
}

proof fn lemma_label_in(pre: Seq<u8>, l: Seq<char>)
    ensures
        label_from(pre + encode_utf8(l), pre.len() as int) == l,
{
    assert((pre + encode_utf8(l)).subrange(pre.len() as int, (pre + encode_utf8(l)).len() as int)
        =~= encode_utf8(l));
}

#[verifier::rlimit(80)]
proof fn lemma_gc_round_trip(a: Addr, marked: bool, l: Seq<char>)
    ensures
        line_model(line_bytes(LineModel::Node(a, NodeType::GC(marked), l))) == Some(
            LineModel::Node(a, NodeType::GC(marked), l),
        ),
{
    let s = line_bytes(LineModel::Node(a, NodeType::GC(marked), l));
    let ab = addr_bytes(a);
    let e = ab.len() as int;
    let lit = if marked {
        lit_gc_marked()
    } else {
        lit_gc()
    };
    let rest = lit + encode_utf8(l);
    assert(s =~= Seq::<u8>::empty() + ab + rest);
    lemma_addr_in(Seq::<u8>::empty(), a, rest);
    assert(addr_at(s, 0) == Some((a, e)));
    assert(s =~= ab + lit + encode_utf8(l));
    lemma_lit_in(ab, lit, encode_utf8(l));
    assert(s =~= (ab + lit) + encode_utf8(l));
    lemma_label_in(ab + lit, l);
    if marked {
        lemma_not_at(s, e, lit_gc(), 4);
        assert(label_from(s, e + 13) == l);
    } else {
        assert(label_from(s, e + 6) == l);
    }
    assert(addr_line_rest(s, a, e) == Some(LineModel::Node(a, NodeType::GC(marked), l)));
}

#[verifier::rlimit(80)]
proof fn lemma_rc_round_trip(a: Addr, n: i32, l: Seq<char>)
    requires
        n >= 0,
    ensures
        line_model(line_bytes(LineModel::Node(a, NodeType::RefCounted(n), l))) == Some(
            LineModel::Node(a, NodeType::RefCounted(n), l),
        ),
{
    let s = line_bytes(LineModel::Node(a, NodeType::RefCounted(n), l));
    let ab = addr_bytes(a);
    let e = ab.len() as int;
    let digits = dec_digits(n as nat);
    let rest = lit_rc() + digits + lit_rc_end() + encode_utf8(l);
    assert(s =~= Seq::<u8>::empty() + ab + rest);
    lemma_addr_in(Seq::<u8>::empty(), a, rest);
    assert(addr_at(s, 0) == Some((a, e)));
    assert(s =~= ab + lit_rc() + (digits + lit_rc_end() + encode_utf8(l)));
    lemma_lit_in(ab, lit_rc(), digits + lit_rc_end() + encode_utf8(l));
    lemma_not_at(s, e, lit_gc(), 2);
    lemma_not_at(s, e, lit_gc_marked(), 2);
    lemma_not_at(s, e, lit_garbage(), 2);
    assert(s =~= (ab + lit_rc()) + digits + (lit_rc_end() + encode_utf8(l)));
    lemma_count_in(ab + lit_rc(), n, lit_rc_end() + encode_utf8(l));
    let f = e + 5 + digits.len();
    assert(count_at(s, e + 5) == Some((n, f)));
    assert(s =~= (ab + lit_rc() + digits) + lit_rc_end() + encode_utf8(l));
    lemma_lit_in(ab + lit_rc() + digits, lit_rc_end(), encode_utf8(l));
    assert(s =~= (ab + lit_rc() + digits + lit_rc_end()) + encode_utf8(l));
    lemma_label_in(ab + lit_rc() + digits + lit_rc_end(), l);
    assert(label_from(s, f + 2) == l);
    assert(addr_line_rest(s, a, e) == Some(LineModel::Node(a, NodeType::RefCounted(n), l)));
}

#[verifier::rlimit(80)]
proof fn lemma_garbage_round_trip(a: Addr)
    ensures
        line_model(line_bytes(LineModel::Garbage(a))) == Some(LineModel::Garbage(a)),
{
    let s = line_bytes(LineModel::Garbage(a));
    let ab = addr_bytes(a);
    let e = ab.len() as int;
    assert(s =~= Seq::<u8>::empty() + ab + lit_garbage());
    lemma_addr_in(Seq::<u8>::empty(), a, lit_garbage());
    assert(addr_at(s, 0) == Some((a, e)));
    assert(s =~= ab + lit_garbage() + Seq::<u8>::empty());
    lemma_lit_in(ab, lit_garbage(), Seq::<u8>::empty());
    lemma_not_at(s, e, lit_gc(), 3);
    lemma_not_at(s, e, lit_gc_marked(), 3);
    assert(addr_line_rest(s, a, e) == Some(LineModel::Garbage(a)));
}

#[verifier::rlimit(80)]
proof fn lemma_known_round_trip(a: Addr, n: i32)
    requires
        n >= 0,
    ensures
        line_model(line_bytes(LineModel::KnownEdge(a, n))) == Some(LineModel::KnownEdge(a, n)),
{
    let s = line_bytes(LineModel::KnownEdge(a, n));
    let ab = addr_bytes(a);
    let e = ab.len() as int;
    let digits = dec_digits(n as nat);
    let rest = lit_known() + digits + lit_known_end();
    assert(s =~= Seq::<u8>::empty() + ab + rest);
    lemma_addr_in(Seq::<u8>::empty(), a, rest);
    assert(addr_at(s, 0) == Some((a, e)));
    assert(s =~= ab + lit_known() + (digits + lit_known_end()));
    lemma_lit_in(ab, lit_known(), digits + lit_known_end());
    lemma_not_at(s, e, lit_gc(), 2);
    lemma_not_at(s, e, lit_gc_marked(), 2);
    lemma_not_at(s, e, lit_garbage(), 2);
    lemma_not_at(s, e, lit_rc(), 2);
    assert(s =~= (ab + lit_known()) + digits + lit_known_end());
    lemma_count_in(ab + lit_known(), n, lit_known_end());
    let f = e + 8 + digits.len();
    assert(count_at(s, e + 8) == Some((n, f)));
    assert(s =~= (ab + lit_known() + digits) + lit_known_end() + Seq::<u8>::empty());
    lemma_lit_in(ab + lit_known() + digits, lit_known_end(), Seq::<u8>::empty());
    assert(addr_line_rest(s, a, e) == Some(LineModel::KnownEdge(a, n)));
}

#[verifier::rlimit(80)]
proof fn lemma_edge_round_trip(a: Addr, l: Seq<char>)
    ensures
        line_model(line_bytes(LineModel::Edge(a, l))) == Some(LineModel::Edge(a, l)),
{
    let s = line_bytes(LineModel::Edge(a, l));
    let ab = addr_bytes(a);
    let rest = lit_space() + encode_utf8(l);
    assert(s =~= lit_edge() + ab + rest);
    lemma_addr_in(lit_edge(), a, rest);
    assert(s =~= Seq::<u8>::empty() + lit_edge() + (ab + rest));
    lemma_lit_in(Seq::<u8>::empty(), lit_edge(), ab + rest);
    assert(s =~= (lit_edge() + ab) + lit_space() + encode_utf8(l));
    lemma_lit_in(lit_edge() + ab, lit_space(), encode_utf8(l));
    assert(s =~= (lit_edge() + ab + lit_space()) + encode_utf8(l));
    lemma_label_in(lit_edge() + ab + lit_space(), l);
}

#[verifier::rlimit(80)]
proof fn lemma_incr_root_round_trip(a: Addr)
    ensures
        line_model(line_bytes(LineModel::IncrRoot(a))) == Some(LineModel::IncrRoot(a)),
{
    let s = line_bytes(LineModel::IncrRoot(a));
    let ab = addr_bytes(a);
    assert(s =~= lit_incr_root() + ab + Seq::<u8>::empty());
    lemma_addr_in(lit_incr_root(), a, Seq::<u8>::empty());
    assert(s =~= Seq::<u8>::empty() + lit_incr_root() + ab);
    lemma_lit_in(Seq::<u8>::empty(), lit_incr_root(), ab);
}

/// A field of a weak map entry written at the end of `pre`, before `rest`.
proof fn lemma_weak_field_in(pre: Seq<u8>, a: Addr, rest: Seq<u8>)
    requires
        rest.len() > 0,
        rest[0] == 32,
    ensures
        weak_addr_at(pre + addr_bytes(a) + rest, pre.len() as int) == Some(
            (a, (pre.len() + addr_bytes(a).len()) as int),
        ),
        weak_addr_at(pre + addr_bytes(a), pre.len() as int) == Some(
            (a, (pre.len() + addr_bytes(a).len()) as int),
        ),
{
    lemma_addr_in(pre, a, rest);
    lemma_addr_in(pre, a, Seq::<u8>::empty());
    let s = pre + addr_bytes(a) + rest;
    let t = pre + addr_bytes(a) + Seq::<u8>::empty();
    assert(t =~= pre + addr_bytes(a));
    assert(s[pre.len() as int] == 48);
    assert(t[pre.len() as int] == 48);
    lemma_not_at(s, pre.len() as int, lit_nil(), 0);
    lemma_not_at(t, pre.len() as int, lit_nil(), 0);
}

/// The fields of a weak map entry line, each read at the end of the one
/// before.
#[verifier::rlimit(100)]
proof fn lemma_weak_map_fields(w: WeakMapEntry)
    ensures
        ({
            let s = line_bytes(LineModel::WeakMap(w));
            let e1: int = (lit_weak_map().len() + addr_bytes(w.weak_map).len()) as int;
            let e2: int = e1 + lit_key().len() + addr_bytes(w.key).len();
            let e3: int = e2 + lit_delegate().len() + addr_bytes(w.key_delegate).len();
            let e4: int = e3 + lit_value().len() + addr_bytes(w.value).len();
            &&& has_at(s, 0, lit_weak_map())
            &&& weak_addr_at(s, 17) == Some((w.weak_map, e1 as int))
            &&& has_at(s, e1 as int, lit_key())
            &&& weak_addr_at(s, e1 + 5) == Some((w.key, e2 as int))
            &&& has_at(s, e2 as int, lit_delegate())
            &&& weak_addr_at(s, e2 + 13) == Some((w.key_delegate, e3 as int))
            &&& has_at(s, e3 as int, lit_value())
            &&& weak_addr_at(s, e3 + 7) == Some((w.value, e4 as int))
            &&& e4 == s.len()
        }),
{
    let s = line_bytes(LineModel::WeakMap(w));
    let head = lit_weak_map();
    let with_map = head + addr_bytes(w.weak_map);
    let with_key_lit = with_map + lit_key();
    let with_key = with_key_lit + addr_bytes(w.key);
    let with_delegate_lit = with_key + lit_delegate();
    let with_delegate = with_delegate_lit + addr_bytes(w.key_delegate);
    let with_value_lit = with_delegate + lit_value();
    let after_map = lit_key() + addr_bytes(w.key) + lit_delegate() + addr_bytes(w.key_delegate)
        + lit_value() + addr_bytes(w.value);
    let after_key_lit = addr_bytes(w.key) + lit_delegate() + addr_bytes(w.key_delegate) + lit_value()
        + addr_bytes(w.value);
    let after_key = lit_delegate() + addr_bytes(w.key_delegate) + lit_value() + addr_bytes(w.value);
    let after_delegate_lit = addr_bytes(w.key_delegate) + lit_value() + addr_bytes(w.value);
    let after_delegate = lit_value() + addr_bytes(w.value);
    assert(s =~= Seq::<u8>::empty() + head + (addr_bytes(w.weak_map) + after_map));
    lemma_lit_in(Seq::<u8>::empty(), head, addr_bytes(w.weak_map) + after_map);
    assert(s =~= head + addr_bytes(w.weak_map) + after_map);
    lemma_weak_field_in(head, w.weak_map, after_map);
    assert(s =~= with_map + lit_key() + after_key_lit);
    lemma_lit_in(with_map, lit_key(), after_key_lit);
    assert(s =~= with_key_lit + addr_bytes(w.key) + after_key);
    lemma_weak_field_in(with_key_lit, w.key, after_key);
    assert(s =~= with_key + lit_delegate() + after_delegate_lit);
    lemma_lit_in(with_key, lit_delegate(), after_delegate_lit);
    assert(s =~= with_delegate_lit + addr_bytes(w.key_delegate) + after_delegate);
    lemma_weak_field_in(with_delegate_lit, w.key_delegate, after_delegate);
    assert(s =~= with_delegate + lit_value() + addr_bytes(w.value));
    lemma_lit_in(with_delegate, lit_value(), addr_bytes(w.value));
    assert(s =~= with_value_lit + addr_bytes(w.value));
    lemma_weak_field_in(with_value_lit, w.value, seq![32u8]);
}

#[verifier::rlimit(80)]
proof fn lemma_weak_map_round_trip(w: WeakMapEntry)
    ensures
        line_model(line_bytes(LineModel::WeakMap(w))) == Some(LineModel::WeakMap(w)),
{
    lemma_weak_map_fields(w);
    let s = line_bytes(LineModel::WeakMap(w));
    assert(s[0] == 87);
}

proof fn lemma_encode_concat(a: Seq<char>, b: Seq<char>)
    ensures
        encode_utf8(a + b) == encode_utf8(a) + encode_utf8(b),
    decreases a.len(),
{
    if a.len() == 0 {
        assert(a + b =~= b);
        assert(encode_utf8(a) + encode_utf8(b) =~= encode_utf8(b));
    } else {
        lemma_encode_concat(a.drop_first(), b);
        assert((a + b).drop_first() =~= a.drop_first() + b);
        assert((a + b)[0] == a[0]);
        assert(encode_utf8(a + b) =~= encode_scalar(a[0] as u32) + (encode_utf8(a.drop_first())
            + encode_utf8(b)));
    }
}

proof fn lemma_encode_ascii_char(c: char)
    requires
        (c as u32) < 128,
    ensures
        encode_utf8(seq![c]) == seq![(c as u32) as u8],
{
    let v = c as u32;
    assert(v & 0x7f == v) by (bit_vector)
        requires
            v < 128,
    ;
    assert(seq![c].drop_first() =~= Seq::<char>::empty());
    assert(encode_utf8(seq![c]) =~= encode_scalar(v) + encode_utf8(Seq::<char>::empty()));
}

/// Relies on `String::push`: the character is appended at the end.
#[verifier::external_body]
fn push_char(s: &mut String, c: char)
    ensures
        final(s)@ == old(s)@.push(c),
{
    s.push(c)
}

/// Appends the ASCII byte `b`.
fn push_ascii(s: &mut String, b: u8)
    requires
        b < 128,
    ensures
        encode_utf8(final(s)@) == encode_utf8(old(s)@).push(b),
{
    let c = b as char;
    assert(c as u32 == b as u32);
    push_char(s, c);
    proof {
        lemma_encode_concat(old(s)@, seq![c]);
        assert(final(s)@ =~= old(s)@ + seq![c]);
        lemma_encode_ascii_char(c);
        assert(encode_utf8(old(s)@) + seq![b] =~= encode_utf8(old(s)@).push(b));
    }
}

/// Appends the ASCII bytes of `lit`.
fn push_lit(s: &mut String, lit: &[u8])
    requires
        forall|i: int| 0 <= i < lit@.len() ==> #[trigger] lit@[i] < 128,
    ensures
        encode_utf8(final(s)@) == encode_utf8(old(s)@) + lit@,
{
    let mut i: usize = 0;
    while i < lit.len()
        invariant
            0 <= i <= lit@.len(),
            forall|j: int| 0 <= j < lit@.len() ==> #[trigger] lit@[j] < 128,
            encode_utf8(s@) == encode_utf8(old(s)@) + lit@.subrange(0, i as int),
        decreases lit@.len() - i,
    {
        push_ascii(s, lit[i]);
        assert(lit@.subrange(0, i + 1) =~= lit@.subrange(0, i as int).push(lit@[i as int]));
        i = i + 1;
    }
    assert(lit@.subrange(0, lit@.len() as int) =~= lit@);
}

/// Appends `v` in lower-case hexadecimal.
fn push_hex(s: &mut String, v: u64)
    ensures
        encode_utf8(final(s)@) == encode_utf8(old(s)@) + hex_digits(v as nat),
    decreases v,
{
    if v >= 16 {
        push_hex(s, v / 16);
    }
    let d = v % 16;
    let b: u8 = if d < 10 {
        48 + d as u8
    } else {
        87 + d as u8
    };
    push_ascii(s, b);
    proof {
        if v >= 16 {
            assert(hex_digits(v as nat) == hex_digits((v / 16) as nat).push(hex_byte((v % 16) as nat)));
        } else {
            assert(hex_digits(v as nat) =~= seq![hex_byte(v as nat)]);
        }
    }
}

/// Appends `v` in decimal.
fn push_dec(s: &mut String, v: u32)
    ensures
        encode_utf8(final(s)@) == encode_utf8(old(s)@) + dec_digits(v as nat),
    decreases v,
{
    if v >= 10 {
        push_dec(s, v / 10);
    }
    let b: u8 = 48 + (v % 10) as u8;
    push_ascii(s, b);
    proof {
        if v >= 10 {
            assert(dec_digits(v as nat) == dec_digits((v / 10) as nat).push((48 + (v % 10)) as u8));
        } else {
            assert(dec_digits(v as nat) =~= seq![(48 + v) as u8]);
        }
    }
}

/// Appends the address `a` as `0x` and hexadecimal digits.
fn push_addr(s: &mut String, a: Addr)
    ensures
        encode_utf8(final(s)@) == encode_utf8(old(s)@) + addr_bytes(a),
{
    let prefix: [u8; 2] = [48, 120];
    assert(prefix@ =~= seq![48u8, 120]);
    push_lit(s, &prefix);
    push_hex(s, a);
    assert(encode_utf8(old(s)@) + prefix@ + hex_digits(a as nat) =~= encode_utf8(old(s)@)
        + addr_bytes(a));
}

/// Appends the label `l`.
fn push_label(s: &mut String, l: &str)
    ensures
        encode_utf8(final(s)@) == encode_utf8(old(s)@) + encode_utf8(l@),
{
    s.append(l);
    proof {
        lemma_encode_concat(old(s)@, l@);
    }
}

/// Writes a record as a line of the log.
pub fn format_line(rec: &ParsedLine) -> (r: String)
    requires
        writable(rec@),
    ensures
        encode_utf8(r@) == line_bytes(rec@),
{
    let mut s = String::new();
    assert(encode_utf8(s@) =~= Seq::<u8>::empty());
    match rec {
        ParsedLine::Node(a, k, l) => {
            push_addr(&mut s, *a);
            match k {
                NodeType::GC(false) => {
                    let lit: [u8; 6] = [32, 91, 103, 99, 93, 32];
                    assert(lit@ =~= lit_gc());
                    push_lit(&mut s, &lit);
                },
                NodeType::GC(true) => {
                    let lit: [u8; 13] = [32, 91, 103, 99, 46, 109, 97, 114, 107, 101, 100, 93, 32];
                    assert(lit@ =~= lit_gc_marked());
                    push_lit(&mut s, &lit);
                },
                NodeType::RefCounted(n) => {
                    let lit: [u8; 5] = [32, 91, 114, 99, 61];
                    let end: [u8; 2] = [93, 32];
                    assert(lit@ =~= lit_rc());
                    assert(end@ =~= lit_rc_end());
                    push_lit(&mut s, &lit);
                    push_dec(&mut s, *n as u32);
                    push_lit(&mut s, &end);
                },
            }
            push_label(&mut s, l);
        },
        ParsedLine::Edge(a, l) => {
            let lit: [u8; 2] = [62, 32];
            let space: [u8; 1] = [32];
            assert(lit@ =~= lit_edge());
            assert(space@ =~= lit_space());
            push_lit(&mut s, &lit);
            push_addr(&mut s, *a);
            push_lit(&mut s, &space);
            push_label(&mut s, l);
        },
        ParsedLine::WeakMap(w) => {
            let head: [u8; 17] = [
                87, 101, 97, 107, 77, 97, 112, 69, 110, 116, 114, 121, 32, 109, 97, 112, 61,
            ];
            let key: [u8; 5] = [32, 107, 101, 121, 61];
            let delegate: [u8; 13] = [32, 107, 101, 121, 68, 101, 108, 101, 103, 97, 116, 101, 61];
            let value: [u8; 7] = [32, 118, 97, 108, 117, 101, 61];
            assert(head@ =~= lit_weak_map());
            assert(key@ =~= lit_key());
            assert(delegate@ =~= lit_delegate());
            assert(value@ =~= lit_value());
            push_lit(&mut s, &head);
            push_addr(&mut s, w.weak_map);
            push_lit(&mut s, &key);
            push_addr(&mut s, w.key);
            push_lit(&mut s, &delegate);
            push_addr(&mut s, w.key_delegate);
            push_lit(&mut s, &value);
            push_addr(&mut s, w.value);
        },
        ParsedLine::IncrRoot(a) => {
            let lit: [u8; 16] = [
                73, 110, 99, 114, 101, 109, 101, 110, 116, 97, 108, 82, 111, 111, 116, 32,
            ];
            assert(lit@ =~= lit_incr_root());
            push_lit(&mut s, &lit);
            push_addr(&mut s, *a);
        },
        ParsedLine::Comment => {
            push_ascii(&mut s, 35);
        },
        ParsedLine::Separator => {
            let lit: [u8; 10] = [61, 61, 61, 61, 61, 61, 61, 61, 61, 61];
            assert(lit@ =~= separator_bytes());
            push_lit(&mut s, &lit);
        },
        ParsedLine::Garbage(a) => {
            let lit: [u8; 10] = [32, 91, 103, 97, 114, 98, 97, 103, 101, 93];
            assert(lit@ =~= lit_garbage());
            push_addr(&mut s, *a);
            push_lit(&mut s, &lit);
        },
        ParsedLine::KnownEdge(a, n) => {
            let lit: [u8; 8] = [32, 91, 107, 110, 111, 119, 110, 61];
            let end: [u8; 1] = [93];
            assert(lit@ =~= lit_known());
            assert(end@ =~= lit_known_end());
            push_addr(&mut s, *a);
            push_lit(&mut s, &lit);
            push_dec(&mut s, *n as u32);
            push_lit(&mut s, &end);
        },
    }
    assert(encode_utf8(s@) =~= line_bytes(rec@));
    s
}

/// Writing a record as a line and reading that line gives the record back.
pub proof fn lemma_line_round_trip(m: LineModel)
    requires
        writable(m),
    ensures
        line_model(line_bytes(m)) == Some(m),
{
    match m {
        LineModel::Node(a, NodeType::GC(marked), l) => lemma_gc_round_trip(a, marked, l),
        LineModel::Node(a, NodeType::RefCounted(n), l) => lemma_rc_round_trip(a, n, l),
        LineModel::Edge(a, l) => lemma_edge_round_trip(a, l),
        LineModel::WeakMap(w) => lemma_weak_map_round_trip(w),
        LineModel::IncrRoot(a) => lemma_incr_root_round_trip(a),
        LineModel::Comment => {},
        LineModel::Separator => {},
        LineModel::Garbage(a) => lemma_garbage_round_trip(a),
        LineModel::KnownEdge(a, n) => lemma_known_round_trip(a, n),
    }
}

/// The counts of a record read from a line are not negative.
proof fn lemma_read_record_writable(s: Seq<u8>)
    requires
        line_model(s) is Some,
    ensures
        writable(line_model(s)->0),
{
}

proof fn lemma_rewritten_prefix(lines: Seq<Seq<char>>, rewritten: Seq<Seq<char>>, k: int)
    requires
        build(lines) is Ok,
        rewritten.len() == lines.len(),
        forall|i: int|
            0 <= i < lines.len() ==> (line_model(encode_utf8(#[trigger] lines[i])) matches Some(m)
                ==> encode_utf8(rewritten[i]) == line_bytes(m)),
        0 <= k <= lines.len(),
    ensures
        build(lines.subrange(0, k)) is Ok,
        build(rewritten.subrange(0, k)) == build(lines.subrange(0, k)),
    decreases k,
{
    if build(lines.subrange(0, k)) is Err {
        lemma_build_error_stays(lines, k);
    }
    if k > 0 {
        let j = k - 1;
        lemma_rewritten_prefix(lines, rewritten, j);
        let lk = lines.subrange(0, k);
        let rk = rewritten.subrange(0, k);
        assert(lk.drop_last() =~= lines.subrange(0, j));
        assert(rk.drop_last() =~= rewritten.subrange(0, j));
        assert(lk.last() == lines[j]);
        assert(rk.last() == rewritten[j]);
        let m = line_model(encode_utf8(lines[j]));
        assert(m is Some);
        lemma_read_record_writable(encode_utf8(lines[j]));
        lemma_line_round_trip(m->0);
        assert(line_model(encode_utf8(rewritten[j])) == m);
    }
}

/// Rewriting each line of a valid log as the record it reads as gives a log
/// that describes the same graph: reading, writing and reading again is the
/// same as reading once.
pub proof fn lemma_rewritten_log_same_graph(lines: Seq<Seq<char>>, rewritten: Seq<Seq<char>>)
    requires
        log_model(lines) is Ok,
        rewritten.len() == lines.len(),
        forall|i: int|
            0 <= i < lines.len() ==> (line_model(encode_utf8(#[trigger] lines[i])) matches Some(m)
                ==> encode_utf8(rewritten[i]) == line_bytes(m)),
    ensures
        log_model(rewritten) == log_model(lines),
{
    lemma_rewritten_prefix(lines, rewritten, lines.len() as int);
    assert(lines.subrange(0, lines.len() as int) =~= lines);
    assert(rewritten.subrange(0, lines.len() as int) =~= rewritten);
}

} // verus!
