//! The line grammar of the log: what each line says, and a parser that
//! picks the shape of a line by its first byte.
use vstd::prelude::*;
use vstd::string::StringSliceAdditionalSpecFns;
use vstd::utf8::*;

use crate::cc_log::{Addr, NodeType, WeakMapEntry};

verus! {

broadcast use encode_utf8_valid_utf8, encode_utf8_decode_utf8;

/// What one line of the log says, with its label as text.
pub enum LineModel {
    Node(Addr, NodeType, Seq<char>),
    Edge(Addr, Seq<char>),
    WeakMap(WeakMapEntry),
    IncrRoot(Addr),
    Comment,
    Separator,
    Garbage(Addr),
    KnownEdge(Addr, i32),
}

/// One parsed line of the log. A label borrows the rest of the line.
#[derive(Debug)]
pub enum ParsedLine<'a> {
    /// A node declaration: address, kind and label; the edges follow.
    Node(Addr, NodeType, &'a str),
    /// An edge of the last declared node: target and label.
    Edge(Addr, &'a str),
    WeakMap(WeakMapEntry),
    IncrRoot(Addr),
    Comment,
    Separator,
    Garbage(Addr),
    KnownEdge(Addr, i32),
}

impl<'a> View for ParsedLine<'a> {
    type V = LineModel;

    open spec fn view(&self) -> LineModel {
        match *self {
            ParsedLine::Node(a, k, l) => LineModel::Node(a, k, l@),
            ParsedLine::Edge(a, l) => LineModel::Edge(a, l@),
            ParsedLine::WeakMap(w) => LineModel::WeakMap(w),
            ParsedLine::IncrRoot(a) => LineModel::IncrRoot(a),
            ParsedLine::Comment => LineModel::Comment,
            ParsedLine::Separator => LineModel::Separator,
            ParsedLine::Garbage(a) => LineModel::Garbage(a),
            ParsedLine::KnownEdge(a, n) => LineModel::KnownEdge(a, n),
        }
    }
}

/// `0`-`9` or `a`-`f`.
pub open spec fn is_hex_digit(c: u8) -> bool {
    (48 <= c && c <= 57) || (97 <= c && c <= 102)
}

/// The value of a hexadecimal digit.
pub open spec fn hex_digit_value(c: u8) -> nat {
    if c <= 57 {
        (c - 48) as nat
    } else {
        (c - 87) as nat
    }
}

/// `0`-`9`.
pub open spec fn is_dec_digit(c: u8) -> bool {
    48 <= c && c <= 57
}

/// The end of the run of hexadecimal digits that starts at `i`.
pub open spec fn hex_end(s: Seq<u8>, i: int) -> int
    decreases s.len() - i,
{
    if 0 <= i < s.len() && is_hex_digit(s[i]) {
        hex_end(s, i + 1)
    } else {
        i
    }
}

/// The end of the run of decimal digits that starts at `i`.
pub open spec fn dec_end(s: Seq<u8>, i: int) -> int
    decreases s.len() - i,
{
    if 0 <= i < s.len() && is_dec_digit(s[i]) {
        dec_end(s, i + 1)
    } else {
        i
    }
}

/// The number that a run of hexadecimal digits writes.
pub open spec fn hex_value(d: Seq<u8>) -> nat
    decreases d.len(),
{
    if d.len() == 0 {
        0
    } else {
        hex_value(d.drop_last()) * 16 + hex_digit_value(d.last())
    }
}

/// The number that a run of decimal digits writes.
pub open spec fn dec_value(d: Seq<u8>) -> nat
    decreases d.len(),
{
    if d.len() == 0 {
        0
    } else {
        dec_value(d.drop_last()) * 10 + (d.last() - 48) as nat
    }
}

/// `lit` stands in `s` at `i`.
pub open spec fn has_at(s: Seq<u8>, i: int, lit: Seq<u8>) -> bool {
    0 <= i && i + lit.len() <= s.len() && s.subrange(i, i + lit.len()) == lit
}

/// An address `0x` followed by hexadecimal digits at `i`: its value and the
/// index just past it.
pub open spec fn addr_at(s: Seq<u8>, i: int) -> Option<(u64, int)> {
    let e = hex_end(s, i + 2);
    if 0 <= i && i + 2 <= s.len() && s[i] == 48 && s[i + 1] == 120 && e > i + 2 && hex_value(
        s.subrange(i + 2, e),
    ) <= u64::MAX {
        Some((hex_value(s.subrange(i + 2, e)) as u64, e))
    } else {
        None
    }
}

/// A count of decimal digits at `i` that fits an `i32`: its value and the
/// index just past it.
pub open spec fn count_at(s: Seq<u8>, i: int) -> Option<(i32, int)> {
    let e = dec_end(s, i);
    if 0 <= i && e > i && dec_value(s.subrange(i, e)) <= i32::MAX {
        Some((dec_value(s.subrange(i, e)) as i32, e))
    } else {
        None
    }
}

/// A value read with the index just past it, the index taken as an `int`.
pub open spec fn widen<T>(r: Option<(T, usize)>) -> Option<(T, int)> {
    match r {
        Some((v, e)) => Some((v, e as int)),
        None => None,
    }
}

proof fn lemma_hex_end_bounds(s: Seq<u8>, i: int)
    requires
        0 <= i <= s.len(),
    ensures
        i <= hex_end(s, i) <= s.len(),
    decreases s.len() - i,
{
    if i < s.len() && is_hex_digit(s[i]) {
        lemma_hex_end_bounds(s, i + 1);
    }
}

proof fn lemma_dec_end_bounds(s: Seq<u8>, i: int)
    requires
        0 <= i <= s.len(),
    ensures
        i <= dec_end(s, i) <= s.len(),
    decreases s.len() - i,
{
    if i < s.len() && is_dec_digit(s[i]) {
        lemma_dec_end_bounds(s, i + 1);
    }
}

proof fn lemma_hex_value_grows(s: Seq<u8>, start: int, a: int, b: int)
    requires
        0 <= start <= a <= b <= s.len(),
    ensures
        hex_value(s.subrange(start, a)) <= hex_value(s.subrange(start, b)),
    decreases b - a,
{
    if a < b {
        lemma_hex_value_grows(s, start, a, b - 1);
        assert(s.subrange(start, b).drop_last() =~= s.subrange(start, b - 1));
    }
}

proof fn lemma_dec_value_grows(s: Seq<u8>, start: int, a: int, b: int)
    requires
        0 <= start <= a <= b <= s.len(),
    ensures
        dec_value(s.subrange(start, a)) <= dec_value(s.subrange(start, b)),
    decreases b - a,
{
    if a < b {
        lemma_dec_value_grows(s, start, a, b - 1);
        assert(s.subrange(start, b).drop_last() =~= s.subrange(start, b - 1));
    }
}

/// The value of a hexadecimal digit, or `None` for any other byte.
pub fn addr_char_val(c: u8) -> (r: Option<u64>)
    ensures
        r == (if is_hex_digit(c) {
            Some(hex_digit_value(c) as u64)
        } else {
            None::<u64>
        }),
{
    if 48 <= c && c <= 57 {
        Some(c as u64 - 48)
    } else if 97 <= c && c <= 102 {
        Some(c as u64 - 87)
    } else {
        None
    }
}

/// Reads the run of hexadecimal digits at `start`: its value and the index
/// just past it, or `None` where the value does not fit a `u64`.
pub fn read_addr_val(s: &[u8], start: usize) -> (r: Option<(u64, usize)>)
    requires
        start <= s@.len(),
    ensures
        match r {
            Some((v, e)) => e == hex_end(s@, start as int) && v == hex_value(
                s@.subrange(start as int, e as int),
            ),
            None => hex_value(s@.subrange(start as int, hex_end(s@, start as int))) > u64::MAX,
        },
{
    let mut i: usize = start;
    let mut v: u64 = 0;
    while i < s.len()
        invariant
            start <= i <= s@.len(),
            hex_end(s@, start as int) == hex_end(s@, i as int),
            v == hex_value(s@.subrange(start as int, i as int)),
        ensures
            hex_end(s@, start as int) == i,
            v == hex_value(s@.subrange(start as int, i as int)),
        decreases s@.len() - i,
    {
        let d = match addr_char_val(s[i]) {
            Some(d) => d,
            None => break,
        };
        proof {
            assert(s@.subrange(start as int, i + 1).drop_last() =~= s@.subrange(
                start as int,
                i as int,
            ));
        }
        if v > 0x0fff_ffff_ffff_ffff {
            proof {
                lemma_hex_end_bounds(s@, i + 1);
                lemma_hex_value_grows(s@, start as int, i + 1, hex_end(s@, start as int));
            }
            return None;
        }
        v = v * 16 + d;
        i = i + 1;
    }
    Some((v, i))
}

/// The value of a decimal digit, or `None` for any other byte.
pub fn refcount_char_val(c: u8) -> (r: Option<i32>)
    ensures
        r == (if is_dec_digit(c) {
            Some((c - 48) as i32)
        } else {
            None::<i32>
        }),
{
    if 48 <= c && c <= 57 {
        Some(c as i32 - 48)
    } else {
        None
    }
}

/// Reads the count written in decimal at `start`, with at least one digit:
/// its value and the index just past it.
pub fn read_refcount_val(s: &[u8], start: usize) -> (r: Option<(i32, usize)>)
    requires
        start <= s@.len(),
    ensures
        widen(r) == count_at(s@, start as int),
{
    let mut i: usize = start;
    let mut v: i64 = 0;
    while i < s.len()
        invariant
            start <= i <= s@.len(),
            dec_end(s@, start as int) == dec_end(s@, i as int),
            v == dec_value(s@.subrange(start as int, i as int)),
            v <= i32::MAX,
        ensures
            dec_end(s@, start as int) == i,
            v == dec_value(s@.subrange(start as int, i as int)),
            v <= i32::MAX,
        decreases s@.len() - i,
    {
        let d = match refcount_char_val(s[i]) {
            Some(d) => d,
            None => break,
        };
        proof {
            assert(s@.subrange(start as int, i + 1).drop_last() =~= s@.subrange(
                start as int,
                i as int,
            ));
        }
        let next: i64 = v * 10 + d as i64;
        if next > 0x7fff_ffff {
            proof {
                lemma_dec_end_bounds(s@, i + 1);
                lemma_dec_value_grows(s@, start as int, i + 1, dec_end(s@, start as int));
            }
            return None;
        }
        v = next;
        i = i + 1;
    }
    if i == start {
        return None;
    }
    Some((v as i32, i))
}

/// Whether `expected` stands in `s` at `pos`.
pub fn expect_bytes(expected: &[u8], s: &[u8], pos: usize) -> (r: bool)
    ensures
        r == has_at(s@, pos as int, expected@),
{
    if pos > s.len() || expected.len() > s.len() - pos {
        return false;
    }
    let mut i: usize = 0;
    while i < expected.len()
        invariant
            0 <= i <= expected@.len(),
            pos <= s@.len() <= usize::MAX,
            pos + expected@.len() <= s@.len(),
            forall|j: int| 0 <= j < i ==> s@[pos + j] == expected@[j],
        decreases expected@.len() - i,
    {
        if s[pos + i] != expected[i] {
            assert(s@.subrange(pos as int, pos + expected@.len())[i as int] != expected@[i as int]);
            return false;
        }
        i = i + 1;
    }
    assert(s@.subrange(pos as int, pos + expected@.len()) =~= expected@);
    true
}

/// The address written as `0x` and hexadecimal digits at `pos`: its value and
/// the index just past it.
pub fn split_addr(s: &[u8], pos: usize) -> (r: Option<(u64, usize)>)
    ensures
        widen(r) == addr_at(s@, pos as int),
{
    if pos > s.len() || s.len() - pos < 2 || s[pos] != 48 || s[pos + 1] != 120 {
        return None;
    }
    proof {
        lemma_hex_end_bounds(s@, pos + 2);
    }
    match read_addr_val(s, pos + 2) {
        Some((v, e)) => {
            if e == pos + 2 {
                None
            } else {
                Some((v, e))
            }
        },
        None => None,
    }
}

/// The bytes of `> `.
pub open spec fn lit_edge() -> Seq<u8> {
    seq![62u8, 32]
}

/// The bytes of ` `.
pub open spec fn lit_space() -> Seq<u8> {
    seq![32u8]
}

/// The bytes of `IncrementalRoot `.
pub open spec fn lit_incr_root() -> Seq<u8> {
    seq![73u8, 110, 99, 114, 101, 109, 101, 110, 116, 97, 108, 82, 111, 111, 116, 32]
}

/// The bytes of ` [gc] `.
pub open spec fn lit_gc() -> Seq<u8> {
    seq![32u8, 91, 103, 99, 93, 32]
}

/// The bytes of ` [gc.marked] `.
pub open spec fn lit_gc_marked() -> Seq<u8> {
    seq![32u8, 91, 103, 99, 46, 109, 97, 114, 107, 101, 100, 93, 32]
}

/// The bytes of ` [garbage]`.
pub open spec fn lit_garbage() -> Seq<u8> {
    seq![32u8, 91, 103, 97, 114, 98, 97, 103, 101, 93]
}

/// The bytes of ` [rc=`.
pub open spec fn lit_rc() -> Seq<u8> {
    seq![32u8, 91, 114, 99, 61]
}

/// The bytes of `] `.
pub open spec fn lit_rc_end() -> Seq<u8> {
    seq![93u8, 32]
}

/// The bytes of ` [known=`.
pub open spec fn lit_known() -> Seq<u8> {
    seq![32u8, 91, 107, 110, 111, 119, 110, 61]
}

/// The bytes of `]`.
pub open spec fn lit_known_end() -> Seq<u8> {
    seq![93u8]
}

/// The bytes of `WeakMapEntry map=`.
pub open spec fn lit_weak_map() -> Seq<u8> {
    seq![87u8, 101, 97, 107, 77, 97, 112, 69, 110, 116, 114, 121, 32, 109, 97, 112, 61]
}

/// The bytes of ` key=`.
pub open spec fn lit_key() -> Seq<u8> {
    seq![32u8, 107, 101, 121, 61]
}

/// The bytes of ` keyDelegate=`.
pub open spec fn lit_delegate() -> Seq<u8> {
    seq![32u8, 107, 101, 121, 68, 101, 108, 101, 103, 97, 116, 101, 61]
}

/// The bytes of ` value=`.
pub open spec fn lit_value() -> Seq<u8> {
    seq![32u8, 118, 97, 108, 117, 101, 61]
}

/// The bytes of `(nil)`.
pub open spec fn lit_nil() -> Seq<u8> {
    seq![40u8, 110, 105, 108, 41]
}

/// The label that runs from `k` to the end of the line.
pub open spec fn label_from(s: Seq<u8>, k: int) -> Seq<char> {
    decode_utf8(s.subrange(k, s.len() as int))
}

/// `> ADDR LABEL`
pub open spec fn edge_line(s: Seq<u8>) -> Option<LineModel> {
    match addr_at(s, 2) {
        Some((a, e)) => if has_at(s, 0, lit_edge()) && has_at(s, e, lit_space()) {
            Some(LineModel::Edge(a, label_from(s, e + 1)))
        } else {
            None
        },
        None => None,
    }
}

/// `IncrementalRoot ADDR`
pub open spec fn incr_root_line(s: Seq<u8>) -> Option<LineModel> {
    match addr_at(s, 16) {
        Some((a, e)) => if has_at(s, 0, lit_incr_root()) && e == s.len() {
            Some(LineModel::IncrRoot(a))
        } else {
            None
        },
        None => None,
    }
}

/// A field of a weak map entry: an address, or `(nil)` for `0`.
pub open spec fn weak_addr_at(s: Seq<u8>, i: int) -> Option<(u64, int)> {
    if has_at(s, i, lit_nil()) {
        Some((0u64, i + 5))
    } else {
        addr_at(s, i)
    }
}

/// `WeakMapEntry map=A key=A keyDelegate=A value=A`
pub open spec fn weak_map_line(s: Seq<u8>) -> Option<LineModel> {
    if !has_at(s, 0, lit_weak_map()) {
        None
    } else {
        match weak_addr_at(s, 17) {
            None => None,
            Some((m, e1)) => if !has_at(s, e1, lit_key()) {
                None
            } else {
                match weak_addr_at(s, e1 + 5) {
                    None => None,
                    Some((k, e2)) => if !has_at(s, e2, lit_delegate()) {
                        None
                    } else {
                        match weak_addr_at(s, e2 + 13) {
                            None => None,
                            Some((d, e3)) => if !has_at(s, e3, lit_value()) {
                                None
                            } else {
                                match weak_addr_at(s, e3 + 7) {
                                    None => None,
                                    Some((v, e4)) => if e4 != s.len() {
                                        None
                                    } else {
                                        Some(
                                            LineModel::WeakMap(
                                                WeakMapEntry {
                                                    weak_map: m,
                                                    key: k,
                                                    key_delegate: d,
                                                    value: v,
                                                },
                                            ),
                                        )
                                    },
                                }
                            },
                        }
                    },
                }
            },
        }
    }
}

/// A line of `=` alone.
pub open spec fn separator_line(s: Seq<u8>) -> Option<LineModel> {
    if forall|i: int| 0 <= i < s.len() ==> s[i] == 61 {
        Some(LineModel::Separator)
    } else {
        None
    }
}

/// What follows the address `a` of a line that starts with one, from `e` on:
/// a node's kind and label, or a result of the collector.
pub open spec fn addr_line_rest(s: Seq<u8>, a: u64, e: int) -> Option<LineModel> {
    if has_at(s, e, lit_gc()) {
        Some(LineModel::Node(a, NodeType::GC(false), label_from(s, e + 6)))
    } else if has_at(s, e, lit_gc_marked()) {
        Some(LineModel::Node(a, NodeType::GC(true), label_from(s, e + 13)))
    } else if has_at(s, e, lit_garbage()) && e + 10 == s.len() {
        Some(LineModel::Garbage(a))
    } else if has_at(s, e, lit_rc()) {
        match count_at(s, e + 5) {
            Some((n, f)) => if has_at(s, f, lit_rc_end()) {
                Some(LineModel::Node(a, NodeType::RefCounted(n), label_from(s, f + 2)))
            } else {
                None
            },
            None => None,
        }
    } else if has_at(s, e, lit_known()) {
        match count_at(s, e + 8) {
            Some((n, f)) => if has_at(s, f, lit_known_end()) && f + 1 == s.len() {
                Some(LineModel::KnownEdge(a, n))
            } else {
                None
            },
            None => None,
        }
    } else {
        None
    }
}

/// A line that starts with an address.
pub open spec fn addr_line(s: Seq<u8>) -> Option<LineModel> {
    match addr_at(s, 0) {
        Some((a, e)) => addr_line_rest(s, a, e),
        None => None,
    }
}

/// What the line with bytes `s` says, or `None` where it has no known shape.
/// The first byte picks the shape.
pub open spec fn line_model(s: Seq<u8>) -> Option<LineModel> {
    if s.len() == 0 {
        None
    } else if s[0] == 62 {
        edge_line(s)
    } else if s[0] == 35 {
        Some(LineModel::Comment)
    } else if s[0] == 87 {
        weak_map_line(s)
    } else if s[0] == 73 {
        incr_root_line(s)
    } else if s[0] == 61 {
        separator_line(s)
    } else {
        addr_line(s)
    }
}

proof fn lemma_boundary_after_ascii(b: Seq<u8>, k: int)
    requires
        valid_utf8(b),
        0 < k <= b.len(),
        b[k - 1] < 128,
    ensures
        is_char_boundary(b, k),
{
    if k == b.len() {
        is_char_boundary_start_end_of_seq(b);
    } else {
        is_char_boundary_iff_is_leading_byte(b, k - 1);
        valid_utf8_split(b, k - 1);
        let t = b.subrange(k - 1, b.len() as int);
        assert(valid_utf8(t));
        assert(t[0] == b[k - 1]);
        assert(length_of_first_scalar(t) == 1);
        assert(pop_first_scalar(t) =~= b.subrange(k, b.len() as int));
        let u = b.subrange(k, b.len() as int);
        assert(valid_utf8(u));
        assert(u[0] == b[k]);
        is_char_boundary_iff_not_is_continuation_byte(b, k);
    }
}

/// The rest of `line` from byte `k` on, where the byte before `k` is ASCII.
fn label_from_byte<'a>(line: &'a str, k: usize) -> (r: &'a str)
    requires
        0 < k <= line.spec_bytes().len(),
        line.spec_bytes()[k - 1] < 128,
    ensures
        r@ == label_from(line.spec_bytes(), k as int),
{
    proof {
        lemma_boundary_after_ascii(line.spec_bytes(), k as int);
    }
    let (_, rest) = line.split_at(k);
    proof {
        assert(decode_utf8(encode_utf8(rest@)) == rest@);
    }
    rest
}

/// A parse result as a model.
pub open spec fn opt_view<'a>(r: Option<ParsedLine<'a>>) -> Option<LineModel> {
    match r {
        Some(p) => Some(p@),
        None => None,
    }
}

proof fn lemma_has_at_last(s: Seq<u8>, i: int, lit: Seq<u8>)
    requires
        has_at(s, i, lit),
        lit.len() > 0,
    ensures
        s[i + lit.len() - 1] == lit[lit.len() - 1],
{
    assert(s.subrange(i, i + lit.len())[lit.len() - 1] == s[i + lit.len() - 1]);
}

fn parse_edge<'a>(line: &'a str, s: &[u8]) -> (r: Option<ParsedLine<'a>>)
    requires
        s@ == line.spec_bytes(),
        s@.len() <= usize::MAX,
    ensures
        opt_view(r) == edge_line(s@),
{
    let lit: [u8; 2] = [62, 32];
    let space: [u8; 1] = [32];
    assert(lit@ == lit_edge());
    assert(space@ == lit_space());
    match split_addr(s, 2) {
        Some((a, e)) => {
            if expect_bytes(&lit, s, 0) && expect_bytes(&space, s, e) {
                proof {
                    lemma_has_at_last(s@, e as int, lit_space());
                }
                Some(ParsedLine::Edge(a, label_from_byte(line, e + 1)))
            } else {
                None
            }
        },
        None => None,
    }
}

fn parse_incr_root<'a>(s: &[u8]) -> (r: Option<ParsedLine<'a>>)
    ensures
        opt_view(r) == incr_root_line(s@),
{
    let lit: [u8; 16] = [73, 110, 99, 114, 101, 109, 101, 110, 116, 97, 108, 82, 111, 111, 116, 32];
    assert(lit@ == lit_incr_root());
    match split_addr(s, 16) {
        Some((a, e)) => {
            if expect_bytes(&lit, s, 0) && e == s.len() {
                Some(ParsedLine::IncrRoot(a))
            } else {
                None
            }
        },
        None => None,
    }
}

/// A field of a weak map entry at `pos`: an address, or `(nil)` for `0`.
fn read_weak_addr(s: &[u8], pos: usize) -> (r: Option<(u64, usize)>)
    requires
        s@.len() <= usize::MAX,
    ensures
        widen(r) == weak_addr_at(s@, pos as int),
{
    let nil: [u8; 5] = [40, 110, 105, 108, 41];
    assert(nil@ == lit_nil());
    if expect_bytes(&nil, s, pos) {
        Some((0, pos + 5))
    } else {
        split_addr(s, pos)
    }
}

fn parse_weak_map<'a>(s: &[u8]) -> (r: Option<ParsedLine<'a>>)
    requires
        s@.len() <= usize::MAX,
    ensures
        opt_view(r) == weak_map_line(s@),
{
    let head: [u8; 17] = [87, 101, 97, 107, 77, 97, 112, 69, 110, 116, 114, 121, 32, 109, 97, 112, 61];
    let key: [u8; 5] = [32, 107, 101, 121, 61];
    let delegate: [u8; 13] = [32, 107, 101, 121, 68, 101, 108, 101, 103, 97, 116, 101, 61];
    let value: [u8; 7] = [32, 118, 97, 108, 117, 101, 61];
    assert(head@ == lit_weak_map());
    assert(key@ == lit_key());
    assert(delegate@ == lit_delegate());
    assert(value@ == lit_value());
    if !expect_bytes(&head, s, 0) {
        return None;
    }
    let (m, e1) = match read_weak_addr(s, 17) {
        Some(x) => x,
        None => return None,
    };
    if !expect_bytes(&key, s, e1) {
        return None;
    }
    let (k, e2) = match read_weak_addr(s, e1 + 5) {
        Some(x) => x,
        None => return None,
    };
    if !expect_bytes(&delegate, s, e2) {
        return None;
    }
    let (d, e3) = match read_weak_addr(s, e2 + 13) {
        Some(x) => x,
        None => return None,
    };
    if !expect_bytes(&value, s, e3) {
        return None;
    }
    let (v, e4) = match read_weak_addr(s, e3 + 7) {
        Some(x) => x,
        None => return None,
    };
    if e4 != s.len() {
        return None;
    }
    Some(ParsedLine::WeakMap(WeakMapEntry { weak_map: m, key: k, key_delegate: d, value: v }))
}

fn parse_separator<'a>(s: &[u8]) -> (r: Option<ParsedLine<'a>>)
    ensures
        opt_view(r) == separator_line(s@),
{
    let mut i: usize = 0;
    while i < s.len()
        invariant
            0 <= i <= s@.len(),
            forall|j: int| 0 <= j < i ==> s@[j] == 61,
        decreases s@.len() - i,
    {
        if s[i] != 61 {
            return None;
        }
        i = i + 1;
    }
    Some(ParsedLine::Separator)
}

/// Parses what follows the address `a` that ends at `e` in a line that starts
/// with an address.
fn parse_addr_line<'a>(line: &'a str, s: &[u8], a: Addr, e: usize) -> (r: Option<ParsedLine<'a>>)
    requires
        s@ == line.spec_bytes(),
        e <= s@.len() <= usize::MAX,
    ensures
        opt_view(r) == addr_line_rest(s@, a, e as int),
{
    let gc: [u8; 6] = [32, 91, 103, 99, 93, 32];
    let gc_marked: [u8; 13] = [32, 91, 103, 99, 46, 109, 97, 114, 107, 101, 100, 93, 32];
    let garbage: [u8; 10] = [32, 91, 103, 97, 114, 98, 97, 103, 101, 93];
    let rc: [u8; 5] = [32, 91, 114, 99, 61];
    let rc_end: [u8; 2] = [93, 32];
    let known: [u8; 8] = [32, 91, 107, 110, 111, 119, 110, 61];
    let known_end: [u8; 1] = [93];
    assert(gc@ == lit_gc());
    assert(gc_marked@ == lit_gc_marked());
    assert(garbage@ == lit_garbage());
    assert(rc@ == lit_rc());
    assert(rc_end@ == lit_rc_end());
    assert(known@ == lit_known());
    assert(known_end@ == lit_known_end());
    if expect_bytes(&gc, s, e) {
        proof {
            lemma_has_at_last(s@, e as int, lit_gc());
        }
        Some(ParsedLine::Node(a, NodeType::GC(false), label_from_byte(line, e + 6)))
    } else if expect_bytes(&gc_marked, s, e) {
        proof {
            lemma_has_at_last(s@, e as int, lit_gc_marked());
        }
        Some(ParsedLine::Node(a, NodeType::GC(true), label_from_byte(line, e + 13)))
    } else if expect_bytes(&garbage, s, e) && e + 10 == s.len() {
        Some(ParsedLine::Garbage(a))
    } else if expect_bytes(&rc, s, e) {
        match read_refcount_val(s, e + 5) {
            Some((n, f)) => {
                if expect_bytes(&rc_end, s, f) {
                    proof {
                        lemma_has_at_last(s@, f as int, lit_rc_end());
                    }
                    Some(ParsedLine::Node(a, NodeType::RefCounted(n), label_from_byte(line, f + 2)))
                } else {
                    None
                }
            },
            None => None,
        }
    } else if expect_bytes(&known, s, e) {
        match read_refcount_val(s, e + 8) {
            Some((n, f)) => {
                if expect_bytes(&known_end, s, f) && f + 1 == s.len() {
                    Some(ParsedLine::KnownEdge(a, n))
                } else {
                    None
                }
            },
            None => None,
        }
    } else {
        None
    }
}

/// Parses one line of the log. The first byte picks the shape; `None` where
/// the line has no known shape.
pub fn parse_line<'a>(line: &'a str) -> (r: Option<ParsedLine<'a>>)
    ensures
        opt_view(r) == line_model(line.spec_bytes()),
{
    let s = line.as_bytes();
    if s.len() == 0 {
        return None;
    }
    let c = s[0];
    if c == 62 {
        parse_edge(line, s)
    } else if c == 35 {
        Some(ParsedLine::Comment)
    } else if c == 87 {
        parse_weak_map(s)
    } else if c == 73 {
        parse_incr_root(s)
    } else if c == 61 {
        parse_separator(s)
    } else {
        match split_addr(s, 0) {
            Some((a, e)) => {
                proof {
                    lemma_hex_end_bounds(s@, 2);
                }
                parse_addr_line(line, s, a, e)
            },
            None => None,
        }
    }
}

} // verus!
