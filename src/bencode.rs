//! The bencode codec: integers, byte strings, lists and dictionaries.
use vstd::prelude::*;

use crate::decimal::{
    canonical_digits, digit_run, digits_value, int_text, is_digit, lemma_digit_run, lemma_nat_text,
    lemma_text_nat, scan_digits, write_int, write_nat,
    nat_text,
};

verus! {

/// A bencode value.
#[derive(Debug, PartialEq, Eq)]
pub enum Value {
    Integer(i64),
    Bytes(Vec<u8>),
    List(Vec<Value>),
    /// Entries in the order in which they are written.
    Dict(Vec<(Vec<u8>, Value)>),
}

/// The mathematical bencode value.
pub enum BValue {
    Int(int),
    Str(Seq<u8>),
    List(Seq<BValue>),
    Dict(Seq<(Seq<u8>, BValue)>),
}

pub open spec fn value_view(v: &Value) -> BValue
    decreases v,
{
    match v {
        Value::Integer(i) => BValue::Int(*i as int),
        Value::Bytes(b) => BValue::Str(b@),
        Value::List(items) => BValue::List(
            Seq::new(
                items.len() as nat,
                |k: int|
                    if 0 <= k < items.len() {
                        value_view(&items[k])
                    } else {
                        BValue::Int(0)
                    },
            ),
        ),
        Value::Dict(entries) => BValue::Dict(
            Seq::new(
                entries.len() as nat,
                |k: int|
                    if 0 <= k < entries.len() {
                        (entries[k].0@, value_view(&entries[k].1))
                    } else {
                        (Seq::empty(), BValue::Int(0))
                    },
            ),
        ),
    }
}

impl View for Value {
    type V = BValue;

    open spec fn view(&self) -> BValue {
        value_view(self)
    }
}

pub open spec fn item_views(items: Seq<Value>) -> Seq<BValue> {
    Seq::new(items.len(), |k: int| items[k]@)
}

pub open spec fn entry_views(entries: Seq<(Vec<u8>, Value)>) -> Seq<(Seq<u8>, BValue)> {
    Seq::new(entries.len(), |k: int| (entries[k].0@, entries[k].1@))
}

// ---------------------------------------------------------------------------
// Encoding
pub open spec fn str_encoding(s: Seq<u8>) -> Seq<u8> {
    nat_text(s.len()) + seq![58u8] + s
}

/// The bencode text of `v`; dictionary entries are written in the order given.
pub open spec fn encoding(v: BValue) -> Seq<u8>
    decreases v,
{
    match v {
        BValue::Int(i) => seq![105u8] + int_text(i) + seq![101u8],
        BValue::Str(s) => str_encoding(s),
        BValue::List(items) => seq![108u8] + items_encoding(items) + seq![101u8],
        BValue::Dict(entries) => seq![100u8] + entries_encoding(entries) + seq![101u8],
    }
}

pub open spec fn items_encoding(items: Seq<BValue>) -> Seq<u8>
    decreases items,
{
    if items.len() == 0 {
        Seq::empty()
    } else {
        encoding(items[0]) + items_encoding(items.drop_first())
    }
}

pub open spec fn entries_encoding(entries: Seq<(Seq<u8>, BValue)>) -> Seq<u8>
    decreases entries,
{
    if entries.len() == 0 {
        Seq::empty()
    } else {
        str_encoding(entries[0].0) + encoding(entries[0].1) + entries_encoding(entries.drop_first())
    }
}

// ---------------------------------------------------------------------------
// Canonical values
/// Byte-wise lexicographic order, strict.
pub open spec fn key_less(a: Seq<u8>, b: Seq<u8>) -> bool
    decreases a.len(),
{
    if b.len() == 0 {
        false
    } else if a.len() == 0 {
        true
    } else if a[0] != b[0] {
        a[0] < b[0]
    } else {
        key_less(a.drop_first(), b.drop_first())
    }
}

/// `key` may follow `prev`, the key before it, if there is one.
pub open spec fn comes_after(prev: Option<Seq<u8>>, key: Seq<u8>) -> bool {
    match prev {
        Some(p) => key_less(p, key),
        None => true,
    }
}

/// Integers fit in 64 signed bits and dictionary keys ascend strictly, at every depth.
pub open spec fn canonical(v: BValue) -> bool
    decreases v,
{
    match v {
        BValue::Int(i) => i64::MIN <= i <= i64::MAX,
        BValue::Str(_) => true,
        BValue::List(items) => items_canonical(items),
        BValue::Dict(entries) => entries_canonical(entries),
    }
}

pub open spec fn items_canonical(items: Seq<BValue>) -> bool
    decreases items,
{
    items.len() == 0 || (canonical(items[0]) && items_canonical(items.drop_first()))
}

pub open spec fn entries_canonical(entries: Seq<(Seq<u8>, BValue)>) -> bool
    decreases entries,
{
    entries.len() == 0 || {
        &&& canonical(entries[0].1)
        &&& (entries.len() == 1 || key_less(entries[0].0, entries[1].0))
        &&& entries_canonical(entries.drop_first())
    }
}

// ---------------------------------------------------------------------------
// Decoding
/// A byte string at the start of `s`: the string and how many bytes it takes. Its length
/// is one or more digits; leading zeros are allowed there, unlike in integers.
pub open spec fn parse_str(s: Seq<u8>) -> Option<(Seq<u8>, nat)> {
    let k = digit_run(s);
    let t = s.subrange(0, k as int);
    let n = digits_value(t);
    if k < s.len() && s[k as int] == 58u8 && k > 0 && k + 1 + n <= s.len() {
        Some((s.subrange(k + 1 as int, k + 1 + n as int), (k + 1 + n) as nat))
    } else {
        None
    }
}

/// The body of an integer (what follows the `i`): the integer and how many bytes it takes
/// up to and including the closing `e`.
pub open spec fn parse_int(s: Seq<u8>) -> Option<(int, nat)> {
    let neg = s.len() > 0 && s[0] == 45u8;
    let st: int = if neg { 1 } else { 0 };
    let k = digit_run(s.subrange(st, s.len() as int));
    let t = s.subrange(st, st + k);
    let v = digits_value(t);
    if st + k < s.len() && s[st + k] == 101u8 && canonical_digits(t) && !(neg && v == 0) && (if neg {
        v <= 9223372036854775808
    } else {
        v <= 9223372036854775807
    }) {
        Some((if neg { -v } else { v as int }, (st + k + 1) as nat))
    } else {
        None
    }
}

/// The value at the start of `s` and how many bytes it takes.
pub open spec fn parse_value(s: Seq<u8>) -> Option<(BValue, nat)>
    decreases s.len(), 0nat,
{
    if s.len() == 0 {
        None
    } else if s[0] == 105u8 {
        match parse_int(s.drop_first()) {
            Some((i, n)) => Some((BValue::Int(i), n + 1)),
            None => None,
        }
    } else if s[0] == 108u8 {
        match parse_items(s.drop_first()) {
            Some((items, n)) => Some((BValue::List(items), n + 1)),
            None => None,
        }
    } else if s[0] == 100u8 {
        match parse_entries(s.drop_first(), None) {
            Some((entries, n)) => Some((BValue::Dict(entries), n + 1)),
            None => None,
        }
    } else {
        match parse_str(s) {
            Some((t, n)) => Some((BValue::Str(t), n)),
            None => None,
        }
    }
}

/// The items of a list up to and including its closing `e`.
pub open spec fn parse_items(s: Seq<u8>) -> Option<(Seq<BValue>, nat)>
    decreases s.len(), 1nat,
{
    if s.len() == 0 {
        None
    } else if s[0] == 101u8 {
        Some((Seq::empty(), 1))
    } else {
        match parse_value(s) {
            Some((v, n)) => if 0 < n <= s.len() {
                match parse_items(s.subrange(n as int, s.len() as int)) {
                    Some((rest, m)) => Some((seq![v] + rest, n + m)),
                    None => None,
                }
            } else {
                None
            },
            None => None,
        }
    }
}

/// The entries of a dictionary up to and including its closing `e`; each key must come
/// after `prev`, the key before it.
pub open spec fn parse_entries(s: Seq<u8>, prev: Option<Seq<u8>>) -> Option<
    (Seq<(Seq<u8>, BValue)>, nat),
>
    decreases s.len(), 1nat,
{
    if s.len() == 0 {
        None
    } else if s[0] == 101u8 {
        Some((Seq::empty(), 1))
    } else {
        match parse_str(s) {
            Some((key, kn)) => if comes_after(prev, key) && kn <= s.len() {
                match parse_value(s.subrange(kn as int, s.len() as int)) {
                    Some((v, vn)) => if 0 < vn <= s.len() - kn {
                        match parse_entries(s.subrange((kn + vn) as int, s.len() as int), Some(key)) {
                            Some((rest, m)) => Some((seq![(key, v)] + rest, kn + vn + m)),
                            None => None,
                        }
                    } else {
                        None
                    },
                    None => None,
                }
            } else {
                None
            },
            None => None,
        }
    }
}

// ---------------------------------------------------------------------------
// Decoding reads back what encoding writes
proof fn lemma_nat_text_run(n: nat, rest: Seq<u8>)
    requires
        rest.len() == 0 || !is_digit(rest[0]),
    ensures
        digit_run(nat_text(n) + rest) == nat_text(n).len(),
        (nat_text(n) + rest).subrange(0, nat_text(n).len() as int) == nat_text(n),
        canonical_digits(nat_text(n)),
        digits_value(nat_text(n)) == n,
{
    let t = nat_text(n);
    let s = t + rest;
    lemma_nat_text(n);
    assert forall|i: int| 0 <= i < t.len() implies is_digit(#[trigger] s[i]) by {
        assert(s[i] == t[i]);
    }
    if rest.len() > 0 {
        assert(s[t.len() as int] == rest[0]);
    }
    lemma_digit_run(s, t.len() as int);
    assert(s.subrange(0, t.len() as int) =~= t);
}

proof fn lemma_parse_str_encoding(t: Seq<u8>, rest: Seq<u8>)
    ensures
        parse_str(str_encoding(t) + rest) == Some((t, str_encoding(t).len())),
{
    let d = nat_text(t.len());
    let s = str_encoding(t) + rest;
    assert(s =~= d + (seq![58u8] + t + rest));
    lemma_nat_text_run(t.len(), seq![58u8] + t + rest);
    assert(s[d.len() as int] == 58u8);
    assert(s.subrange(d.len() + 1 as int, d.len() + 1 + t.len() as int) =~= t);
}

proof fn lemma_parse_int_encoding(i: int, rest: Seq<u8>)
    requires
        i64::MIN <= i <= i64::MAX,
    ensures
        parse_int(int_text(i) + seq![101u8] + rest) == Some((i, int_text(i).len() + 1)),
{
    let s = int_text(i) + seq![101u8] + rest;
    let m: nat = if i < 0 { (-i) as nat } else { i as nat };
    let d = nat_text(m);
    lemma_nat_text(m);
    if i < 0 {
        assert(s[0] == 45u8);
        assert(s.subrange(1, s.len() as int) =~= d + (seq![101u8] + rest));
        lemma_nat_text_run(m, seq![101u8] + rest);
        assert(s.subrange(1, 1 + d.len() as int) =~= d);
    } else {
        assert(s[0] == d[0]);
        assert(s.subrange(0, s.len() as int) =~= d + (seq![101u8] + rest));
        lemma_nat_text_run(m, seq![101u8] + rest);
        assert(s.subrange(0, d.len() as int) =~= d);
    }
}

proof fn lemma_encoding_first(v: BValue)
    ensures
        encoding(v).len() > 0,
        encoding(v)[0] == 105u8 || encoding(v)[0] == 108u8 || encoding(v)[0] == 100u8 || is_digit(
            encoding(v)[0],
        ),
        v is Str <==> is_digit(encoding(v)[0]),
{
    match v {
        BValue::Str(t) => {
            lemma_nat_text(t.len());
            assert(encoding(v)[0] == nat_text(t.len())[0]);
        },
        _ => {},
    }
}

/// Decoding the encoding of a canonical value, followed by anything, gives that value back.
pub proof fn lemma_parse_encoding(v: BValue, rest: Seq<u8>)
    requires
        canonical(v),
    ensures
        parse_value(encoding(v) + rest) == Some((v, encoding(v).len())),
    decreases v,
{
    let s = encoding(v) + rest;
    lemma_encoding_first(v);
    assert(s[0] == encoding(v)[0]);
    match v {
        BValue::Int(i) => {
            assert(s.drop_first() =~= int_text(i) + seq![101u8] + rest);
            lemma_parse_int_encoding(i, rest);
        },
        BValue::Str(t) => {
            lemma_parse_str_encoding(t, rest);
        },
        BValue::List(items) => {
            assert(s.drop_first() =~= items_encoding(items) + seq![101u8] + rest);
            lemma_parse_items_encoding(items, rest);
        },
        BValue::Dict(entries) => {
            assert(s.drop_first() =~= entries_encoding(entries) + seq![101u8] + rest);
            lemma_parse_entries_encoding(entries, None, rest);
        },
    }
}

proof fn lemma_parse_items_encoding(items: Seq<BValue>, rest: Seq<u8>)
    requires
        items_canonical(items),
    ensures
        parse_items(items_encoding(items) + seq![101u8] + rest) == Some(
            (items, items_encoding(items).len() + 1),
        ),
    decreases items,
{
    let s = items_encoding(items) + seq![101u8] + rest;
    if items.len() == 0 {
        assert(s[0] == 101u8);
        assert(items =~= Seq::<BValue>::empty());
    } else {
        let v = items[0];
        let tail = items.drop_first();
        let e = encoding(v);
        lemma_encoding_first(v);
        assert(s =~= e + (items_encoding(tail) + seq![101u8] + rest));
        assert(s[0] == e[0]);
        lemma_parse_encoding(v, items_encoding(tail) + seq![101u8] + rest);
        assert(s.subrange(e.len() as int, s.len() as int) =~= items_encoding(tail) + seq![101u8]
            + rest);
        lemma_parse_items_encoding(tail, rest);
        assert(seq![v] + tail =~= items);
    }
}

#[verifier::rlimit(40)]
proof fn lemma_parse_entries_encoding(
    entries: Seq<(Seq<u8>, BValue)>,
    prev: Option<Seq<u8>>,
    rest: Seq<u8>,
)
    requires
        entries_canonical(entries),
        entries.len() > 0 ==> comes_after(prev, entries[0].0),
    ensures
        parse_entries(entries_encoding(entries) + seq![101u8] + rest, prev) == Some(
            (entries, entries_encoding(entries).len() + 1),
        ),
    decreases entries,
{
    let s = entries_encoding(entries) + seq![101u8] + rest;
    if entries.len() == 0 {
        assert(s[0] == 101u8);
        assert(entries =~= Seq::<(Seq<u8>, BValue)>::empty());
    } else {
        let (key, v) = entries[0];
        let tail = entries.drop_first();
        let ke = str_encoding(key);
        let ve = encoding(v);
        let after = entries_encoding(tail) + seq![101u8] + rest;
        assert(s =~= ke + (ve + after));
        lemma_nat_text(key.len());
        assert(s[0] == nat_text(key.len())[0]);
        lemma_parse_str_encoding(key, ve + after);
        assert(s.subrange(ke.len() as int, s.len() as int) =~= ve + after);
        lemma_parse_encoding(v, after);
        assert(s.subrange((ke.len() + ve.len()) as int, s.len() as int) =~= after);
        if tail.len() > 0 {
            assert(tail[0] == entries[1]);
        }
        lemma_parse_entries_encoding(tail, Some(key), rest);
        assert(seq![(key, v)] + tail =~= entries);
    }
}

// ---------------------------------------------------------------------------
// What decoding reads was written by encoding a canonical value
proof fn lemma_parse_str_sound(s: Seq<u8>)
    ensures
        parse_str(s) matches Some((b, n)) ==> 0 < n <= s.len(),
{
}

proof fn lemma_parse_int_sound(s: Seq<u8>)
    ensures
        parse_int(s) matches Some((i, n)) ==> {
            &&& i64::MIN <= i <= i64::MAX
            &&& n <= s.len()
            &&& s.subrange(0, n as int) == int_text(i) + seq![101u8]
        },
{
    let neg = s.len() > 0 && s[0] == 45u8;
    let st: int = if neg { 1 } else { 0 };
    let k = digit_run(s.subrange(st, s.len() as int));
    let t = s.subrange(st, st + k);
    if let Some((i, n)) = parse_int(s) {
        lemma_text_nat(t);
        if neg {
            assert(s.subrange(0, n as int) =~= seq![45u8] + t + seq![101u8]);
        } else {
            assert(s.subrange(0, n as int) =~= t + seq![101u8]);
        }
    }
}

/// Whatever decoding accepts is the encoding of the canonical value that it returns.
pub proof fn lemma_parse_sound(s: Seq<u8>)
    ensures
        parse_value(s) matches Some((v, n)) ==> {
            &&& canonical(v)
            &&& 0 < n <= s.len()
        },
    decreases s.len(), 0nat,
{
    if let Some((v, n)) = parse_value(s) {
        if s[0] == 105u8 {
            lemma_parse_int_sound(s.drop_first());
        } else if s[0] == 108u8 {
            lemma_parse_items_sound(s.drop_first());
        } else if s[0] == 100u8 {
            lemma_parse_entries_sound(s.drop_first(), None);
        } else {
            lemma_parse_str_sound(s);
        }
    }
}

proof fn lemma_parse_items_sound(s: Seq<u8>)
    ensures
        parse_items(s) matches Some((items, n)) ==> {
            &&& items_canonical(items)
            &&& n <= s.len()
        },
    decreases s.len(), 1nat,
{
    if let Some((items, n)) = parse_items(s) {
        if s[0] != 101u8 {
            if let Some((v, vn)) = parse_value(s) {
                lemma_parse_sound(s);
                let r = s.subrange(vn as int, s.len() as int);
                lemma_parse_items_sound(r);
                if let Some((tail, m)) = parse_items(r) {
                    assert(items.drop_first() =~= tail);
                    assert(items[0] == v);
                }
            }
        }
    }
}

#[verifier::rlimit(40)]
proof fn lemma_parse_entries_sound(s: Seq<u8>, prev: Option<Seq<u8>>)
    ensures
        parse_entries(s, prev) matches Some((entries, n)) ==> {
            &&& entries_canonical(entries)
            &&& entries.len() > 0 ==> comes_after(prev, entries[0].0)
            &&& n <= s.len()
        },
    decreases s.len(), 1nat,
{
    if let Some((entries, n)) = parse_entries(s, prev) {
        if s[0] != 101u8 {
            if let Some((key, kn)) = parse_str(s) {
                lemma_parse_str_sound(s);
                let r1 = s.subrange(kn as int, s.len() as int);
                if let Some((v, vn)) = parse_value(r1) {
                    lemma_parse_sound(r1);
                    let r2 = s.subrange((kn + vn) as int, s.len() as int);
                    lemma_parse_entries_sound(r2, Some(key));
                    if let Some((tail, m)) = parse_entries(r2, Some(key)) {
                        assert(entries == seq![(key, v)] + tail && n == kn + vn + m);
                        assert(entries.drop_first() =~= tail);
                        assert(entries[0] == (key, v));
                        if tail.len() > 0 {
                            assert(entries[1] == tail[0]);
                        }
                    }
                }
            }
        }
    }
}

// ---------------------------------------------------------------------------
// Executable codec
/// Why a byte sequence is not canonical bencode.
#[derive(Debug, Clone, Copy, PartialEq, Eq)]
pub enum DecodeFailure {
    UnexpectedEnd,
    UnexpectedByte,
    BadNumber,
    KeyOrder,
}

/// A codec violation, with the position at which it was found.
#[derive(Debug, Clone, Copy, PartialEq, Eq)]
pub struct MalformedBencode {
    pub position: usize,
    pub reason: DecodeFailure,
}

pub open spec fn suffix(b: Seq<u8>, pos: int) -> Seq<u8> {
    b.subrange(pos, b.len() as int)
}

/// Byte-wise lexicographic comparison, strict.
pub fn key_precedes(a: &[u8], b: &[u8]) -> (r: bool)
    ensures
        r == key_less(a@, b@),
{
    let mut i: usize = 0;
    assert(suffix(a@, 0) =~= a@);
    assert(suffix(b@, 0) =~= b@);
    loop
        invariant
            i <= a@.len(),
            i <= b@.len(),
            key_less(a@, b@) == key_less(suffix(a@, i as int), suffix(b@, i as int)),
        decreases a@.len() - i,
    {
        if i == b.len() {
            return false;
        }
        if i == a.len() {
            return true;
        }
        if a[i] != b[i] {
            return a[i] < b[i];
        }
        assert(suffix(a@, i as int).drop_first() =~= suffix(a@, i + 1));
        assert(suffix(b@, i as int).drop_first() =~= suffix(b@, i + 1));
        i = i + 1;
    }
}

/// A copy of `b[from..to]`.
pub(crate) fn copy_range<T: Copy>(b: &[T], from: usize, to: usize) -> (r: Vec<T>)
    requires
        from <= to <= b@.len(),
    ensures
        r@ == b@.subrange(from as int, to as int),
{
    let mut r: Vec<T> = Vec::new();
    let mut k: usize = from;
    while k < to
        invariant
            from <= k <= to <= b@.len(),
            r@ == b@.subrange(from as int, k as int),
        decreases to - k,
    {
        r.push(b[k]);
        k = k + 1;
        assert(r@ =~= b@.subrange(from as int, k as int));
    }
    r
}

fn decode_str(b: &[u8], pos: usize) -> (r: Result<(Vec<u8>, usize), MalformedBencode>)
    requires
        pos <= b@.len(),
    ensures
        r matches Err(e) ==> e.position <= b@.len(),
        match parse_str(suffix(b@, pos as int)) {
            Some((t, n)) => r matches Ok((x, end)) && x@ == t && end == pos + n,
            None => r is Err,
        },
{
    let ghost s = suffix(b@, pos as int);
    let (end, len) = scan_digits(b, pos, b.len() as u64);
    proof {
        assert(s.subrange(0, end - pos) =~= b@.subrange(pos as int, end as int));
    }
    if end >= b.len() {
        return Err(MalformedBencode { position: end, reason: DecodeFailure::UnexpectedEnd });
    }
    if b[end] != 58u8 {
        return Err(MalformedBencode { position: end, reason: DecodeFailure::UnexpectedByte });
    }
    if end == pos {
        return Err(MalformedBencode { position: pos, reason: DecodeFailure::BadNumber });
    }
    assert(s[end - pos] == b@[end as int]);
    match len {
        None => {
            assert(digit_run(s) == end - pos);
            assert(digits_value(s.subrange(0, end - pos)) > b@.len());
            Err(MalformedBencode { position: pos, reason: DecodeFailure::UnexpectedEnd })
        },
        Some(n) => {
            if n as usize > b.len() - end - 1 {
                return Err(
                    MalformedBencode { position: end + 1, reason: DecodeFailure::UnexpectedEnd },
                );
            }
            let start = end + 1;
            let bytes = copy_range(b, start, start + n as usize);
            assert(bytes@ =~= s.subrange(start - pos, start - pos + n));
            Ok((bytes, start + n as usize))
        },
    }
}

fn decode_int(b: &[u8], pos: usize) -> (r: Result<(i64, usize), MalformedBencode>)
    requires
        pos <= b@.len(),
    ensures
        r matches Err(e) ==> e.position <= b@.len(),
        match parse_int(suffix(b@, pos as int)) {
            Some((i, n)) => r matches Ok((x, end)) && x as int == i && end == pos + n,
            None => r is Err,
        },
{
    let ghost s = suffix(b@, pos as int);
    let neg = pos < b.len() && b[pos] == 45u8;
    let st: usize = if neg {
        pos + 1
    } else {
        pos
    };
    let limit: u64 = if neg {
        9223372036854775808u64
    } else {
        9223372036854775807u64
    };
    let (end, value) = scan_digits(b, st, limit);
    proof {
        if pos < b@.len() {
            assert(s[0] == b@[pos as int]);
        }
        assert(s.subrange(st - pos, s.len() as int) =~= suffix(b@, st as int));
        assert(s.subrange(st - pos, end - pos) =~= b@.subrange(st as int, end as int));
    }
    if end >= b.len() {
        return Err(MalformedBencode { position: end, reason: DecodeFailure::UnexpectedEnd });
    }
    assert(s[end - pos] == b@[end as int]);
    if b[end] != 101u8 {
        return Err(MalformedBencode { position: end, reason: DecodeFailure::UnexpectedByte });
    }
    if end == st || (end - st > 1 && b[st] == 48u8) {
        return Err(MalformedBencode { position: st, reason: DecodeFailure::BadNumber });
    }
    assert(b@[st as int] == s.subrange(st - pos, end - pos)[0]);
    match value {
        None => {
            assert(digit_run(s.subrange(st - pos, s.len() as int)) == end - st);
            assert(digits_value(s.subrange(st - pos, end - pos)) > limit);
            Err(MalformedBencode { position: st, reason: DecodeFailure::BadNumber })
        },
        Some(v) => {
            if neg {
                if v == 0 {
                    return Err(MalformedBencode { position: st, reason: DecodeFailure::BadNumber });
                }
                let x: i64 = if v == 9223372036854775808u64 {
                    i64::MIN
                } else {
                    -(v as i64)
                };
                Ok((x, end + 1))
            } else {
                Ok((v as i64, end + 1))
            }
        },
    }
}

fn decode_value(b: &[u8], pos: usize) -> (r: Result<(Value, usize), MalformedBencode>)
    requires
        pos <= b@.len(),
    ensures
        r matches Err(e) ==> e.position <= b@.len(),
        match parse_value(suffix(b@, pos as int)) {
            Some((v, n)) => r matches Ok((x, end)) && x@ == v && end == pos + n,
            None => r is Err,
        },
    decreases b@.len() - pos, 0nat,
{
    let ghost s = suffix(b@, pos as int);
    if pos >= b.len() {
        return Err(MalformedBencode { position: pos, reason: DecodeFailure::UnexpectedEnd });
    }
    assert(s[0] == b@[pos as int]);
    assert(s.drop_first() =~= suffix(b@, pos + 1));
    let c = b[pos];
    if c == 105u8 {
        match decode_int(b, pos + 1) {
            Ok((i, end)) => Ok((Value::Integer(i), end)),
            Err(e) => Err(e),
        }
    } else if c == 108u8 {
        match decode_list(b, pos + 1) {
            Ok((items, end)) => {
                let v = Value::List(items);
                assert(v@ == BValue::List(item_views(items@))) by {
                    assert(item_views(items@) =~= match v@ {
                        BValue::List(x) => x,
                        _ => Seq::empty(),
                    });
                }
                Ok((v, end))
            },
            Err(e) => Err(e),
        }
    } else if c == 100u8 {
        match decode_dict(b, pos + 1) {
            Ok((entries, end)) => {
                let v = Value::Dict(entries);
                assert(v@ == BValue::Dict(entry_views(entries@))) by {
                    assert(entry_views(entries@) =~= match v@ {
                        BValue::Dict(x) => x,
                        _ => Seq::empty(),
                    });
                }
                Ok((v, end))
            },
            Err(e) => Err(e),
        }
    } else {
        match decode_str(b, pos) {
            Ok((t, end)) => Ok((Value::Bytes(t), end)),
            Err(e) => Err(e),
        }
    }
}

#[verifier::rlimit(30)]
fn decode_list(b: &[u8], pos: usize) -> (r: Result<(Vec<Value>, usize), MalformedBencode>)
    requires
        pos <= b@.len(),
    ensures
        r matches Err(e) ==> e.position <= b@.len(),
        match parse_items(suffix(b@, pos as int)) {
            Some((items, n)) => r matches Ok((x, end)) && item_views(x@) == items && end == pos
                + n,
            None => r is Err,
        },
    decreases b@.len() - pos, 1nat,
{
    let mut items: Vec<Value> = Vec::new();
    let mut p: usize = pos;
    loop
        invariant
            pos <= p <= b@.len(),
            parse_items(suffix(b@, pos as int)) == match parse_items(suffix(b@, p as int)) {
                Some((rest, m)) => Some((item_views(items@) + rest, ((p - pos) + m) as nat)),
                None => None,
            },
        decreases b@.len() - p,
    {
        let ghost s = suffix(b@, p as int);
        if p >= b.len() {
            return Err(MalformedBencode { position: p, reason: DecodeFailure::UnexpectedEnd });
        }
        assert(s[0] == b@[p as int]);
        if b[p] == 101u8 {
            assert(item_views(items@) + Seq::<BValue>::empty() =~= item_views(items@));
            return Ok((items, p + 1));
        }
        match decode_value(b, p) {
            Err(e) => {
                return Err(e);
            },
            Ok((v, q)) => {
                proof {
                    lemma_parse_sound(s);
                    assert(s.subrange(q - p, s.len() as int) =~= suffix(b@, q as int));
                    let ghost before = item_views(items@);
                    assert(item_views(items@.push(v)) =~= before.push(v@));
                    if let Some((rest, m)) = parse_items(suffix(b@, q as int)) {
                        assert(before + (seq![v@] + rest) =~= before.push(v@) + rest);
                    }
                }
                items.push(v);
                p = q;
            },
        }
    }
}

#[verifier::rlimit(60)]
fn decode_dict(b: &[u8], pos: usize) -> (r: Result<
    (Vec<(Vec<u8>, Value)>, usize),
    MalformedBencode,
>)
    requires
        pos <= b@.len(),
    ensures
        r matches Err(e) ==> e.position <= b@.len(),
        match parse_entries(suffix(b@, pos as int), None) {
            Some((entries, n)) => r matches Ok((x, end)) && entry_views(x@) == entries && end
                == pos + n,
            None => r is Err,
        },
    decreases b@.len() - pos, 1nat,
{
    let mut entries: Vec<(Vec<u8>, Value)> = Vec::new();
    let mut p: usize = pos;
    loop
        invariant
            pos <= p <= b@.len(),
            parse_entries(suffix(b@, pos as int), None) == match parse_entries(
                suffix(b@, p as int),
                if entries@.len() == 0 {
                    None
                } else {
                    Some(entries@.last().0@)
                },
            ) {
                Some((rest, m)) => Some((entry_views(entries@) + rest, ((p - pos) + m) as nat)),
                None => None,
            },
        decreases b@.len() - p,
    {
        let ghost s = suffix(b@, p as int);
        let ghost prev = if entries@.len() == 0 {
            None
        } else {
            Some(entries@.last().0@)
        };
        if p >= b.len() {
            return Err(MalformedBencode { position: p, reason: DecodeFailure::UnexpectedEnd });
        }
        assert(s[0] == b@[p as int]);
        if b[p] == 101u8 {
            assert(entry_views(entries@) + Seq::<(Seq<u8>, BValue)>::empty() =~= entry_views(
                entries@,
            ));
            return Ok((entries, p + 1));
        }
        let (key, q) = match decode_str(b, p) {
            Err(e) => {
                return Err(e);
            },
            Ok(kq) => kq,
        };
        proof {
            lemma_parse_str_sound(s);
        }
        if entries.len() > 0 && !key_precedes(entries[entries.len() - 1].0.as_slice(), key.as_slice()) {
            return Err(MalformedBencode { position: p, reason: DecodeFailure::KeyOrder });
        }
        assert(s.subrange(q - p, s.len() as int) =~= suffix(b@, q as int));
        match decode_value(b, q) {
            Err(e) => {
                return Err(e);
            },
            Ok((v, q2)) => {
                proof {
                    lemma_parse_sound(suffix(b@, q as int));
                    assert(s.subrange(q2 - p, s.len() as int) =~= suffix(b@, q2 as int));
                    let ghost before = entry_views(entries@);
                    assert(entry_views(entries@.push((key, v))) =~= before.push((key@, v@)));
                    if let Some((rest, m)) = parse_entries(suffix(b@, q2 as int), Some(key@)) {
                        assert(before + (seq![(key@, v@)] + rest) =~= before.push((key@, v@))
                            + rest);
                    }
                }
                entries.push((key, v));
                p = q2;
            },
        }
    }
}

/// Decodes the value at the start of `b`, and hands back the bytes that follow it.
pub fn decode(b: &[u8]) -> (r: Result<(Value, &[u8]), MalformedBencode>)
    ensures
        match parse_value(b@) {
            Some((v, n)) => r matches Ok((x, rest)) && x@ == v && rest@ == b@.subrange(
                n as int,
                b@.len() as int,
            ),
            None => r is Err,
        },
        r matches Ok((x, rest)) ==> canonical(x@),
        r is Err ==> !exists|v: BValue, rest: Seq<u8>| canonical(v) && b@ == encoding(v) + rest,
        r matches Err(e) ==> e.position <= b@.len(),
{
    assert(suffix(b@, 0) =~= b@);
    proof {
        lemma_parse_sound(b@);
    }
    match decode_value(b, 0) {
        Ok((x, n)) => {
            let rest = &b[n..b.len()];
            assert(b@ =~= b@.subrange(0, n as int) + rest@);
            Ok((x, rest))
        },
        Err(e) => {
            assert forall|v: BValue, rest: Seq<u8>|
                canonical(v) implies b@ != encoding(v) + rest by {
                if b@ == encoding(v) + rest {
                    lemma_parse_encoding(v, rest);
                }
            }
            Err(e)
        },
    }
}

proof fn lemma_items_encoding_push(items: Seq<BValue>, x: BValue)
    ensures
        items_encoding(items.push(x)) == items_encoding(items) + encoding(x),
    decreases items.len(),
{
    if items.len() == 0 {
        assert(items.push(x).drop_first() =~= Seq::<BValue>::empty());
        assert(items.push(x)[0] == x);
        assert(items_encoding(Seq::<BValue>::empty()) == Seq::<u8>::empty());
        assert(items_encoding(items.push(x)) =~= items_encoding(items) + encoding(x));
    } else {
        assert(items.push(x).drop_first() =~= items.drop_first().push(x));
        assert(items.push(x)[0] == items[0]);
        lemma_items_encoding_push(items.drop_first(), x);
        assert(items_encoding(items.push(x)) =~= items_encoding(items) + encoding(x));
    }
}

proof fn lemma_entries_encoding_push(entries: Seq<(Seq<u8>, BValue)>, x: (Seq<u8>, BValue))
    ensures
        entries_encoding(entries.push(x)) == entries_encoding(entries) + str_encoding(x.0)
            + encoding(x.1),
    decreases entries.len(),
{
    if entries.len() == 0 {
        assert(entries.push(x).drop_first() =~= Seq::<(Seq<u8>, BValue)>::empty());
        assert(entries.push(x)[0] == x);
        assert(entries_encoding(Seq::<(Seq<u8>, BValue)>::empty()) == Seq::<u8>::empty());
        assert(entries_encoding(entries.push(x)) =~= entries_encoding(entries) + str_encoding(x.0)
            + encoding(x.1));
    } else {
        assert(entries.push(x).drop_first() =~= entries.drop_first().push(x));
        assert(entries.push(x)[0] == entries[0]);
        lemma_entries_encoding_push(entries.drop_first(), x);
        assert(entries_encoding(entries.push(x)) =~= entries_encoding(entries) + str_encoding(x.0)
            + encoding(x.1));
    }
}

/// Appends the bytes of `b`.
pub(crate) fn append_bytes(out: &mut Vec<u8>, b: &[u8])
    ensures
        final(out)@ == old(out)@ + b@,
{
    let mut k: usize = 0;
    while k < b.len()
        invariant
            k <= b@.len(),
            out@ == old(out)@ + b@.subrange(0, k as int),
        decreases b@.len() - k,
    {
        out.push(b[k]);
        k = k + 1;
        assert(out@ =~= old(out)@ + b@.subrange(0, k as int));
    }
    assert(b@.subrange(0, k as int) =~= b@);
}

fn encode_str(out: &mut Vec<u8>, b: &[u8])
    ensures
        final(out)@ == old(out)@ + str_encoding(b@),
{
    write_nat(out, b.len() as u64);
    out.push(58u8);
    append_bytes(out, b);
    assert(out@ =~= old(out)@ + str_encoding(b@));
}

// ---------------------------------------------------------------------------
// Key order on encode
/// `e` placed into `s` after the last entry whose key does not come after `e`'s key.
pub open spec fn insert_entry(s: Seq<(Seq<u8>, BValue)>, e: (Seq<u8>, BValue)) -> Seq<
    (Seq<u8>, BValue),
>
    decreases s.len(),
{
    if s.len() == 0 {
        seq![e]
    } else if key_less(e.0, s.last().0) {
        insert_entry(s.drop_last(), e).push(s.last())
    } else {
        s.push(e)
    }
}

/// The entries ordered by key, by insertion; entries with equal keys keep their order.
pub open spec fn sort_entries(s: Seq<(Seq<u8>, BValue)>) -> Seq<(Seq<u8>, BValue)>
    decreases s.len(),
{
    if s.len() == 0 {
        s
    } else {
        insert_entry(sort_entries(s.drop_last()), s.last())
    }
}

/// `v` with the entries of every dictionary, at every depth, ordered by key: the form in
/// which `encode` writes a value.
pub open spec fn canon(v: BValue) -> BValue
    decreases v,
{
    match v {
        BValue::List(items) => BValue::List(canon_items(items)),
        BValue::Dict(entries) => BValue::Dict(sort_entries(canon_entries(entries))),
        _ => v,
    }
}

pub open spec fn canon_items(items: Seq<BValue>) -> Seq<BValue>
    decreases items,
{
    Seq::new(
        items.len(),
        |k: int|
            if 0 <= k < items.len() {
                canon(items[k])
            } else {
                BValue::Int(0)
            },
    )
}

pub open spec fn canon_entries(entries: Seq<(Seq<u8>, BValue)>) -> Seq<(Seq<u8>, BValue)>
    decreases entries,
{
    Seq::new(
        entries.len(),
        |k: int|
            if 0 <= k < entries.len() {
                (entries[k].0, canon(entries[k].1))
            } else {
                (Seq::empty(), BValue::Int(0))
            },
    )
}

proof fn lemma_insert_at(s: Seq<(Seq<u8>, BValue)>, e: (Seq<u8>, BValue), pos: int)
    requires
        0 <= pos <= s.len(),
        forall|q: int| pos <= q < s.len() ==> key_less(e.0, #[trigger] s[q].0),
        pos == 0 || !key_less(e.0, s[pos - 1].0),
    ensures
        insert_entry(s, e) == s.subrange(0, pos) + seq![e] + s.subrange(pos, s.len() as int),
    decreases s.len(),
{
    if s.len() == pos {
        if s.len() > 0 {
            assert(s.last() == s[pos - 1]);
        }
        assert(s.push(e) =~= s.subrange(0, pos) + seq![e] + s.subrange(pos, s.len() as int));
    } else {
        assert(key_less(e.0, s[s.len() - 1].0));
        let d = s.drop_last();
        assert forall|q: int| pos <= q < d.len() implies key_less(e.0, #[trigger] d[q].0) by {
            assert(d[q] == s[q]);
        }
        if pos > 0 {
            assert(d[pos - 1] == s[pos - 1]);
        }
        lemma_insert_at(d, e, pos);
        assert(insert_entry(d, e).push(s.last()) =~= s.subrange(0, pos) + seq![e] + s.subrange(
            pos,
            s.len() as int,
        ));
    }
}

/// Appends the bencode text of `v`, with dictionary keys in ascending order.
pub fn encode_into(v: &Value, out: &mut Vec<u8>)
    ensures
        final(out)@ == old(out)@ + encoding(canon(v@)),
    decreases v,
{
    match v {
        Value::Integer(i) => {
            out.push(105u8);
            write_int(out, *i);
            out.push(101u8);
            assert(out@ =~= old(out)@ + encoding(canon(v@)));
        },
        Value::Bytes(b) => {
            encode_str(out, b.as_slice());
        },
        Value::List(items) => {
            let ghost cs = Seq::new(items@.len(), |j: int| canon(items@[j]@));
            out.push(108u8);
            let ghost start = out@;
            let mut k: usize = 0;
            while k < items.len()
                invariant
                    k <= items@.len(),
                    *v == Value::List(*items),
                    cs == Seq::new(items@.len(), |j: int| canon(items@[j]@)),
                    out@ == start + items_encoding(cs.subrange(0, k as int)),
                decreases items@.len() - k,
            {
                proof {
                    vstd::std_specs::vec::axiom_vec_index_decreases(*items, k as int);
                    assert(decreases_to!(*v => v->List_0));
                }
                encode_into(&items[k], out);
                proof {
                    lemma_items_encoding_push(cs.subrange(0, k as int), cs[k as int]);
                    assert(cs.subrange(0, k + 1) =~= cs.subrange(0, k as int).push(cs[k as int]));
                }
                k = k + 1;
            }
            out.push(101u8);
            assert(cs.subrange(0, k as int) =~= match canon(v@) {
                BValue::List(x) => x,
                _ => Seq::empty(),
            });
            assert(out@ =~= old(out)@ + encoding(canon(v@)));
        },
        Value::Dict(entries) => {
            let ghost es = Seq::new(
                entries@.len(),
                |j: int| (entries@[j].0@, canon(entries@[j].1@)),
            );
            // Order the entries by key, by insertion.
            let mut order: Vec<usize> = Vec::new();
            let mut i: usize = 0;
            while i < entries.len()
                invariant
                    i <= entries@.len(),
                    es == Seq::new(
                        entries@.len(),
                        |j: int| (entries@[j].0@, canon(entries@[j].1@)),
                    ),
                    order@.len() == i,
                    forall|j: int| 0 <= j < i ==> #[trigger] order@[j] < i,
                    Seq::new(i as nat, |j: int| es[order@[j] as int]) == sort_entries(
                        es.subrange(0, i as int),
                    ),
                decreases entries@.len() - i,
            {
                let ghost sorted = Seq::new(i as nat, |j: int| es[order@[j] as int]);
                let mut pos: usize = order.len();
                while pos > 0 && key_precedes(
                    entries[i].0.as_slice(),
                    entries[order[pos - 1]].0.as_slice(),
                )
                    invariant
                        pos <= order@.len(),
                        i < entries@.len(),
                        es == Seq::new(
                        entries@.len(),
                        |j: int| (entries@[j].0@, canon(entries@[j].1@)),
                    ),
                        order@.len() == i,
                        forall|j: int| 0 <= j < i ==> #[trigger] order@[j] < i,
                        sorted == Seq::new(i as nat, |j: int| es[order@[j] as int]),
                        forall|q: int|
                            pos <= q < sorted.len() ==> key_less(es[i as int].0, #[trigger] sorted[q].0),
                    decreases pos,
                {
                    pos = pos - 1;
                }
                proof {
                    lemma_insert_at(sorted, es[i as int], pos as int);
                    assert(es.subrange(0, i + 1).drop_last() =~= es.subrange(0, i as int));
                    assert(es.subrange(0, i + 1).last() == es[i as int]);
                }
                let ghost before = order@;
                order.insert(pos, i);
                proof {
                    assert forall|j: int| 0 <= j < i + 1 implies #[trigger] order@[j] < i + 1 by {
                        if j < pos {
                            assert(order@[j] == before[j]);
                        } else if j > pos {
                            assert(order@[j] == before[j - 1]);
                        }
                    }
                    assert(Seq::new((i + 1) as nat, |j: int| es[order@[j] as int]) =~= sorted.subrange(
                        0,
                        pos as int,
                    ) + seq![es[i as int]] + sorted.subrange(pos as int, sorted.len() as int));
                }
                i = i + 1;
            }
            let ghost ordered = Seq::new(order@.len(), |j: int| es[order@[j] as int]);
            assert(es.subrange(0, i as int) =~= es);
            assert(ordered == sort_entries(es));
            out.push(100u8);
            let ghost start = out@;
            let mut k: usize = 0;
            while k < order.len()
                invariant
                    k <= order@.len(),
                    order@.len() == entries@.len(),
                    forall|j: int| 0 <= j < order@.len() ==> #[trigger] order@[j] < entries@.len(),
                    *v == Value::Dict(*entries),
                    es == Seq::new(
                        entries@.len(),
                        |j: int| (entries@[j].0@, canon(entries@[j].1@)),
                    ),
                    ordered == Seq::new(order@.len(), |j: int| es[order@[j] as int]),
                    out@ == start + entries_encoding(ordered.subrange(0, k as int)),
                decreases order@.len() - k,
            {
                let at = order[k];
                assert(at < entries@.len());
                encode_str(out, entries[at].0.as_slice());
                proof {
                    vstd::std_specs::vec::axiom_vec_index_decreases(*entries, at as int);
                    assert(decreases_to!(*v => v->Dict_0));
                    assert(decreases_to!(entries[at as int] => entries[at as int].1));
                }
                encode_into(&entries[at].1, out);
                proof {
                    lemma_entries_encoding_push(ordered.subrange(0, k as int), ordered[k as int]);
                    assert(ordered.subrange(0, k + 1) =~= ordered.subrange(0, k as int).push(
                        ordered[k as int],
                    ));
                }
                k = k + 1;
            }
            out.push(101u8);
            let ghost x = match v@ {
                BValue::Dict(x) => x,
                _ => Seq::empty(),
            };
            assert(x =~= entry_views(entries@));
            let ghost m = canon_entries(x);
            assert(m =~= es);
            assert(canon(v@) == BValue::Dict(sort_entries(m)));
            assert(ordered.subrange(0, k as int) =~= ordered);
            assert(out@ =~= old(out)@ + encoding(canon(v@)));
        },
    }
}

/// The canonical bencode text of `v`: dictionary keys in ascending order.
pub fn encode(v: &Value) -> (r: Vec<u8>)
    ensures
        r@ == encoding(canon(v@)),
{
    let mut out: Vec<u8> = Vec::new();
    encode_into(v, &mut out);
    assert(out@ =~= encoding(canon(v@)));
    out
}

pub proof fn lemma_key_less_asymmetric(a: Seq<u8>, b: Seq<u8>)
    requires
        key_less(a, b),
    ensures
        !key_less(b, a),
    decreases a.len(),
{
    if a.len() > 0 && b.len() > 0 && a[0] == b[0] {
        lemma_key_less_asymmetric(a.drop_first(), b.drop_first());
    }
}

proof fn lemma_entries_canonical_prefix(es: Seq<(Seq<u8>, BValue)>)
    requires
        entries_canonical(es),
        es.len() > 0,
    ensures
        entries_canonical(es.drop_last()),
        es.len() >= 2 ==> key_less(es[es.len() - 2].0, es[es.len() - 1].0),
        forall|i: int| 0 <= i < es.len() ==> canonical(#[trigger] es[i].1),
    decreases es.len(),
{
    if es.len() > 1 {
        let t = es.drop_first();
        lemma_entries_canonical_prefix(t);
        assert(es.drop_last().drop_first() =~= t.drop_last());
        assert(es.drop_last()[0] == es[0]);
        if es.len() > 2 {
            assert(es.drop_last()[1] == es[1]);
        }
        assert forall|i: int| 0 <= i < es.len() implies canonical(#[trigger] es[i].1) by {
            if i > 0 {
                assert(es[i] == t[i - 1]);
            }
        }
        if es.len() > 2 {
            assert(t[t.len() - 2] == es[es.len() - 2]);
        }
    } else {
        assert(es.drop_last() =~= Seq::<(Seq<u8>, BValue)>::empty());
    }
}

proof fn lemma_items_canonical_each(items: Seq<BValue>)
    requires
        items_canonical(items),
    ensures
        forall|i: int| 0 <= i < items.len() ==> canonical(#[trigger] items[i]),
    decreases items.len(),
{
    if items.len() > 0 {
        lemma_items_canonical_each(items.drop_first());
        assert forall|i: int| 0 <= i < items.len() implies canonical(#[trigger] items[i]) by {
            if i > 0 {
                assert(items[i] == items.drop_first()[i - 1]);
            }
        }
    }
}

proof fn lemma_sorted_fixed(es: Seq<(Seq<u8>, BValue)>)
    requires
        entries_canonical(es),
    ensures
        sort_entries(es) == es,
    decreases es.len(),
{
    if es.len() > 0 {
        lemma_entries_canonical_prefix(es);
        let d = es.drop_last();
        lemma_sorted_fixed(d);
        if d.len() > 0 {
            assert(d.last() == es[es.len() - 2]);
            lemma_key_less_asymmetric(es[es.len() - 2].0, es[es.len() - 1].0);
            assert(d.push(es.last()) =~= es);
        } else {
            assert(seq![es.last()] =~= es);
        }
    }
}

/// `encode` writes a canonical value as it stands: its dictionaries are already in key order.
pub proof fn law_canonical_unchanged(v: BValue)
    requires
        canonical(v),
    ensures
        canon(v) == v,
    decreases v,
{
    match v {
        BValue::List(items) => {
            lemma_items_canonical_each(items);
            assert forall|k: int| 0 <= k < items.len() implies canon(items[k]) == items[k] by {
                law_canonical_unchanged(items[k]);
            }
            assert(canon_items(items) =~= items);
            assert(canon(v) == BValue::List(items));
        },
        BValue::Dict(entries) => {
            let mapped = canon_entries(entries);
            if entries.len() > 0 {
                lemma_entries_canonical_prefix(entries);
            }
            assert forall|k: int| 0 <= k < entries.len() implies canon(entries[k].1)
                == entries[k].1 by {
                law_canonical_unchanged(entries[k].1);
            }
            assert(mapped =~= entries);
            lemma_sorted_fixed(entries);
            assert(canon(v) == BValue::Dict(sort_entries(mapped)));
        },
        _ => {},
    }
}

/// Encoding a canonical value and decoding the result gives the value back, consuming
/// exactly the encoding.
pub proof fn law_decode_encode(v: BValue)
    requires
        canonical(v),
    ensures
        parse_value(encoding(v)) == Some((v, encoding(v).len())),
{
    lemma_parse_encoding(v, Seq::empty());
    assert(encoding(v) + Seq::<u8>::empty() =~= encoding(v));
}

/// A canonical byte sequence, the encoding of a canonical value, decodes in full, and
/// encoding what it decodes to gives the same bytes back.
pub proof fn law_encode_decode(v: BValue, b: Seq<u8>)
    requires
        canonical(v),
        b == encoding(v),
    ensures
        parse_value(b) matches Some((w, n)) && n == b.len() && encoding(canon(w)) == b,
{
    law_decode_encode(v);
    law_canonical_unchanged(v);
}

// ---------------------------------------------------------------------------
// Encoding any value whose keys are distinct
/// Integers fit in 64 signed bits and no dictionary, at any depth, holds a key twice.
pub open spec fn encodable(v: BValue) -> bool
    decreases v,
{
    match v {
        BValue::Int(i) => i64::MIN <= i <= i64::MAX,
        BValue::List(items) => items_distinct(items),
        BValue::Dict(entries) => {
            &&& forall|i: int, j: int|
                0 <= i < j < entries.len() ==> #[trigger] entries[i].0 != #[trigger] entries[j].0
            &&& entries_distinct(entries)
        },
        _ => true,
    }
}

pub open spec fn items_distinct(items: Seq<BValue>) -> bool
    decreases items,
{
    items.len() == 0 || (encodable(items[0]) && items_distinct(items.drop_first()))
}

pub open spec fn entries_distinct(entries: Seq<(Seq<u8>, BValue)>) -> bool
    decreases entries,
{
    entries.len() == 0 || (encodable(entries[0].1) && entries_distinct(entries.drop_first()))
}

/// Keys in strictly ascending order, each next to the one after it.
pub open spec fn keys_ascending(s: Seq<(Seq<u8>, BValue)>) -> bool {
    forall|i: int| 0 <= i < s.len() - 1 ==> key_less(#[trigger] s[i].0, s[i + 1].0)
}

proof fn lemma_key_less_total(a: Seq<u8>, b: Seq<u8>)
    requires
        a != b,
    ensures
        key_less(a, b) || key_less(b, a),
    decreases a.len(),
{
    if a.len() > 0 && b.len() > 0 && a[0] == b[0] {
        if a.drop_first() == b.drop_first() {
            assert(a =~= seq![a[0]] + a.drop_first());
            assert(b =~= seq![b[0]] + b.drop_first());
        }
        lemma_key_less_total(a.drop_first(), b.drop_first());
    } else if a.len() == 0 && b.len() == 0 {
        assert(a =~= b);
    }
}

proof fn lemma_insert_entry(s: Seq<(Seq<u8>, BValue)>, e: (Seq<u8>, BValue))
    requires
        keys_ascending(s),
        forall|i: int| 0 <= i < s.len() ==> (#[trigger] s[i]).0 != e.0,
    ensures
        keys_ascending(insert_entry(s, e)),
        insert_entry(s, e).len() == s.len() + 1,
        insert_entry(s, e).to_set() == s.to_set().insert(e),
        insert_entry(s, e).last() == e || (s.len() > 0 && insert_entry(s, e).last() == s.last()),
    decreases s.len(),
{
    if s.len() == 0 {
        assert(seq![e].to_set() =~= s.to_set().insert(e)) by {
            assert(seq![e][0] == e);
        }
    } else if key_less(e.0, s.last().0) {
        let d = s.drop_last();
        assert forall|i: int| 0 <= i < d.len() - 1 implies key_less(#[trigger] d[i].0, d[i + 1].0) by {
            assert(d[i] == s[i] && d[i + 1] == s[i + 1]);
        }
        assert forall|i: int| 0 <= i < d.len() implies (#[trigger] d[i]).0 != e.0 by {
            assert(d[i] == s[i]);
        }
        lemma_insert_entry(d, e);
        let m = insert_entry(d, e);
        let r = m.push(s.last());
        if d.len() > 0 {
            assert(d.last() == s[s.len() - 2]);
        }
        assert(key_less(m.last().0, s.last().0));
        assert forall|i: int| 0 <= i < r.len() - 1 implies key_less(#[trigger] r[i].0, r[i + 1].0) by {
            if i < m.len() - 1 {
                assert(r[i] == m[i] && r[i + 1] == m[i + 1]);
            } else {
                assert(r[i] == m.last());
            }
        }
        assert(s.to_set() =~= d.to_set().insert(s.last())) by {
            assert forall|x| s.to_set().contains(x) implies d.to_set().insert(s.last()).contains(x) by {
                let i = choose|i: int| 0 <= i < s.len() && s[i] == x;
                if i < d.len() {
                    assert(d[i] == x);
                }
            }
            assert forall|x| d.to_set().insert(s.last()).contains(x) implies s.to_set().contains(x) by {
                if x != s.last() {
                    let i = choose|i: int| 0 <= i < d.len() && d[i] == x;
                    assert(s[i] == x);
                } else {
                    assert(s[s.len() - 1] == x);
                }
            }
        }
        assert(r.to_set() =~= m.to_set().insert(s.last())) by {
            assert forall|x| r.to_set().contains(x) implies m.to_set().insert(s.last()).contains(x) by {
                let i = choose|i: int| 0 <= i < r.len() && r[i] == x;
                if i < m.len() {
                    assert(m[i] == x);
                }
            }
            assert forall|x| m.to_set().insert(s.last()).contains(x) implies r.to_set().contains(x) by {
                if x != s.last() {
                    let i = choose|i: int| 0 <= i < m.len() && m[i] == x;
                    assert(r[i] == x);
                } else {
                    assert(r[r.len() - 1] == x);
                }
            }
        }
        assert(r.to_set() =~= s.to_set().insert(e));
    } else {
        assert(s.last() == s[s.len() - 1]);
        lemma_key_less_total(e.0, s.last().0);
        let r = s.push(e);
        assert forall|i: int| 0 <= i < r.len() - 1 implies key_less(#[trigger] r[i].0, r[i + 1].0) by {
            if i < s.len() - 1 {
                assert(r[i] == s[i] && r[i + 1] == s[i + 1]);
            } else {
                assert(r[i] == s.last() && r[i + 1] == e);
            }
        }
        assert(r.to_set() =~= s.to_set().insert(e)) by {
            assert forall|x| r.to_set().contains(x) implies s.to_set().insert(e).contains(x) by {
                let i = choose|i: int| 0 <= i < r.len() && r[i] == x;
                if i < s.len() {
                    assert(s[i] == x);
                }
            }
            assert forall|x| s.to_set().insert(e).contains(x) implies r.to_set().contains(x) by {
                if x != e {
                    let i = choose|i: int| 0 <= i < s.len() && s[i] == x;
                    assert(r[i] == x);
                } else {
                    assert(r[r.len() - 1] == x);
                }
            }
        }
    }
}

pub proof fn lemma_sort_entries(s: Seq<(Seq<u8>, BValue)>)
    requires
        forall|i: int, j: int| 0 <= i < j < s.len() ==> #[trigger] s[i].0 != #[trigger] s[j].0,
    ensures
        keys_ascending(sort_entries(s)),
        sort_entries(s).len() == s.len(),
        sort_entries(s).to_set() == s.to_set(),
    decreases s.len(),
{
    if s.len() == 0 {
        assert(sort_entries(s) == s);
    } else {
        let d = s.drop_last();
        assert forall|i: int, j: int| 0 <= i < j < d.len() implies #[trigger] d[i].0
            != #[trigger] d[j].0 by {
            assert(d[i] == s[i] && d[j] == s[j]);
        }
        lemma_sort_entries(d);
        let r = sort_entries(d);
        assert forall|i: int| 0 <= i < r.len() implies (#[trigger] r[i]).0 != s.last().0 by {
            assert(r.to_set().contains(r[i]));
            let j = choose|j: int| 0 <= j < d.len() && d[j] == r[i];
            assert(s[j] == d[j] && s[s.len() - 1] == s.last());
        }
        lemma_insert_entry(r, s.last());
        assert(s.to_set() =~= d.to_set().insert(s.last())) by {
            assert forall|x| s.to_set().contains(x) implies d.to_set().insert(s.last()).contains(x) by {
                let i = choose|i: int| 0 <= i < s.len() && s[i] == x;
                if i < d.len() {
                    assert(d[i] == x);
                }
            }
            assert forall|x| d.to_set().insert(s.last()).contains(x) implies s.to_set().contains(x) by {
                if x != s.last() {
                    let i = choose|i: int| 0 <= i < d.len() && d[i] == x;
                    assert(s[i] == x);
                } else {
                    assert(s[s.len() - 1] == x);
                }
            }
        }
    }
}

proof fn lemma_ascending_canonical(s: Seq<(Seq<u8>, BValue)>)
    requires
        keys_ascending(s),
        forall|i: int| 0 <= i < s.len() ==> canonical(#[trigger] s[i].1),
    ensures
        entries_canonical(s),
    decreases s.len(),
{
    if s.len() > 0 {
        let t = s.drop_first();
        assert forall|i: int| 0 <= i < t.len() - 1 implies key_less(#[trigger] t[i].0, t[i + 1].0) by {
            assert(t[i] == s[i + 1] && t[i + 1] == s[i + 2]);
        }
        assert forall|i: int| 0 <= i < t.len() implies canonical(#[trigger] t[i].1) by {
            assert(t[i] == s[i + 1]);
        }
        lemma_ascending_canonical(t);
        assert(canonical(s[0].1));
        if s.len() > 1 {
            assert(key_less(s[0].0, s[1].0));
        }
    }
}

proof fn lemma_items_from_each(items: Seq<BValue>)
    requires
        forall|i: int| 0 <= i < items.len() ==> canonical(#[trigger] items[i]),
    ensures
        items_canonical(items),
    decreases items.len(),
{
    if items.len() > 0 {
        let t = items.drop_first();
        assert forall|i: int| 0 <= i < t.len() implies canonical(#[trigger] t[i]) by {
            assert(t[i] == items[i + 1]);
        }
        lemma_items_from_each(t);
        assert(canonical(items[0]));
    }
}

proof fn lemma_items_distinct_each(items: Seq<BValue>)
    requires
        items_distinct(items),
    ensures
        forall|i: int| 0 <= i < items.len() ==> encodable(#[trigger] items[i]),
    decreases items.len(),
{
    if items.len() > 0 {
        lemma_items_distinct_each(items.drop_first());
        assert forall|i: int| 0 <= i < items.len() implies encodable(#[trigger] items[i]) by {
            if i > 0 {
                assert(items[i] == items.drop_first()[i - 1]);
            }
        }
    }
}

proof fn lemma_entries_distinct_each(entries: Seq<(Seq<u8>, BValue)>)
    requires
        entries_distinct(entries),
    ensures
        forall|i: int| 0 <= i < entries.len() ==> encodable(#[trigger] entries[i].1),
    decreases entries.len(),
{
    if entries.len() > 0 {
        lemma_entries_distinct_each(entries.drop_first());
        assert forall|i: int| 0 <= i < entries.len() implies encodable(
            #[trigger] entries[i].1,
        ) by {
            if i > 0 {
                assert(entries[i] == entries.drop_first()[i - 1]);
            }
        }
    }
}

/// A value whose dictionaries hold each key once becomes canonical when `encode` orders
/// its keys.
pub proof fn lemma_canon_canonical(v: BValue)
    requires
        encodable(v),
    ensures
        canonical(canon(v)),
    decreases v,
{
    match v {
        BValue::List(items) => {
            lemma_items_distinct_each(items);
            let c = canon_items(items);
            assert forall|k: int| 0 <= k < c.len() implies canonical(#[trigger] c[k]) by {
                lemma_canon_canonical(items[k]);
            }
            lemma_items_from_each(c);
        },
        BValue::Dict(entries) => {
            lemma_entries_distinct_each(entries);
            let c = canon_entries(entries);
            assert forall|i: int, j: int| 0 <= i < j < c.len() implies #[trigger] c[i].0
                != #[trigger] c[j].0 by {
                assert(c[i].0 == entries[i].0 && c[j].0 == entries[j].0);
            }
            lemma_sort_entries(c);
            let r = sort_entries(c);
            assert forall|i: int| 0 <= i < r.len() implies canonical(#[trigger] r[i].1) by {
                assert(r.to_set().contains(r[i]));
                assert(c.to_set().contains(r[i]));
                let j = choose|j: int| 0 <= j < c.len() && c[j] == r[i];
                lemma_canon_canonical(entries[j].1);
            }
            lemma_ascending_canonical(r);
        },
        _ => {},
    }
}

/// Encoding any value whose dictionaries hold each key once and decoding the result gives
/// the value back with its dictionaries in key order, consuming exactly the encoding.
pub proof fn law_decode_encode_ordered(v: BValue)
    requires
        encodable(v),
    ensures
        parse_value(encoding(canon(v))) == Some((canon(v), encoding(canon(v)).len())),
{
    lemma_canon_canonical(v);
    law_decode_encode(canon(v));
}

/// A copy of `v`.
pub fn copy_value(v: &Value) -> (r: Value)
    ensures
        r@ == v@,
    decreases v,
{
    match v {
        Value::Integer(i) => Value::Integer(*i),
        Value::Bytes(b) => {
            let c = copy_range(b.as_slice(), 0, b.len());
            assert(c@ =~= b@);
            Value::Bytes(c)
        },
        Value::List(items) => {
            let mut out: Vec<Value> = Vec::new();
            let mut k: usize = 0;
            while k < items.len()
                invariant
                    k <= items@.len(),
                    *v == Value::List(*items),
                    item_views(out@) == item_views(items@.subrange(0, k as int)),
                decreases items@.len() - k,
            {
                proof {
                    vstd::std_specs::vec::axiom_vec_index_decreases(*items, k as int);
                    assert(decreases_to!(*v => v->List_0));
                }
                let c = copy_value(&items[k]);
                let ghost before = out@;
                out.push(c);
                assert(item_views(out@) =~= item_views(before).push(c@));
                assert(item_views(items@.subrange(0, k + 1)) =~= item_views(
                    items@.subrange(0, k as int),
                ).push(items@[k as int]@));
                k = k + 1;
            }
            assert(items@.subrange(0, k as int) =~= items@);
            let r = Value::List(out);
            assert(item_views(out@) =~= match r@ {
                BValue::List(x) => x,
                _ => Seq::empty(),
            });
            assert(item_views(items@) =~= match v@ {
                BValue::List(x) => x,
                _ => Seq::empty(),
            });
            r
        },
        Value::Dict(entries) => {
            let mut out: Vec<(Vec<u8>, Value)> = Vec::new();
            let mut k: usize = 0;
            while k < entries.len()
                invariant
                    k <= entries@.len(),
                    *v == Value::Dict(*entries),
                    entry_views(out@) == entry_views(entries@.subrange(0, k as int)),
                decreases entries@.len() - k,
            {
                proof {
                    vstd::std_specs::vec::axiom_vec_index_decreases(*entries, k as int);
                    assert(decreases_to!(*v => v->Dict_0));
                    assert(decreases_to!(entries[k as int] => entries[k as int].1));
                }
                let key = copy_range(entries[k].0.as_slice(), 0, entries[k].0.len());
                assert(key@ =~= entries@[k as int].0@);
                let c = copy_value(&entries[k].1);
                let ghost before = out@;
                out.push((key, c));
                assert(entry_views(out@) =~= entry_views(before).push((key@, c@)));
                assert(entry_views(entries@.subrange(0, k + 1)) =~= entry_views(
                    entries@.subrange(0, k as int),
                ).push((entries@[k as int].0@, entries@[k as int].1@)));
                k = k + 1;
            }
            assert(entries@.subrange(0, k as int) =~= entries@);
            let r = Value::Dict(out);
            assert(entry_views(out@) =~= match r@ {
                BValue::Dict(x) => x,
                _ => Seq::empty(),
            });
            assert(entry_views(entries@) =~= match v@ {
                BValue::Dict(x) => x,
                _ => Seq::empty(),
            });
            r
        },
    }
}

proof fn lemma_key_less_transitive(a: Seq<u8>, b: Seq<u8>, c: Seq<u8>)
    requires
        key_less(a, b),
        key_less(b, c),
    ensures
        key_less(a, c),
    decreases a.len(),
{
    if a.len() > 0 && b.len() > 0 && c.len() > 0 && a[0] == b[0] && b[0] == c[0] {
        lemma_key_less_transitive(a.drop_first(), b.drop_first(), c.drop_first());
    }
}

/// In a sequence whose neighbouring keys ascend, every key comes before every later one.
pub proof fn lemma_ascending_everywhere(s: Seq<(Seq<u8>, BValue)>, i: int, j: int)
    requires
        keys_ascending(s),
        0 <= i < j < s.len(),
    ensures
        key_less(s[i].0, s[j].0),
    decreases j - i,
{
    if j > i + 1 {
        lemma_ascending_everywhere(s, i, j - 1);
        assert(key_less(s[j - 1].0, s[j].0));
        lemma_key_less_transitive(s[i].0, s[j - 1].0, s[j].0);
    }
}

/// Two sequences whose keys ascend and that hold the same entries are equal.
pub proof fn lemma_ascending_unique(a: Seq<(Seq<u8>, BValue)>, b: Seq<(Seq<u8>, BValue)>)
    requires
        keys_ascending(a),
        keys_ascending(b),
        a.to_set() == b.to_set(),
    ensures
        a == b,
    decreases a.len(),
{
    if a.len() == 0 {
        if b.len() > 0 {
            assert(b.to_set().contains(b[0]));
        }
        assert(a =~= b);
    } else if b.len() == 0 {
        assert(a.to_set().contains(a[0]));
    } else {
        let x = a.last();
        let y = b.last();
        assert(a.to_set().contains(x)) by {
            assert(a[a.len() - 1] == x);
        }
        assert(b.to_set().contains(y)) by {
            assert(b[b.len() - 1] == y);
        }
        let i = choose|i: int| 0 <= i < b.len() && b[i] == x;
        let j = choose|j: int| 0 <= j < a.len() && a[j] == y;
        if x != y {
            if i < b.len() - 1 {
                lemma_ascending_everywhere(b, i, b.len() - 1);
            }
            if j < a.len() - 1 {
                lemma_ascending_everywhere(a, j, a.len() - 1);
            }
            lemma_key_less_asymmetric(x.0, y.0);
        }
        let da = a.drop_last();
        let db = b.drop_last();
        assert forall|k: int| 0 <= k < da.len() - 1 implies key_less(#[trigger] da[k].0, da[k + 1].0) by {
            assert(da[k] == a[k] && da[k + 1] == a[k + 1]);
        }
        assert forall|k: int| 0 <= k < db.len() - 1 implies key_less(#[trigger] db[k].0, db[k + 1].0) by {
            assert(db[k] == b[k] && db[k + 1] == b[k + 1]);
        }
        assert(da.to_set() =~= db.to_set()) by {
            assert forall|z| da.to_set().contains(z) implies db.to_set().contains(z) by {
                let k = choose|k: int| 0 <= k < da.len() && da[k] == z;
                lemma_ascending_everywhere(a, k, a.len() - 1);
                assert(a[k] == z);
                assert(b.to_set().contains(z));
                let m = choose|m: int| 0 <= m < b.len() && b[m] == z;
                if m == b.len() - 1 {
                    assert(z == y);
                    lemma_key_less_asymmetric(z.0, x.0);
                }
                assert(db[m] == z);
            }
            assert forall|z| db.to_set().contains(z) implies da.to_set().contains(z) by {
                let k = choose|k: int| 0 <= k < db.len() && db[k] == z;
                lemma_ascending_everywhere(b, k, b.len() - 1);
                assert(b[k] == z);
                assert(a.to_set().contains(z));
                let m = choose|m: int| 0 <= m < a.len() && a[m] == z;
                if m == a.len() - 1 {
                    assert(z == x);
                    lemma_key_less_asymmetric(z.0, y.0);
                }
                assert(da[m] == z);
            }
        }
        lemma_ascending_unique(da, db);
        assert(a =~= da.push(x));
        assert(b =~= db.push(y));
    }
}

} // verus!
