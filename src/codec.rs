use vstd::prelude::*;
use vstd::utf8::{decode_utf8, encode_utf8, valid_utf8};

use crate::model::{Call, CallView};

verus! {

broadcast use {vstd::utf8::encode_utf8_valid_utf8, vstd::utf8::encode_utf8_decode_utf8};

/// The receive buffer of every role: an encoded call must fit in it.
pub const MAX_DATAGRAM: usize = 1024;

/// Why a call could not be encoded.
#[derive(Debug, Clone, Copy, PartialEq, Eq, Structural)]
pub enum EncodeError {
    /// The encoded call would not fit in one datagram.
    TooLarge,
}

/// Why bytes could not be decoded as a call.
#[derive(Debug, Clone, Copy, PartialEq, Eq, Structural)]
pub enum DecodeError {
    /// The bytes are no call of any known variant.
    Malformed,
    /// The bytes open a call but stop before it is complete.
    Truncated,
}

/// The two-character escape that stands for a byte, if it has one.
pub open spec fn short_escape(b: u8) -> Option<u8> {
    if b == 34 {
        Some(34u8)  // \"
    } else if b == 92 {
        Some(92u8)  // \\
    } else if b == 8 {
        Some(98u8)  // \b
    } else if b == 9 {
        Some(116u8)  // \t
    } else if b == 10 {
        Some(110u8)  // \n
    } else if b == 12 {
        Some(102u8)  // \f
    } else if b == 13 {
        Some(114u8)  // \r
    } else {
        None
    }
}

/// The byte that a two-character escape stands for, if it is one.
pub open spec fn short_unescape(c: u8) -> Option<u8> {
    if c == 34 {
        Some(34u8)
    } else if c == 92 {
        Some(92u8)
    } else if c == 98 {
        Some(8u8)
    } else if c == 116 {
        Some(9u8)
    } else if c == 110 {
        Some(10u8)
    } else if c == 102 {
        Some(12u8)
    } else if c == 114 {
        Some(13u8)
    } else {
        None
    }
}

/// A lowercase hexadecimal digit.
pub open spec fn hex(d: u8) -> u8 {
    if d < 10 {
        (48 + d) as u8
    } else {
        (87 + d) as u8
    }
}

pub open spec fn is_hex(c: u8) -> bool {
    (48 <= c <= 57) || (97 <= c <= 102)
}

pub open spec fn hex_value(c: u8) -> u8 {
    if c <= 57 {
        (c - 48) as u8
    } else {
        (c - 87) as u8
    }
}

/// How one byte of a string's UTF-8 form is written inside a JSON string.
pub open spec fn esc_byte(b: u8) -> Seq<u8> {
    match short_escape(b) {
        Some(c) => seq![92u8, c],
        None => if b < 32 {
            seq![92u8, 117u8, 48u8, 48u8, hex(b / 16), hex(b % 16)]
        } else {
            seq![b]
        },
    }
}

/// A byte string written inside a JSON string.
pub open spec fn escape(s: Seq<u8>) -> Seq<u8>
    decreases s.len(),
{
    if s.len() == 0 {
        Seq::empty()
    } else {
        esc_byte(s[0]) + escape(s.drop_first())
    }
}

/// Reads the escapes of a JSON string body back; a byte that opens no escape stands for itself.
pub open spec fn unesc(t: Seq<u8>) -> Seq<u8>
    decreases t.len(),
{
    if t.len() == 0 {
        Seq::empty()
    } else if t[0] == 92 && t.len() >= 2 && short_unescape(t[1]) is Some {
        seq![short_unescape(t[1])->0] + unesc(t.subrange(2, t.len() as int))
    } else if t[0] == 92 && t.len() >= 6 && t[1] == 117 && t[2] == 48 && t[3] == 48 && is_hex(t[4])
        && is_hex(t[5]) {
        seq![(hex_value(t[4]) * 16 + hex_value(t[5])) as u8] + unesc(t.subrange(6, t.len() as int))
    } else {
        seq![t[0]] + unesc(t.subrange(1, t.len() as int))
    }
}

/// The decimal digits of a number, without leading zeros.
pub open spec fn dec(n: nat) -> Seq<u8>
    decreases n,
{
    if n < 10 {
        seq![(48 + n) as u8]
    } else {
        dec(n / 10).push((48 + n % 10) as u8)
    }
}

/// The number that a string of decimal digits writes.
pub open spec fn digits_value(s: Seq<u8>) -> nat
    decreases s.len(),
{
    if s.len() == 0 {
        0
    } else {
        digits_value(s.drop_last()) * 10 + (s.last() - 48) as nat
    }
}

pub open spec fn is_digit(b: u8) -> bool {
    48 <= b <= 57
}

/// `{"Name":{"name":"`
pub open spec fn name_head() -> Seq<u8> {
    seq![123u8, 34, 78, 97, 109, 101, 34, 58, 123, 34, 110, 97, 109, 101, 34, 58, 34]
}

/// `{"Location":{"location":"`
pub open spec fn location_head() -> Seq<u8> {
    seq![
        123u8, 34, 76, 111, 99, 97, 116, 105, 111, 110, 34, 58, 123, 34, 108, 111, 99, 97, 116,
        105, 111, 110, 34, 58, 34,
    ]
}

/// `{"Year":{"location":"`
pub open spec fn year_head() -> Seq<u8> {
    seq![123u8, 34, 89, 101, 97, 114, 34, 58, 123, 34, 108, 111, 99, 97, 116, 105, 111, 110, 34, 58, 34]
}

/// `","year":`
pub open spec fn year_mid() -> Seq<u8> {
    seq![34u8, 44, 34, 121, 101, 97, 114, 34, 58]
}

/// `"}}`
pub open spec fn string_close() -> Seq<u8> {
    seq![34u8, 125, 125]
}

/// `}}`
pub open spec fn close() -> Seq<u8> {
    seq![125u8, 125]
}

/// A string as it stands between the quotes of a JSON string.
pub open spec fn text(s: Seq<char>) -> Seq<u8> {
    escape(encode_utf8(s))
}

/// The wire form of a call: the JSON object that names its variant and holds its fields.
pub open spec fn wire(c: CallView) -> Seq<u8> {
    match c {
        CallView::Name { name } => name_head() + text(name) + string_close(),
        CallView::Location { location } => location_head() + text(location) + string_close(),
        CallView::Year { location, year } => year_head() + text(location) + year_mid() + dec(
            year as nat,
        ) + close(),
    }
}

pub open spec fn is_wire(t: Seq<u8>) -> bool {
    exists|c: CallView| wire(c) == t
}

pub open spec fn starts(t: Seq<u8>, h: Seq<u8>) -> bool {
    t.len() >= h.len() && t.take(h.len() as int) == h
}

pub open spec fn ends(t: Seq<u8>, h: Seq<u8>) -> bool {
    t.len() >= h.len() && t.subrange(t.len() - h.len(), t.len() as int) == h
}

pub open spec fn proper_prefix(t: Seq<u8>, h: Seq<u8>) -> bool {
    t.len() < h.len() && t == h.take(t.len() as int)
}

/// The byte form of a name call whose name has the UTF-8 bytes `b`.
pub open spec fn name_form(b: Seq<u8>) -> Seq<u8> {
    name_head() + escape(b) + string_close()
}

/// The byte form of a location call whose location has the UTF-8 bytes `b`.
pub open spec fn location_form(b: Seq<u8>) -> Seq<u8> {
    location_head() + escape(b) + string_close()
}

/// The byte form of a year call whose location has the UTF-8 bytes `b`.
pub open spec fn year_form(b: Seq<u8>, y: u16) -> Seq<u8> {
    year_head() + escape(b) + year_mid() + dec(y as nat) + close()
}

/// Bytes that stop early: a proper prefix of the byte form of some call. The
/// text of a field is judged by its bytes here; whether they are UTF-8 is
/// judged once the call is whole.
pub open spec fn cut_form(t: Seq<u8>) -> bool {
    ||| exists|b: Seq<u8>| proper_prefix(t, name_form(b))
    ||| exists|b: Seq<u8>| proper_prefix(t, location_form(b))
    ||| exists|b: Seq<u8>, y: u16| proper_prefix(t, year_form(b, y))
}

pub open spec fn prefix_of(a: Seq<u8>, c: Seq<u8>) -> bool {
    a.len() <= c.len() && a == c.take(a.len() as int)
}

/// Padding that a receiver drops from the end of a datagram: NUL and ASCII whitespace.
pub open spec fn is_pad(b: u8) -> bool {
    b == 0 || b == 32 || b == 9 || b == 10 || b == 13
}

pub open spec fn trimmed_len(b: Seq<u8>) -> nat
    decreases b.len(),
{
    if b.len() == 0 {
        0
    } else if is_pad(b.last()) {
        trimmed_len(b.drop_last())
    } else {
        b.len()
    }
}

/// A datagram without its trailing padding.
pub open spec fn trimmed(b: Seq<u8>) -> Seq<u8> {
    b.take(trimmed_len(b) as int)
}

/// What decoding a datagram gives.
pub open spec fn decoded(b: Seq<u8>) -> Result<CallView, DecodeError> {
    let t = trimmed(b);
    if is_wire(t) {
        Ok(choose|c: CallView| wire(c) == t)
    } else if cut_form(t) {
        Err(DecodeError::Truncated)
    } else {
        Err(DecodeError::Malformed)
    }
}

/// Escaping a concatenation escapes each part.
proof fn lemma_escape_concat(a: Seq<u8>, b: Seq<u8>)
    ensures
        escape(a + b) == escape(a) + escape(b),
    decreases a.len(),
{
    if a.len() == 0 {
        assert(a + b =~= b);
        assert(escape(a) + escape(b) =~= escape(b));
    } else {
        assert((a + b).drop_first() =~= a.drop_first() + b);
        lemma_escape_concat(a.drop_first(), b);
        assert(esc_byte(a[0]) + (escape(a.drop_first()) + escape(b)) =~= (esc_byte(a[0]) + escape(
            a.drop_first(),
        )) + escape(b));
    }
}

proof fn lemma_escape_one(b: u8)
    ensures
        escape(seq![b]) == esc_byte(b),
{
    assert(seq![b].drop_first() =~= Seq::<u8>::empty());
    assert(escape(seq![b].drop_first()) =~= Seq::<u8>::empty());
    assert(esc_byte(b) + Seq::<u8>::empty() =~= esc_byte(b));
}

/// Reading back the escape of one byte gives that byte.
proof fn lemma_unesc_byte(b: u8, rest: Seq<u8>)
    ensures
        unesc(esc_byte(b) + rest) == seq![b] + unesc(rest),
{
    let t = esc_byte(b) + rest;
    let e = esc_byte(b);
    assert(t.subrange(e.len() as int, t.len() as int) =~= rest);
    if short_escape(b) is Some {
        assert(t[0] == 92 && t[1] == e[1]);
    } else if b < 32 {
        assert(t[0] == 92 && t[1] == 117 && t[2] == 48 && t[3] == 48);
        assert(t[4] == hex(b / 16) && t[5] == hex(b % 16));
        assert(hex_value(hex(b / 16)) * 16 + hex_value(hex(b % 16)) == b);
    } else {
        assert(t[0] == b);
    }
}

/// Reading back an escaped byte string gives it back.
pub proof fn lemma_unesc_escape(s: Seq<u8>)
    ensures
        unesc(escape(s)) == s,
    decreases s.len(),
{
    if s.len() == 0 {
        assert(escape(s) =~= Seq::<u8>::empty());
    } else {
        lemma_unesc_byte(s[0], escape(s.drop_first()));
        lemma_unesc_escape(s.drop_first());
        assert(seq![s[0]] + s.drop_first() =~= s);
    }
}

/// The digits of a number are digits, at most five of them for a `u16`, and write it.
proof fn lemma_dec(n: nat)
    ensures
        dec(n).len() >= 1,
        forall|i: int| 0 <= i < dec(n).len() ==> is_digit(#[trigger] dec(n)[i]),
        digits_value(dec(n)) == n,
        n < 100000 ==> dec(n).len() <= 5,
        n < 10000 ==> dec(n).len() <= 4,
        n < 1000 ==> dec(n).len() <= 3,
        n < 100 ==> dec(n).len() <= 2,
    decreases n,
{
    if n < 10 {
        assert(dec(n).drop_last() =~= Seq::<u8>::empty());
        assert(dec(n).last() == 48 + n);
        assert(digits_value(dec(n)) == digits_value(Seq::<u8>::empty()) * 10 + n);
    } else {
        lemma_dec(n / 10);
        let d = dec(n);
        assert(d.drop_last() =~= dec(n / 10));
        assert forall|i: int| 0 <= i < d.len() implies is_digit(#[trigger] d[i]) by {
            if i < d.len() - 1 {
                assert(d[i] == dec(n / 10)[i]);
            }
        }
        assert(d.last() == 48 + n % 10);
        assert(digits_value(d) == digits_value(dec(n / 10)) * 10 + n % 10);
        assert((n / 10) * 10 + n % 10 == n);
    }
}

/// A datagram that ends in a closing brace keeps all its bytes.
proof fn lemma_trimmed_keeps(t: Seq<u8>)
    requires
        t.len() > 0,
        t.last() == 125,
    ensures
        trimmed(t) == t,
{
    assert(t.take(t.len() as int) =~= t);
}

/// Two strings written the same way between quotes are the same string.
proof fn lemma_text_injective(a: Seq<char>, b: Seq<char>)
    requires
        text(a) == text(b),
    ensures
        a == b,
{
    lemma_unesc_escape(encode_utf8(a));
    lemma_unesc_escape(encode_utf8(b));
    assert(encode_utf8(a) == encode_utf8(b));
    vstd::utf8::encode_utf8_decode_utf8(a);
    vstd::utf8::encode_utf8_decode_utf8(b);
}

/// Two calls with the same wire form are the same call.
pub proof fn lemma_wire_injective(a: CallView, b: CallView)
    requires
        wire(a) == wire(b),
    ensures
        a == b,
{
    let t = wire(a);
    assert(t[2] == wire(b)[2]);
    match (a, b) {
        (CallView::Name { name: x }, CallView::Name { name: y }) => {
            assert(text(x) =~= t.subrange(17, t.len() - 3));
            assert(text(y) =~= t.subrange(17, t.len() - 3));
            lemma_text_injective(x, y);
        },
        (CallView::Location { location: x }, CallView::Location { location: y }) => {
            assert(text(x) =~= t.subrange(25, t.len() - 3));
            assert(text(y) =~= t.subrange(25, t.len() - 3));
            lemma_text_injective(x, y);
        },
        (CallView::Year { location: x, year: m }, CallView::Year { location: y, year: n }) => {
            lemma_dec(m as nat);
            lemma_dec(n as nat);
            let dm = dec(m as nat);
            let dn = dec(n as nat);
            let len = t.len() as int;
            if dm.len() < dn.len() {
                assert(t[len - 3 - dm.len()] == 58);
                assert(t[len - 3 - dm.len()] == dn[dn.len() - 1 - dm.len()]);
                assert(is_digit(dn[dn.len() - 1 - dm.len()]));
            }
            if dn.len() < dm.len() {
                assert(t[len - 3 - dn.len()] == 58);
                assert(t[len - 3 - dn.len()] == dm[dm.len() - 1 - dn.len()]);
                assert(is_digit(dm[dm.len() - 1 - dn.len()]));
            }
            assert(dm =~= t.subrange(len - 2 - dm.len(), len - 2));
            assert(dn =~= t.subrange(len - 2 - dn.len(), len - 2));
            assert(text(x) =~= t.subrange(21, len - 11 - dm.len()));
            assert(text(y) =~= t.subrange(21, len - 11 - dn.len()));
            lemma_text_injective(x, y);
        },
        _ => {},
    }
}

/// Decoding the wire form of a call gives the call back.
pub proof fn lemma_round_trip(c: CallView)
    ensures
        decoded(wire(c)) == Ok::<CallView, DecodeError>(c),
{
    let t = wire(c);
    lemma_trimmed_keeps(t);
    assert(is_wire(t));
    let d = choose|d: CallView| wire(d) == t;
    lemma_wire_injective(d, c);
}

fn push_bytes(out: &mut Vec<u8>, src: &[u8])
    ensures
        final(out)@ == old(out)@ + src@,
{
    let n = src.len();
    let mut i: usize = 0;
    while i < n
        invariant
            n == src@.len(),
            i <= n,
            out@ == old(out)@ + src@.take(i as int),
        decreases n - i,
    {
        out.push(src[i]);
        assert(src@.take(i + 1) =~= src@.take(i as int).push(src@[i as int]));
        i = i + 1;
    }
    assert(src@.take(n as int) =~= src@);
}

fn hex_digit(d: u8) -> (r: u8)
    requires
        d < 16,
    ensures
        r == hex(d),
{
    if d < 10 {
        48 + d
    } else {
        87 + d
    }
}

fn push_escaped_byte(out: &mut Vec<u8>, b: u8)
    ensures
        final(out)@ == old(out)@ + esc_byte(b),
{
    let ghost start = out@;
    let short: Option<u8> = if b == 34 {
        Some(34)
    } else if b == 92 {
        Some(92)
    } else if b == 8 {
        Some(98)
    } else if b == 9 {
        Some(116)
    } else if b == 10 {
        Some(110)
    } else if b == 12 {
        Some(102)
    } else if b == 13 {
        Some(114)
    } else {
        None
    };
    match short {
        Some(c) => {
            out.push(92);
            out.push(c);
        },
        None => {
            if b < 32 {
                out.push(92);
                out.push(117);
                out.push(48);
                out.push(48);
                out.push(hex_digit(b / 16));
                out.push(hex_digit(b % 16));
            } else {
                out.push(b);
            }
        },
    }
    assert(out@ =~= start + esc_byte(b));
}

fn push_escaped(out: &mut Vec<u8>, src: &[u8])
    ensures
        final(out)@ == old(out)@ + escape(src@),
{
    let n = src.len();
    let mut i: usize = 0;
    assert(escape(src@.take(0)) =~= Seq::<u8>::empty());
    while i < n
        invariant
            n == src@.len(),
            i <= n,
            out@ == old(out)@ + escape(src@.take(i as int)),
        decreases n - i,
    {
        push_escaped_byte(out, src[i]);
        proof {
            let head = src@.take(i as int);
            assert(src@.take(i + 1) =~= head + seq![src@[i as int]]);
            lemma_escape_concat(head, seq![src@[i as int]]);
            lemma_escape_one(src@[i as int]);
            assert(out@ =~= old(out)@ + escape(src@.take(i + 1)));
        }
        i = i + 1;
    }
    assert(src@.take(n as int) =~= src@);
}

fn push_dec(out: &mut Vec<u8>, n: u16)
    ensures
        final(out)@ == old(out)@ + dec(n as nat),
    decreases n,
{
    if n >= 10 {
        push_dec(out, n / 10);
    }
    out.push(48 + (n % 10) as u8);
    assert(out@ =~= old(out)@ + dec(n as nat));
}

fn name_head_bytes() -> (r: Vec<u8>)
    ensures
        r@ == name_head(),
{
    let r = vec![123u8, 34, 78, 97, 109, 101, 34, 58, 123, 34, 110, 97, 109, 101, 34, 58, 34];
    assert(r@ =~= name_head());
    r
}

fn location_head_bytes() -> (r: Vec<u8>)
    ensures
        r@ == location_head(),
{
    let r = vec![
        123u8, 34, 76, 111, 99, 97, 116, 105, 111, 110, 34, 58, 123, 34, 108, 111, 99, 97, 116,
        105, 111, 110, 34, 58, 34,
    ];
    assert(r@ =~= location_head());
    r
}

fn year_head_bytes() -> (r: Vec<u8>)
    ensures
        r@ == year_head(),
{
    let r = vec![123u8, 34, 89, 101, 97, 114, 34, 58, 123, 34, 108, 111, 99, 97, 116, 105, 111, 110, 34, 58, 34];
    assert(r@ =~= year_head());
    r
}

fn year_mid_bytes() -> (r: Vec<u8>)
    ensures
        r@ == year_mid(),
{
    let r = vec![34u8, 44, 34, 121, 101, 97, 114, 34, 58];
    assert(r@ =~= year_mid());
    r
}

fn string_close_bytes() -> (r: Vec<u8>)
    ensures
        r@ == string_close(),
{
    let r = vec![34u8, 125, 125];
    assert(r@ =~= string_close());
    r
}

fn close_bytes() -> (r: Vec<u8>)
    ensures
        r@ == close(),
{
    let r = vec![125u8, 125];
    assert(r@ =~= close());
    r
}

/// The wire form of `call`, whatever its size.
pub fn write_call(call: &Call) -> (r: Vec<u8>)
    ensures
        r@ == wire(call@),
{
    match call {
        Call::Name { name } => {
            let mut out = name_head_bytes();
            push_escaped(&mut out, name.as_str().as_bytes());
            push_bytes(&mut out, string_close_bytes().as_slice());
            assert(out@ =~= wire(call@));
            out
        },
        Call::Location { location } => {
            let mut out = location_head_bytes();
            push_escaped(&mut out, location.as_str().as_bytes());
            push_bytes(&mut out, string_close_bytes().as_slice());
            assert(out@ =~= wire(call@));
            out
        },
        Call::Year { location, year } => {
            let mut out = year_head_bytes();
            push_escaped(&mut out, location.as_str().as_bytes());
            push_bytes(&mut out, year_mid_bytes().as_slice());
            push_dec(&mut out, *year);
            push_bytes(&mut out, close_bytes().as_slice());
            assert(out@ =~= wire(call@));
            out
        },
    }
}

/// Encodes `call` for one datagram; fails, rather than cut it, when it would not fit.
pub fn encode(call: &Call) -> (r: Result<Vec<u8>, EncodeError>)
    ensures
        r is Ok <==> wire(call@).len() <= MAX_DATAGRAM,
        r matches Ok(b) ==> b@ == wire(call@),
        r matches Err(e) ==> e == EncodeError::TooLarge,
{
    let out = write_call(call);
    if out.len() <= MAX_DATAGRAM {
        Ok(out)
    } else {
        Err(EncodeError::TooLarge)
    }
}

/// Relies on String::from_utf8: it accepts exactly the valid UTF-8 byte strings
/// and keeps the characters that they encode.
#[verifier::external_body]
fn string_from_utf8(bytes: Vec<u8>) -> (r: Option<String>)
    ensures
        r is Some <==> valid_utf8(bytes@),
        r matches Some(s) ==> s@ == decode_utf8(bytes@),
{
    String::from_utf8(bytes).ok()
}

fn copy_prefix(b: &[u8], k: usize) -> (r: Vec<u8>)
    requires
        k <= b@.len(),
    ensures
        r@ == b@.take(k as int),
{
    let mut out: Vec<u8> = Vec::new();
    let mut i: usize = 0;
    while i < k
        invariant
            k <= b@.len(),
            i <= k,
            out@ == b@.take(i as int),
        decreases k - i,
    {
        out.push(b[i]);
        assert(b@.take(i + 1) =~= b@.take(i as int).push(b@[i as int]));
        i = i + 1;
    }
    out
}

proof fn lemma_trimmed_len_bound(b: Seq<u8>)
    ensures
        trimmed_len(b) <= b.len(),
    decreases b.len(),
{
    if b.len() > 0 {
        lemma_trimmed_len_bound(b.drop_last());
    }
}

fn trim_len(b: &[u8]) -> (r: usize)
    ensures
        r == trimmed_len(b@),
        r <= b@.len(),
{
    proof {
        lemma_trimmed_len_bound(b@);
    }
    let mut k: usize = b.len();
    assert(b@.take(k as int) =~= b@);
    while k > 0 && (b[k - 1] == 0 || b[k - 1] == 32 || b[k - 1] == 9 || b[k - 1] == 10 || b[k - 1]
        == 13)
        invariant
            k <= b@.len(),
            trimmed_len(b@) == trimmed_len(b@.take(k as int)),
        decreases k,
    {
        assert(b@.take(k as int).drop_last() =~= b@.take(k - 1));
        k = k - 1;
    }
    k
}

fn same_at(t: &[u8], at: usize, h: &[u8]) -> (r: bool)
    requires
        at + h@.len() <= t@.len(),
    ensures
        r == (t@.subrange(at as int, at + h@.len()) == h@),
{
    let n = h.len();
    let m = t.len();
    let mut i: usize = 0;
    while i < n
        invariant
            n == h@.len(),
            m == t@.len(),
            at + n <= m,
            i <= n,
            forall|j: int| 0 <= j < i ==> t@[at + j] == h@[j],
        decreases n - i,
    {
        if t[at + i] != h[i] {
            assert(t@.subrange(at as int, at + h@.len())[i as int] != h@[i as int]);
            return false;
        }
        i = i + 1;
    }
    assert(t@.subrange(at as int, at + h@.len()) =~= h@);
    true
}

fn starts_with(t: &[u8], h: &[u8]) -> (r: bool)
    ensures
        r == starts(t@, h@),
{
    if t.len() < h.len() {
        false
    } else {
        let r = same_at(t, 0, h);
        assert(t@.subrange(0, h@.len() as int) =~= t@.take(h@.len() as int));
        r
    }
}

fn ends_with(t: &[u8], h: &[u8]) -> (r: bool)
    ensures
        r == ends(t@, h@),
{
    if t.len() < h.len() {
        false
    } else {
        same_at(t, t.len() - h.len(), h)
    }
}

fn is_proper_prefix(t: &[u8], h: &[u8]) -> (r: bool)
    ensures
        r == proper_prefix(t@, h@),
{
    if t.len() >= h.len() {
        false
    } else {
        let r = same_at(h, 0, t);
        assert(h@.subrange(0, t@.len() as int) =~= h@.take(t@.len() as int));
        r
    }
}

fn bytes_equal(a: &[u8], b: &[u8]) -> (r: bool)
    ensures
        r == (a@ == b@),
{
    if a.len() != b.len() {
        false
    } else {
        let r = same_at(a, 0, b);
        assert(a@.subrange(0, b@.len() as int) =~= a@);
        r
    }
}

fn short_unescape_exec(c: u8) -> (r: Option<u8>)
    ensures
        r == short_unescape(c),
{
    if c == 34 {
        Some(34)
    } else if c == 92 {
        Some(92)
    } else if c == 98 {
        Some(8)
    } else if c == 116 {
        Some(9)
    } else if c == 110 {
        Some(10)
    } else if c == 102 {
        Some(12)
    } else if c == 114 {
        Some(13)
    } else {
        None
    }
}

fn hex_value_exec(c: u8) -> (r: u8)
    requires
        is_hex(c),
    ensures
        r == hex_value(c),
        r < 16,
{
    if c <= 57 {
        c - 48
    } else {
        c - 87
    }
}

/// Reads back the escapes of `t[lo..hi]`.
fn unescape(t: &[u8], lo: usize, hi: usize) -> (r: Vec<u8>)
    requires
        lo <= hi <= t@.len(),
    ensures
        r@ == unesc(t@.subrange(lo as int, hi as int)),
{
    let mut out: Vec<u8> = Vec::new();
    let mut pos: usize = lo;
    while pos < hi
        invariant
            lo <= pos <= hi <= t@.len(),
            unesc(t@.subrange(lo as int, hi as int)) == out@ + unesc(
                t@.subrange(pos as int, hi as int),
            ),
        decreases hi - pos,
    {
        let ghost u = t@.subrange(pos as int, hi as int);
        let ghost before = out@;
        let mut width: usize = 1;
        let mut done = false;
        if t[pos] == 92 && hi - pos >= 2 {
            match short_unescape_exec(t[pos + 1]) {
                Some(b) => {
                    out.push(b);
                    width = 2;
                    done = true;
                },
                None => {},
            }
        }
        if !done && t[pos] == 92 && hi - pos >= 6 && t[pos + 1] == 117 && t[pos + 2] == 48 && t[pos
            + 3] == 48 {
            let c4 = t[pos + 4];
            let c5 = t[pos + 5];
            if ((48 <= c4 && c4 <= 57) || (97 <= c4 && c4 <= 102)) && ((48 <= c5 && c5 <= 57) || (97
                <= c5 && c5 <= 102)) {
                let h = hex_value_exec(c4);
                let l = hex_value_exec(c5);
                out.push(h * 16 + l);
                width = 6;
                done = true;
            }
        }
        if !done {
            out.push(t[pos]);
        }
        proof {
            assert(u.subrange(width as int, u.len() as int) =~= t@.subrange(pos + width, hi as int));
            assert(out@ =~= before + seq![out@.last()]);
            assert(unesc(u) == seq![out@.last()] + unesc(t@.subrange(pos + width, hi as int)));
            assert(before + (seq![out@.last()] + unesc(t@.subrange(pos + width, hi as int)))
                =~= out@ + unesc(t@.subrange(pos + width, hi as int)));
        }
        pos = pos + width;
    }
    assert(unesc(t@.subrange(hi as int, hi as int)) =~= Seq::<u8>::empty());
    assert(out@ + Seq::<u8>::empty() =~= out@);
    out
}

pub open spec fn pow10(k: nat) -> nat
    decreases k,
{
    if k == 0 {
        1
    } else {
        10 * pow10((k - 1) as nat)
    }
}

/// The number written by the digits `t[lo..hi]`.
fn digits_at(t: &[u8], lo: usize, hi: usize) -> (r: u32)
    requires
        lo <= hi <= t@.len(),
        hi - lo <= 5,
        forall|i: int| lo <= i < hi ==> is_digit(#[trigger] t@[i]),
    ensures
        r == digits_value(t@.subrange(lo as int, hi as int)),
{
    let mut v: u32 = 0;
    let mut i: usize = lo;
    assert(t@.subrange(lo as int, lo as int) =~= Seq::<u8>::empty());
    proof {
        reveal_with_fuel(pow10, 6);
    }
    while i < hi
        invariant
            lo <= i <= hi <= t@.len(),
            hi - lo <= 5,
            forall|j: int| lo <= j < hi ==> is_digit(#[trigger] t@[j]),
            v == digits_value(t@.subrange(lo as int, i as int)),
            v < pow10((i - lo) as nat),
            pow10(0) == 1 && pow10(1) == 10 && pow10(2) == 100 && pow10(3) == 1000 && pow10(4)
                == 10000 && pow10(5) == 100000,
        decreases hi - i,
    {
        let d = t[i] - 48;
        let ghost p = pow10((i - lo) as nat);
        assert(p <= 10000);
        assert(v * 10 + d < p * 10) by (nonlinear_arith)
            requires
                v < p,
                d <= 9,
        ;
        v = v * 10 + d as u32;
        proof {
            let s1 = t@.subrange(lo as int, i + 1);
            assert(s1.drop_last() =~= t@.subrange(lo as int, i as int));
        }
        i = i + 1;
    }
    v
}

/// The call that a wire form starting with the name opening stands for.
#[verifier::rlimit(40)]
fn parse_name(t: &[u8]) -> (r: Option<Call>)
    requires
        starts(t@, name_head()),
    ensures
        is_wire(t@) ==> (r matches Some(c) && wire(c@) == t@),
{
    let n = t.len();
    let ghost w = is_wire(t@);
    let ghost v = choose|c: CallView| wire(c) == t@;
    proof {
        if w {
            assert(t@[2] == wire(v)[2]);
            assert(t@.take(17)[2] == 78);
            assert(v is Name);
            assert(t@.subrange(17, n - 3) =~= text(v->name));
            assert(t@.subrange(n - 3, n as int) =~= string_close());
            lemma_unesc_escape(encode_utf8(v->name));
        }
    }
    if n < 20 || !ends_with(t, string_close_bytes().as_slice()) {
        return None;
    }
    match string_from_utf8(unescape(t, 17, n - 3)) {
        Some(name) => Some(Call::Name { name }),
        None => None,
    }
}

/// The call that a wire form starting with the location opening stands for.
#[verifier::rlimit(40)]
fn parse_location(t: &[u8]) -> (r: Option<Call>)
    requires
        starts(t@, location_head()),
    ensures
        is_wire(t@) ==> (r matches Some(c) && wire(c@) == t@),
{
    let n = t.len();
    let ghost w = is_wire(t@);
    let ghost v = choose|c: CallView| wire(c) == t@;
    proof {
        if w {
            assert(t@[2] == wire(v)[2]);
            assert(t@.take(25)[2] == 76);
            assert(v is Location);
            assert(t@.subrange(25, n - 3) =~= text(v->Location_location));
            assert(t@.subrange(n - 3, n as int) =~= string_close());
            lemma_unesc_escape(encode_utf8(v->Location_location));
        }
    }
    if n < 28 || !ends_with(t, string_close_bytes().as_slice()) {
        return None;
    }
    match string_from_utf8(unescape(t, 25, n - 3)) {
        Some(location) => Some(Call::Location { location }),
        None => None,
    }
}

/// The call that a wire form starting with the year opening stands for.
#[verifier::rlimit(60)]
fn parse_year(t: &[u8]) -> (r: Option<Call>)
    requires
        starts(t@, year_head()),
    ensures
        is_wire(t@) ==> (r matches Some(c) && wire(c@) == t@),
{
    let n = t.len();
    let ghost w = is_wire(t@);
    let ghost v = choose|c: CallView| wire(c) == t@;
    let ghost dl: int = if v is Year {
        dec(v->year as nat).len() as int
    } else {
        0
    };
    proof {
        if w {
            assert(t@[2] == wire(v)[2]);
            assert(t@.take(21)[2] == 89);
            assert(v is Year);
            lemma_dec(v->year as nat);
            assert(t@.subrange(21, n - 11 - dl) =~= text(v->Year_location));
            assert(t@.subrange(n - 11 - dl, n - 2 - dl) =~= year_mid());
            assert(t@.subrange(n - 2 - dl, n - 2) =~= dec(v->year as nat));
            assert(t@.subrange(n - 2, n as int) =~= close());
            assert(t@[n - 3 - dl] == 58);
            assert(forall|i: int| n - 2 - dl <= i < n - 2 ==> #[trigger] t@[i] == dec(
                v->year as nat,
            )[i - (n - 2 - dl)]);
            lemma_unesc_escape(encode_utf8(v->Year_location));
        }
    }
    if n < 33 || !ends_with(t, close_bytes().as_slice()) {
        return None;
    }
    let e = n - 2;
    let mut q = e;
    while q > 0 && e - q < 5 && 48 <= t[q - 1] && t[q - 1] <= 57
        invariant
            q <= e,
            e - q <= 5,
            e == n - 2,
            n == t@.len(),
            n >= 33,
            forall|i: int| q <= i < e ==> is_digit(#[trigger] t@[i]),
            w ==> q >= e - dl,
            w ==> 1 <= dl <= 5,
            w ==> t@[e - dl - 1] == 58,
            w ==> forall|i: int| e - dl <= i < e ==> is_digit(#[trigger] t@[i]),
        decreases q,
    {
        q = q - 1;
    }
    proof {
        if w {
            assert(q == e - dl);
        }
    }
    if q == e || q < 30 || !same_at(t, q - 9, year_mid_bytes().as_slice()) {
        return None;
    }
    let value = digits_at(t, q, e);
    if value > 65535 {
        return None;
    }
    match string_from_utf8(unescape(t, 21, q - 9)) {
        Some(location) => Some(Call::Year { location, year: value as u16 }),
        None => None,
    }
}

/// Reads a call from bytes in its wire form; on a wire form it never fails.
fn parse_candidate(t: &[u8]) -> (r: Option<Call>)
    ensures
        is_wire(t@) ==> (r matches Some(c) && wire(c@) == t@),
{
    proof {
        if is_wire(t@) {
            let v = choose|c: CallView| wire(c) == t@;
            assert(t@[2] == wire(v)[2]);
        }
    }
    if starts_with(t, name_head_bytes().as_slice()) {
        parse_name(t)
    } else if starts_with(t, location_head_bytes().as_slice()) {
        parse_location(t)
    } else if starts_with(t, year_head_bytes().as_slice()) {
        parse_year(t)
    } else {
        proof {
            if is_wire(t@) {
                let v = choose|c: CallView| wire(c) == t@;
                match v {
                    CallView::Name { name } => {
                        if t@.len() < 17 {
                        assert(t@ =~= name_head().take(t@.len() as int));
                    } else {
                        assert(t@.take(17) =~= name_head());
                    }
                    },
                    CallView::Location { location } => {
                        if t@.len() < 25 {
                        assert(t@ =~= location_head().take(t@.len() as int));
                    } else {
                        assert(t@.take(25) =~= location_head());
                    }
                    },
                    CallView::Year { location, year } => {
                        if t@.len() < 21 {
                        assert(t@ =~= year_head().take(t@.len() as int));
                    } else {
                        assert(t@.take(21) =~= year_head());
                    }
                    },
                }
            }
        }
        None
    }
}

/// Decodes a received datagram: trailing NUL and whitespace padding is dropped, and
/// what is left must be the wire form of a call.
pub fn decode(buf: &[u8]) -> (r: Result<Call, DecodeError>)
    ensures
        r matches Ok(c) ==> decoded(buf@) == Ok::<CallView, DecodeError>(c@),
        r matches Err(e) ==> decoded(buf@) == Err::<CallView, DecodeError>(e),
{
    let k = trim_len(buf);
    let t = copy_prefix(buf, k);
    let ts = t.as_slice();
    match parse_candidate(ts) {
        Some(call) => {
            let again = write_call(&call);
            if bytes_equal(again.as_slice(), ts) {
                proof {
                    let d = choose|d: CallView| wire(d) == ts@;
                    lemma_wire_injective(d, call@);
                }
                return Ok(call);
            }
        },
        None => {},
    }
    let truncated = is_cut(ts);
    if truncated {
        Err(DecodeError::Truncated)
    } else {
        Err(DecodeError::Malformed)
    }
}

/// The byte whose escape opens `t[pos..]`, if one does.
fn code_at(t: &[u8], pos: usize) -> (r: Option<u8>)
    requires
        pos <= t@.len(),
    ensures
        r matches Some(x) ==> starts(t@.skip(pos as int), esc_byte(x)),
        r is None ==> forall|x: u8| !starts(t@.skip(pos as int), #[trigger] esc_byte(x)),
{
    let mut x: u16 = 0;
    while x < 256
        invariant
            pos <= t@.len(),
            x <= 256,
            forall|z: u8| (z as int) < x ==> !starts(t@.skip(pos as int), #[trigger] esc_byte(z)),
        decreases 256 - x,
    {
        let mut e: Vec<u8> = Vec::new();
        push_escaped_byte(&mut e, x as u8);
        assert(e@ =~= esc_byte(x as u8));
        if e.len() <= t.len() - pos {
            let same = same_at(t, pos, e.as_slice());
            assert(t@.skip(pos as int).take(e@.len() as int) =~= t@.subrange(
                pos as int,
                pos + e@.len(),
            ));
            if same {
                return Some(x as u8);
            }
        }
        x = x + 1;
    }
    None
}

/// A byte whose escape `m` is a proper prefix of, if there is one.
fn cut_code(m: &[u8]) -> (r: Option<u8>)
    ensures
        r matches Some(x) ==> proper_prefix(m@, esc_byte(x)),
        r is None ==> forall|x: u8| !proper_prefix(m@, #[trigger] esc_byte(x)),
{
    let mut x: u16 = 0;
    while x < 256
        invariant
            x <= 256,
            forall|z: u8| (z as int) < x ==> !proper_prefix(m@, #[trigger] esc_byte(z)),
        decreases 256 - x,
    {
        let mut e: Vec<u8> = Vec::new();
        push_escaped_byte(&mut e, x as u8);
        if is_proper_prefix(m, e.as_slice()) {
            return Some(x as u8);
        }
        x = x + 1;
    }
    None
}

pub open spec fn year_tail(y: u16) -> Seq<u8> {
    year_mid() + dec(y as nat) + close()
}

/// A year whose tail `m` is a proper prefix of, if there is one.
fn cut_year_tail(m: &[u8]) -> (r: Option<u16>)
    ensures
        r matches Some(y) ==> proper_prefix(m@, year_tail(y)),
        r is None ==> forall|y: u16| !proper_prefix(m@, #[trigger] year_tail(y)),
{
    let mut y: u32 = 0;
    while y < 65536
        invariant
            y <= 65536,
            forall|z: u16| (z as int) < y ==> !proper_prefix(m@, #[trigger] year_tail(z)),
        decreases 65536 - y,
    {
        let mut e = year_mid_bytes();
        push_dec(&mut e, y as u16);
        push_bytes(&mut e, close_bytes().as_slice());
        assert(e@ =~= year_tail(y as u16));
        if is_proper_prefix(m, e.as_slice()) {
            return Some(y as u16);
        }
        y = y + 1;
    }
    None
}

/// Reads whole escapes from `t[from..]` for as long as there are any. When `t[from..]`
/// is a prefix of `escape(b) + s`, with `s` opening on a quote, the escapes read are
/// those of a prefix of `b`.
fn scan_codes(t: &[u8], from: usize, Ghost(b): Ghost<Seq<u8>>, Ghost(s): Ghost<Seq<u8>>) -> (r: (
    usize,
    Ghost<Seq<u8>>,
    Ghost<int>,
))
    requires
        from <= t@.len(),
    ensures
        from <= r.0 <= t@.len(),
        t@.subrange(from as int, r.0 as int) == escape(r.1@),
        forall|x: u8| !starts(t@.skip(r.0 as int), #[trigger] esc_byte(x)),
        (s.len() > 0 && s[0] == 34 && prefix_of(t@.skip(from as int), escape(b) + s)) ==> (0
            <= r.2@ <= b.len() && r.1@ == b.take(r.2@) && prefix_of(
            t@.skip(r.0 as int),
            escape(b.skip(r.2@)) + s,
        )),
{
    let ghost hyp = s.len() > 0 && s[0] == 34 && prefix_of(t@.skip(from as int), escape(b) + s);
    let ghost mut acc: Seq<u8> = Seq::empty();
    let ghost mut j: int = 0;
    let mut pos = from;
    proof {
        assert(t@.subrange(from as int, from as int) =~= escape(acc));
        assert(b.skip(0) =~= b);
        assert(b.take(0) =~= acc);
    }
    loop
        invariant
            from <= pos <= t@.len(),
            t@.subrange(from as int, pos as int) == escape(acc),
            hyp == (s.len() > 0 && s[0] == 34 && prefix_of(t@.skip(from as int), escape(b) + s)),
            hyp ==> (0 <= j <= b.len() && acc == b.take(j) && prefix_of(
                t@.skip(pos as int),
                escape(b.skip(j)) + s,
            )),
        decreases t@.len() - pos,
    {
        match code_at(t, pos) {
            None => {
                return (pos, Ghost(acc), Ghost(j));
            },
            Some(x) => {
                let mut e: Vec<u8> = Vec::new();
                push_escaped_byte(&mut e, x);
                assert(e@ =~= esc_byte(x));
                let w = e.len();
                let tl = t.len();
                assert(t@.skip(pos as int).len() == t@.len() - pos);
                assert(w <= tl - pos);
                proof {
                    let rest = t@.skip(pos as int);
                    assert(rest.take(w as int) == esc_byte(x));
                    lemma_escape_concat(acc, seq![x]);
                    lemma_escape_one(x);
                    assert(t@.subrange(from as int, pos + w) =~= t@.subrange(from as int, pos as int)
                        + rest.take(w as int));
                    assert(acc + seq![x] =~= acc.push(x));
                    if hyp {
                        let rem = escape(b.skip(j)) + s;
                        assert(rem.take(w as int) =~= rest.take(w as int));
                        if j == b.len() {
                            assert(b.skip(j) =~= Seq::<u8>::empty());
                            assert(rem =~= s);
                            assert(esc_byte(x)[0] == rem[0]);
                        }
                        let q = b.skip(j);
                        assert(q.drop_first() =~= b.skip(j + 1));
                        assert(rem =~= esc_byte(b[j]) + (escape(b.skip(j + 1)) + s));
                        assert(rem =~= esc_byte(x) + rem.skip(w as int));
                        lemma_unesc_byte(x, rem.skip(w as int));
                        lemma_unesc_byte(b[j], escape(b.skip(j + 1)) + s);
                        assert(seq![x][0] == x);
                        assert(x == b[j]);
                        assert(t@.skip(pos + w) =~= rest.skip(w as int));
                        assert(rem.skip(w as int) =~= escape(b.skip(j + 1)) + s);
                        assert(rest.skip(w as int) =~= rem.skip(w as int).take(rest.len() - w));
                        assert(prefix_of(t@.skip(pos + w), escape(b.skip(j + 1)) + s));
                        assert(b.take(j + 1) =~= b.take(j).push(b[j]));
                    }
                }
                pos = pos + w;
                proof {
                    acc = acc.push(x);
                    if hyp {
                        j = j + 1;
                    }
                }
            },
        }
    }
}

/// Whether `t` is a proper prefix of the byte form of some call.
#[verifier::rlimit(60)]
fn is_cut(t: &[u8]) -> (r: bool)
    ensures
        r == cut_form(t@),
{
    let n = t.len();
    if is_proper_prefix(t, name_head_bytes().as_slice()) {
        assert(name_form(Seq::empty()).take(t@.len() as int) =~= name_head().take(t@.len() as int));
        assert(proper_prefix(t@, name_form(Seq::empty())));
        return true;
    }
    if is_proper_prefix(t, location_head_bytes().as_slice()) {
        assert(location_form(Seq::empty()).take(t@.len() as int) =~= location_head().take(t@.len() as int));
        assert(proper_prefix(t@, location_form(Seq::empty())));
        return true;
    }
    if is_proper_prefix(t, year_head_bytes().as_slice()) {
        assert(year_form(Seq::empty(), 0).take(t@.len() as int) =~= year_head().take(t@.len() as int));
        assert(proper_prefix(t@, year_form(Seq::empty(), 0)));
        return true;
    }
    let hn = name_head_bytes();
    let hl = location_head_bytes();
    let hy = year_head_bytes();
    if starts_with(t, hn.as_slice()) {
        cut_name_like(t, hn.as_slice(), true)
    } else if starts_with(t, hl.as_slice()) {
        cut_name_like(t, hl.as_slice(), false)
    } else if starts_with(t, hy.as_slice()) {
        cut_year(t)
    } else {
        proof {
            assert forall|b: Seq<u8>| !proper_prefix(t@, #[trigger] name_form(b)) by {
                if proper_prefix(t@, name_form(b)) {
                    if t@.len() < 17 {
                        assert(t@ =~= name_head().take(t@.len() as int));
                    } else {
                        assert(t@.take(17) =~= name_head());
                    }
                }
            }
            assert forall|b: Seq<u8>| !proper_prefix(t@, #[trigger] location_form(b)) by {
                if proper_prefix(t@, location_form(b)) {
                    if t@.len() < 25 {
                        assert(t@ =~= location_head().take(t@.len() as int));
                    } else {
                        assert(t@.take(25) =~= location_head());
                    }
                }
            }
            assert forall|b: Seq<u8>, y: u16| !proper_prefix(t@, #[trigger] year_form(b, y)) by {
                if proper_prefix(t@, year_form(b, y)) {
                    if t@.len() < 21 {
                        assert(t@ =~= year_head().take(t@.len() as int));
                    } else {
                        assert(t@.take(21) =~= year_head());
                    }
                }
            }
        }
        false
    }
}

fn copy_from(b: &[u8], k: usize) -> (r: Vec<u8>)
    requires
        k <= b@.len(),
    ensures
        r@ == b@.skip(k as int),
{
    let mut out: Vec<u8> = Vec::new();
    let mut i: usize = k;
    let n = b.len();
    while i < n
        invariant
            k <= i <= n,
            n == b@.len(),
            out@ == b@.subrange(k as int, i as int),
        decreases n - i,
    {
        out.push(b[i]);
        assert(b@.subrange(k as int, i + 1) =~= b@.subrange(k as int, i as int).push(b@[i as int]));
        i = i + 1;
    }
    assert(b@.subrange(k as int, n as int) =~= b@.skip(k as int));
    out
}

pub open spec fn string_form(is_name: bool, b: Seq<u8>) -> Seq<u8> {
    if is_name {
        name_form(b)
    } else {
        location_form(b)
    }
}

pub open spec fn string_head(is_name: bool) -> Seq<u8> {
    if is_name {
        name_head()
    } else {
        location_head()
    }
}

/// A string that a whole escape is not a start of, but that is a prefix of that
/// escape followed by more, is a proper prefix of the escape.
proof fn lemma_short_of_code(m: Seq<u8>, e: Seq<u8>, rest: Seq<u8>)
    requires
        prefix_of(m, e + rest),
        !starts(m, e),
    ensures
        proper_prefix(m, e),
{
    if m.len() >= e.len() {
        assert(m.take(e.len() as int) =~= e);
    }
    assert(m =~= e.take(m.len() as int));
}

/// Whether `t`, which opens with the head of a name call (or of a location
/// call), is a proper prefix of the byte form of some call.
#[verifier::rlimit(80)]
fn cut_name_like(t: &[u8], head: &[u8], is_name: bool) -> (r: bool)
    requires
        head@ == string_head(is_name),
        starts(t@, head@),
    ensures
        r == cut_form(t@),
{
    let h = head.len();
    let ghost bw = choose|b: Seq<u8>| proper_prefix(t@, string_form(is_name, b));
    let ghost own = exists|b: Seq<u8>| proper_prefix(t@, string_form(is_name, b));
    let ghost q = string_close();
    let ghost other = !is_name;
    proof {
        assert(t@[2] == head@[2]);
        assert forall|b: Seq<u8>| !proper_prefix(t@, #[trigger] string_form(other, b)) by {
            if proper_prefix(t@, string_form(other, b)) {
                assert(t@[2] == string_form(other, b)[2]);
            }
        }
        assert forall|b: Seq<u8>, y: u16| !proper_prefix(t@, #[trigger] year_form(b, y)) by {
            if proper_prefix(t@, year_form(b, y)) {
                assert(t@[2] == year_form(b, y)[2]);
            }
        }
        if own {
            assert(string_form(is_name, bw) =~= head@ + (escape(bw) + q));
            assert(t@.skip(h as int) =~= (escape(bw) + q).take(t@.len() - h));
            assert(proper_prefix(t@, string_form(is_name, bw)));
            if is_name {
                assert(proper_prefix(t@, name_form(bw)));
            } else {
                assert(proper_prefix(t@, location_form(bw)));
            }
        }
        if cut_form(t@) {
            if is_name {
                let b = choose|b: Seq<u8>| proper_prefix(t@, name_form(b));
                assert(proper_prefix(t@, string_form(is_name, b)));
            } else {
                let b = choose|b: Seq<u8>| proper_prefix(t@, location_form(b));
                assert(proper_prefix(t@, string_form(is_name, b)));
            }
        }
        assert(cut_form(t@) == own);
    }
    let (pos, Ghost(acc), Ghost(j)) = scan_codes(t, h, Ghost(bw), Ghost(q));
    let m = copy_from(t, pos);
    proof {
        assert(t@ =~= head@ + escape(acc) + m@);
    }
    match cut_code(m.as_slice()) {
        Some(x) => {
            proof {
                lemma_escape_concat(acc, seq![x]);
                lemma_escape_one(x);
                assert(acc + seq![x] =~= acc.push(x));
                let f = string_form(is_name, acc.push(x));
                assert(f =~= head@ + escape(acc) + esc_byte(x) + q);
                assert(f.take(t@.len() as int) =~= t@);
            }
            true
        },
        None => {
            let sc = string_close_bytes();
            let r = is_proper_prefix(m.as_slice(), sc.as_slice());
            proof {
                if r {
                    let f = string_form(is_name, acc);
                    assert(f =~= head@ + escape(acc) + q);
                    assert(f.take(t@.len() as int) =~= t@);
                }
                if own {
                    if j < bw.len() {
                        let sk = bw.skip(j);
                        assert(sk.drop_first() =~= bw.skip(j + 1));
                        assert(escape(sk) + q =~= esc_byte(bw[j]) + (escape(bw.skip(j + 1)) + q));
                        lemma_short_of_code(m@, esc_byte(bw[j]), escape(bw.skip(j + 1)) + q);
                        assert(false);
                    } else {
                        assert(bw.skip(j) =~= Seq::<u8>::empty());
                        assert(bw.take(j) =~= bw);
                        assert(escape(bw.skip(j)) + q =~= q);
                        assert(r);
                    }
                }
            }
            r
        },
    }
}

/// Whether `t`, which opens with the head of a year call, is a proper prefix
/// of the byte form of some call.
#[verifier::rlimit(80)]
fn cut_year(t: &[u8]) -> (r: bool)
    requires
        starts(t@, year_head()),
    ensures
        r == cut_form(t@),
{
    let h: usize = 21;
    let ghost own = exists|b: Seq<u8>, y: u16| proper_prefix(t@, year_form(b, y));
    let ghost pick = choose|p: (Seq<u8>, u16)| proper_prefix(t@, year_form(p.0, p.1));
    let ghost bw = pick.0;
    let ghost yw = pick.1;
    let ghost s = year_tail(yw);
    proof {
        assert(t@[2] == year_head()[2]);
        assert forall|b: Seq<u8>| !proper_prefix(t@, #[trigger] name_form(b)) by {
            if proper_prefix(t@, name_form(b)) {
                assert(t@[2] == name_form(b)[2]);
            }
        }
        assert forall|b: Seq<u8>| !proper_prefix(t@, #[trigger] location_form(b)) by {
            if proper_prefix(t@, location_form(b)) {
                assert(t@[2] == location_form(b)[2]);
            }
        }
        if own {
            let (b0, y0) = choose|b: Seq<u8>, y: u16| proper_prefix(t@, year_form(b, y));
            assert(proper_prefix(t@, year_form((b0, y0).0, (b0, y0).1)));
            assert(year_form(bw, yw) =~= year_head() + (escape(bw) + s));
            assert(t@.skip(21) =~= (escape(bw) + s).take(t@.len() - 21));
        }
        assert(cut_form(t@) == own);
    }
    let (pos, Ghost(acc), Ghost(j)) = scan_codes(t, h, Ghost(bw), Ghost(s));
    let m = copy_from(t, pos);
    proof {
        assert(t@ =~= year_head() + escape(acc) + m@);
    }
    match cut_code(m.as_slice()) {
        Some(x) => {
            proof {
                lemma_escape_concat(acc, seq![x]);
                lemma_escape_one(x);
                assert(acc + seq![x] =~= acc.push(x));
                let f = year_form(acc.push(x), 0);
                assert(f =~= year_head() + escape(acc) + esc_byte(x) + year_tail(0));
                assert(f.take(t@.len() as int) =~= t@);
            }
            true
        },
        None => {
            let found = cut_year_tail(m.as_slice());
            proof {
                if found is Some {
                    let y = found->0;
                    let f = year_form(acc, y);
                    assert(f =~= year_head() + escape(acc) + year_tail(y));
                    assert(f.take(t@.len() as int) =~= t@);
                }
                if own {
                    if j < bw.len() {
                        let sk = bw.skip(j);
                        assert(sk.drop_first() =~= bw.skip(j + 1));
                        assert(escape(sk) + s =~= esc_byte(bw[j]) + (escape(bw.skip(j + 1)) + s));
                        lemma_short_of_code(m@, esc_byte(bw[j]), escape(bw.skip(j + 1)) + s);
                        assert(false);
                    } else {
                        assert(bw.skip(j) =~= Seq::<u8>::empty());
                        assert(bw.take(j) =~= bw);
                        assert(escape(bw.skip(j)) + s =~= s);
                        assert(m@ =~= s.take(m@.len() as int));
                        assert(proper_prefix(m@, year_tail(yw)));
                    }
                }
            }
            found.is_some()
        },
    }
}

} // verus!
