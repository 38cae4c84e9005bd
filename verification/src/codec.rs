//! Wire codecs shared by the handshake dialects: the 7-bit continuation
//! varint of the newer dialect, and the two length-prefixed string framings
//! (big-endian UCS-2 and Java-style modified UTF-8).
//!
//! All of the classifier's parsing works on the single buffer filled by the
//! client's first read.  That buffer is modelled as a byte sequence extended
//! with zeroes past its end ([`byte_at`]), which is exactly how the fixed-size
//! read buffer presents short handshakes.

use vstd::prelude::*;

verus! {

/// Failure of one of the wire codecs.
#[derive(Clone, Copy, Debug, PartialEq, Eq, Structural)]
pub enum CodecError {
    /// A varint ran to five bytes without a terminating byte.
    MalformedVarint,
    /// A string frame had an overflowing or negative length, ran past the
    /// end of its buffer, or held an invalid encoding.
    MalformedString,
}

/// The byte at index `i` of the read buffer, taking the zero padding past
/// the end of the data into account.
pub open spec fn byte_at(b: Seq<u8>, i: int) -> u8 {
    if 0 <= i < b.len() {
        b[i]
    } else {
        0
    }
}

/// `128^k`, the place value of the `k`-th byte of a varint.
pub open spec fn pow128(k: nat) -> nat
    decreases k,
{
    if k == 0 {
        1
    } else {
        128 * pow128((k - 1) as nat)
    }
}

/// The canonical varint encoding of `v`: low seven bits first, the top bit
/// of every byte but the last set.
pub open spec fn varint_encoding(v: nat) -> Seq<u8>
    decreases v,
{
    if v < 128 {
        seq![v as u8]
    } else {
        seq![(128 + v % 128) as u8] + varint_encoding(v / 128)
    }
}

/// How many bytes a varint starting at index `i` occupies: the distance to
/// the first byte with a clear top bit, inclusive.  `None` if no such byte
/// occurs within `fuel` bytes.
pub open spec fn varint_size_at(b: Seq<u8>, i: int, fuel: nat) -> Option<nat>
    decreases fuel,
{
    if fuel == 0 {
        None
    } else if byte_at(b, i) < 128 {
        Some(1)
    } else {
        match varint_size_at(b, i + 1, (fuel - 1) as nat) {
            Some(k) => Some((k + 1) as nat),
            None => None,
        }
    }
}

/// The value carried by the low seven bits of the `k` bytes starting at
/// index `i`, least significant byte first.
pub open spec fn varint_raw_value(b: Seq<u8>, i: int, k: nat) -> nat
    decreases k,
{
    if k == 0 {
        0
    } else {
        ((byte_at(b, i) % 128) + 128 * varint_raw_value(b, i + 1, (k - 1) as nat)) as nat
    }
}

proof fn lemma_pow128_bound(k: nat)
    requires
        k <= 5,
    ensures
        pow128(k) <= 0x800000000,
    decreases k,
{
    assert(pow128(0) == 1);
    assert(pow128(1) == 128);
    assert(pow128(2) == 0x4000);
    assert(pow128(3) == 0x200000);
    assert(pow128(4) == 0x10000000);
    assert(pow128(5) == 0x800000000);
}

proof fn lemma_varint_raw_value_bound(b: Seq<u8>, i: int, k: nat)
    ensures
        varint_raw_value(b, i, k) < pow128(k),
    decreases k,
{
    if k > 0 {
        lemma_varint_raw_value_bound(b, i + 1, (k - 1) as nat);
    }
}

/// Appending one more byte to a varint prefix adds its low seven bits at
/// place value `128^k`.
proof fn lemma_varint_raw_value_extend(b: Seq<u8>, i: int, k: nat)
    ensures
        varint_raw_value(b, i, (k + 1) as nat) == varint_raw_value(b, i, k) + (byte_at(b, i + k)
            % 128) * pow128(k),
    decreases k,
{
    if k > 0 {
        lemma_varint_raw_value_extend(b, i + 1, (k - 1) as nat);
        assert(byte_at(b, (i + 1) + ((k - 1) as nat)) == byte_at(b, i + k));
        let a = varint_raw_value(b, i + 1, (k - 1) as nat) as int;
        let c = (byte_at(b, i + k) % 128) as int;
        let p = pow128((k - 1) as nat) as int;
        assert(varint_raw_value(b, i + 1, k) == a + c * p);
        assert(varint_raw_value(b, i, (k + 1) as nat) == (byte_at(b, i) % 128) + 128 * (a + c
            * p));
        assert(varint_raw_value(b, i, k) == (byte_at(b, i) % 128) + 128 * a);
        assert(128 * (a + c * p) == 128 * a + 128 * (c * p)) by (nonlinear_arith);
        assert(128 * (c * p) == c * (128 * p)) by (nonlinear_arith);
        assert(pow128(k) == 128 * p);
    } else {
        assert(varint_raw_value(b, i + 1, 0nat) == 0);
        assert(varint_raw_value(b, i, 0nat) == 0);
        assert(varint_raw_value(b, i, 1nat) == ((byte_at(b, i) % 128) + 128 * varint_raw_value(
            b,
            i + 1,
            0nat,
        )) as nat);
        assert(pow128(0nat) == 1);
    }
}

proof fn lemma_varint_size_found(b: Seq<u8>, i: int, k: nat, fuel: nat)
    requires
        k < fuel,
        forall|j: int| i <= j < i + k ==> #[trigger] byte_at(b, j) >= 128,
        byte_at(b, i + k) < 128,
    ensures
        varint_size_at(b, i, fuel) == Some((k + 1) as nat),
    decreases k,
{
    if k > 0 {
        assert(byte_at(b, i) >= 128);
        lemma_varint_size_found(b, i + 1, (k - 1) as nat, (fuel - 1) as nat);
    }
}

proof fn lemma_varint_size_missing(b: Seq<u8>, i: int, fuel: nat)
    requires
        forall|j: int| i <= j < i + fuel ==> #[trigger] byte_at(b, j) >= 128,
    ensures
        varint_size_at(b, i, fuel) is None,
    decreases fuel,
{
    if fuel > 0 {
        assert(byte_at(b, i) >= 128);
        lemma_varint_size_missing(b, i + 1, (fuel - 1) as nat);
    }
}

/// The byte at index `i` of `buf`, reading the zero padding past the end of
/// the data where `i` is out of range.
pub fn padded_byte(buf: &Vec<u8>, i: usize) -> (b: u8)
    ensures
        b == byte_at(buf@, i as int),
{
    if i < buf.len() {
        buf[i]
    } else {
        0
    }
}

/// Decode the varint that starts at index `start` of the zero-padded buffer:
/// accumulate the low seven bits of each byte, least significant first, until
/// a byte with a clear top bit terminates the number.  Bits past the 32nd are
/// discarded.  Fails with [`CodecError::MalformedVarint`] when five bytes go
/// by without a terminator.
///
/// Returns the value and the number of bytes consumed.
pub fn decode_var_int(buf: &Vec<u8>, start: usize) -> (r: Result<(u32, usize), CodecError>)
    requires
        start <= usize::MAX - 5,
    ensures
        match r {
            Ok(p) => {
                &&& varint_size_at(buf@, start as int, 5) == Some(p.1 as nat)
                &&& 1 <= p.1 <= 5
                &&& p.0 == varint_raw_value(buf@, start as int, p.1 as nat) % 0x100000000
            },
            Err(e) => {
                &&& e == CodecError::MalformedVarint
                &&& varint_size_at(buf@, start as int, 5) is None
            },
        },
{
    let mut count: usize = 0;
    let mut value: u64 = 0;
    let mut mult: u64 = 1;
    while count < 5
        invariant
            start <= usize::MAX - 5,
            count <= 5,
            mult == pow128(count as nat),
            value == varint_raw_value(buf@, start as int, count as nat),
            forall|j: int| start <= j < start + count ==> #[trigger] byte_at(buf@, j) >= 128,
        decreases 5 - count,
    {
        let byte: u8 = padded_byte(buf, start + count);
        proof {
            lemma_pow128_bound(count as nat);
            lemma_varint_raw_value_bound(buf@, start as int, count as nat);
            lemma_varint_raw_value_extend(buf@, start as int, count as nat);
            assert(((byte % 128) as int) * (mult as int) <= 127 * 0x800000000) by (nonlinear_arith)
                requires
                    (byte % 128) <= 127,
                    mult <= 0x800000000,
            ;
        }
        value = value + ((byte % 128) as u64) * mult;
        count = count + 1;
        if byte < 128 {
            proof {
                lemma_varint_size_found(buf@, start as int, (count - 1) as nat, 5);
                lemma_varint_raw_value_bound(buf@, start as int, count as nat);
                lemma_pow128_bound(count as nat);
            }
            return Ok(((value % 0x100000000) as u32, count));
        }
        proof {
            lemma_pow128_bound(count as nat);
        }
        mult = mult * 128;
    }
    proof {
        lemma_varint_size_missing(buf@, start as int, 5);
    }
    Err(CodecError::MalformedVarint)
}

/// Encode `v` as a varint: low seven bits first, continuation bit on every
/// byte but the last.
pub fn encode_var_int(v: u32) -> (r: Vec<u8>)
    ensures
        r@ == varint_encoding(v as nat),
{
    let mut out: Vec<u8> = Vec::new();
    let mut x: u32 = v;
    while x >= 128
        invariant
            varint_encoding(v as nat) == out@ + varint_encoding(x as nat),
        decreases x,
    {
        let ghost before = out@;
        let ghost xg = x as nat;
        out.push((x % 128 + 128) as u8);
        x = x / 128;
        proof {
            assert(varint_encoding(xg) == seq![(128 + xg % 128) as u8] + varint_encoding(
                xg / 128,
            ));
            assert(before + varint_encoding(xg) =~= out@ + varint_encoding(x as nat));
        }
    }
    let ghost before = out@;
    out.push(x as u8);
    proof {
        assert(varint_encoding(x as nat) == seq![x as u8]);
        assert(before + varint_encoding(x as nat) =~= out@);
    }
    out
}

proof fn lemma_varint_size_congruent(b1: Seq<u8>, i1: int, b2: Seq<u8>, i2: int, fuel: nat)
    requires
        forall|j: int| i1 <= j ==> #[trigger] byte_at(b1, j) == byte_at(b2, j + (i2 - i1)),
    ensures
        varint_size_at(b1, i1, fuel) == varint_size_at(b2, i2, fuel),
    decreases fuel,
{
    if fuel > 0 {
        assert(byte_at(b1, i1) == byte_at(b2, i2));
        lemma_varint_size_congruent(b1, i1 + 1, b2, i2 + 1, (fuel - 1) as nat);
    }
}

proof fn lemma_varint_raw_value_congruent(b1: Seq<u8>, i1: int, b2: Seq<u8>, i2: int, k: nat)
    requires
        forall|j: int| i1 <= j ==> #[trigger] byte_at(b1, j) == byte_at(b2, j + (i2 - i1)),
    ensures
        varint_raw_value(b1, i1, k) == varint_raw_value(b2, i2, k),
    decreases k,
{
    if k > 0 {
        assert(byte_at(b1, i1) == byte_at(b2, i2));
        lemma_varint_raw_value_congruent(b1, i1 + 1, b2, i2 + 1, (k - 1) as nat);
    }
}

proof fn lemma_varint_decode_encoding(v: nat, fuel: nat)
    requires
        v < pow128(fuel),
        1 <= fuel,
    ensures
        varint_encoding(v).len() <= fuel,
        varint_size_at(varint_encoding(v), 0, fuel) == Some(varint_encoding(v).len() as nat),
        varint_raw_value(varint_encoding(v), 0, varint_encoding(v).len() as nat) == v,
    decreases v,
{
    let e = varint_encoding(v);
    if v < 128 {
        assert(e == seq![v as u8]);
        assert(byte_at(e, 0) == v as u8);
        assert(varint_size_at(e, 0, fuel) == Some(1nat));
        assert(varint_raw_value(e, 0, 1nat) == (byte_at(e, 0) % 128) + 128 * varint_raw_value(
            e,
            1,
            0nat,
        ));
    } else {
        assert(pow128(fuel) == 128 * pow128((fuel - 1) as nat));
        assert(v / 128 < pow128((fuel - 1) as nat));
        lemma_varint_decode_encoding(v / 128, (fuel - 1) as nat);
        let tail = varint_encoding(v / 128);
        assert(e == seq![(128 + v % 128) as u8] + tail);
        assert forall|j: int| 1 <= j implies #[trigger] byte_at(e, j) == byte_at(
            tail,
            j + (0 - 1),
        ) by {
            if 1 <= j < e.len() {
                assert(e[j] == tail[j - 1]);
            }
        }
        lemma_varint_size_congruent(e, 1, tail, 0, (fuel - 1) as nat);
        lemma_varint_raw_value_congruent(e, 1, tail, 0, tail.len() as nat);
        assert(byte_at(e, 0) == (128 + v % 128) as u8);
        assert(byte_at(e, 0) >= 128);
        assert(varint_size_at(e, 0, fuel) == Some((tail.len() + 1) as nat));
        assert(varint_raw_value(e, 0, e.len() as nat) == (byte_at(e, 0) % 128) + 128
            * varint_raw_value(e, 1, tail.len() as nat));
        assert((byte_at(e, 0) % 128) == v % 128);
        assert(varint_raw_value(e, 0, e.len() as nat) == v % 128 + 128 * (v / 128));
        assert(v % 128 + 128 * (v / 128) == v) by (nonlinear_arith);
    }
}

/// Law: a varint survives the round trip.  For every 32-bit value, decoding
/// the canonical encoding terminates within its own length and yields the
/// value back, so `decode_var_int` applied to `encode_var_int(v)` returns
/// exactly `(v, encoding length)`.
pub proof fn lemma_varint_round_trip(v: u32)
    ensures
        varint_encoding(v as nat).len() <= 5,
        varint_size_at(varint_encoding(v as nat), 0, 5) == Some(
            varint_encoding(v as nat).len() as nat,
        ),
        varint_raw_value(varint_encoding(v as nat), 0, varint_encoding(v as nat).len() as nat)
            == v as nat,
        varint_raw_value(varint_encoding(v as nat), 0, varint_encoding(v as nat).len() as nat)
            % 0x100000000 == v as nat,
{
    assert(pow128(0) == 1);
    assert(pow128(1) == 128);
    assert(pow128(2) == 0x4000);
    assert(pow128(3) == 0x200000);
    assert(pow128(4) == 0x10000000);
    assert(pow128(5) == 0x800000000);
    lemma_varint_decode_encoding(v as nat, 5);
}

// ---------------------------------------------------------------------------
// UCS-2 string framing: a big-endian int16 count of UTF-16 code units is
// followed by that many units, each as two big-endian bytes.
// ---------------------------------------------------------------------------

/// The two big-endian bytes of a 16-bit value.
pub open spec fn be16(v: u16) -> Seq<u8> {
    seq![(v / 256) as u8, (v % 256) as u8]
}

/// The UTF-16 code units of one character: itself for the basic plane, a
/// surrogate pair for the supplementary planes.
pub open spec fn char_utf16(c: char) -> Seq<u16> {
    if (c as u32) < 0x10000 {
        seq![((c as u32) as u16)]
    } else {
        seq![
            (0xD800 + ((c as u32) - 0x10000) / 0x400) as u16,
            (0xDC00 + ((c as u32) - 0x10000) % 0x400) as u16,
        ]
    }
}

/// The UTF-16 code units of a string.
pub open spec fn utf16_units(s: Seq<char>) -> Seq<u16>
    decreases s.len(),
{
    if s.len() == 0 {
        Seq::empty()
    } else {
        char_utf16(s[0]) + utf16_units(s.drop_first())
    }
}

/// Code units flattened to big-endian byte pairs.
pub open spec fn be16_flatten(us: Seq<u16>) -> Seq<u8>
    decreases us.len(),
{
    if us.len() == 0 {
        Seq::empty()
    } else {
        be16(us[0]) + be16_flatten(us.drop_first())
    }
}

/// Big-endian byte pairs grouped back into code units.
pub open spec fn be16_unflatten(b: Seq<u8>) -> Seq<u16>
    decreases b.len(),
{
    if b.len() < 2 {
        Seq::empty()
    } else {
        seq![(b[0] * 256 + b[1]) as u16] + be16_unflatten(b.skip(2))
    }
}

/// UTF-16 code units decoded back to characters: a unit outside the
/// surrogate range is one character, a high surrogate must be followed by a
/// low surrogate, and any lone surrogate makes the whole sequence invalid.
pub open spec fn utf16_decoded(us: Seq<u16>) -> Option<Seq<char>>
    decreases us.len(),
{
    if us.len() == 0 {
        Some(Seq::empty())
    } else if us[0] < 0xD800 || us[0] >= 0xE000 {
        match utf16_decoded(us.drop_first()) {
            Some(t) => Some(seq![((us[0] as u32) as char)] + t),
            None => None,
        }
    } else if us[0] < 0xDC00 {
        if us.len() >= 2 && 0xDC00 <= us[1] < 0xE000 {
            match utf16_decoded(us.skip(2)) {
                Some(t) => Some(
                    seq![(((0x10000 + (us[0] - 0xD800) * 0x400 + (us[1] - 0xDC00)) as u32) as char)]
                        + t,
                ),
                None => None,
            }
        } else {
            None
        }
    } else {
        None
    }
}

/// The whole wire form of a UCS-2 string: character count as a big-endian
/// int16, then the code units.  Meaningful for strings of at most 32767
/// characters.
pub open spec fn string16_encoding(s: Seq<char>) -> Seq<u8> {
    be16(s.len() as u16) + be16_flatten(utf16_units(s))
}

/// What decoding a UCS-2 wire form yields: `None` where the length prefix is
/// negative, the buffer is too short, or the units hold a lone surrogate.
/// Bytes past the frame are ignored, as a decoder that consumes a prefix of
/// a larger buffer must.
pub open spec fn string16_decoding(b: Seq<u8>) -> Option<Seq<char>> {
    if b.len() < 2 {
        None
    } else {
        let l = b[0] * 256 + b[1];
        if l > 32767 {
            None
        } else if b.len() < 2 + 2 * l {
            None
        } else {
            utf16_decoded(be16_unflatten(b.subrange(2, 2 + 2 * l)))
        }
    }
}

/// Relies on the documented behaviour of `char::from_u32` from std: it
/// returns `Some` exactly for values that are Unicode scalar values (below
/// the surrogate range, or between it and 0x10FFFF inclusive), and the
/// resulting character has the given value.
pub assume_specification[ char::from_u32 ](v: u32) -> (r: Option<char>)
    ensures
        r is Some <==> (v < 0xD800 || (0xE000 <= v && v <= 0x10FFFF)),
        r matches Some(c) ==> c as u32 == v,
;

/// Relies on the documented behaviour of `String::push` from std: it appends
/// the given character to the end of the string.
pub assume_specification[ String::push ](s: &mut String, c: char)
    ensures
        final(s)@ == old(s)@ + seq![c],
;

proof fn lemma_utf16_units_push(s: Seq<char>, c: char)
    ensures
        utf16_units(s.push(c)) == utf16_units(s) + char_utf16(c),
    decreases s.len(),
{
    if s.len() == 0 {
        assert(s.push(c) =~= seq![c]);
        assert(seq![c].drop_first() =~= Seq::<char>::empty());
        assert(utf16_units(Seq::<char>::empty()) =~= Seq::<u16>::empty());
        assert(utf16_units(seq![c]) == char_utf16(c) + utf16_units(Seq::<char>::empty()));
        assert(char_utf16(c) + Seq::<u16>::empty() =~= char_utf16(c));
        assert(utf16_units(s) + char_utf16(c) =~= char_utf16(c));
    } else {
        assert(s.push(c).drop_first() =~= s.drop_first().push(c));
        lemma_utf16_units_push(s.drop_first(), c);
        assert(s.push(c)[0] == s[0]);
        assert(char_utf16(s[0]) + (utf16_units(s.drop_first()) + char_utf16(c)) =~= (char_utf16(
            s[0],
        ) + utf16_units(s.drop_first())) + char_utf16(c));
    }
}

proof fn lemma_be16_flatten_push(us: Seq<u16>, u: u16)
    ensures
        be16_flatten(us.push(u)) == be16_flatten(us) + be16(u),
    decreases us.len(),
{
    if us.len() == 0 {
        assert(us.push(u) =~= seq![u]);
        assert(seq![u].drop_first() =~= Seq::<u16>::empty());
        assert(be16_flatten(Seq::<u16>::empty()) =~= Seq::<u8>::empty());
        assert(be16_flatten(seq![u]) == be16(u) + be16_flatten(Seq::<u16>::empty()));
        assert(be16(u) + Seq::<u8>::empty() =~= be16(u));
        assert(be16_flatten(us) + be16(u) =~= be16(u));
    } else {
        assert(us.push(u).drop_first() =~= us.drop_first().push(u));
        lemma_be16_flatten_push(us.drop_first(), u);
        assert(us.push(u)[0] == us[0]);
        assert(be16(us[0]) + (be16_flatten(us.drop_first()) + be16(u)) =~= (be16(us[0])
            + be16_flatten(us.drop_first())) + be16(u));
    }
}

proof fn lemma_be16_flatten_len(us: Seq<u16>)
    ensures
        be16_flatten(us).len() == 2 * us.len(),
    decreases us.len(),
{
    if us.len() > 0 {
        lemma_be16_flatten_len(us.drop_first());
    }
}

proof fn lemma_utf16_units_len_bmp(s: Seq<char>)
    requires
        forall|i: int| 0 <= i < s.len() ==> (#[trigger] s[i] as u32) < 0x10000,
    ensures
        utf16_units(s).len() == s.len(),
    decreases s.len(),
{
    if s.len() > 0 {
        assert((s[0] as u32) < 0x10000);
        assert(forall|i: int| 0 <= i < s.drop_first().len() ==> (#[trigger] s.drop_first()[i] as u32)
            < 0x10000);
        lemma_utf16_units_len_bmp(s.drop_first());
    }
}

proof fn lemma_be16_unflatten_push(s: Seq<u8>, x: u8, y: u8)
    requires
        s.len() % 2 == 0,
    ensures
        be16_unflatten(s + seq![x, y]) == be16_unflatten(s) + seq![(x * 256 + y) as u16],
    decreases s.len(),
{
    if s.len() == 0 {
        assert(s + seq![x, y] =~= seq![x, y]);
        assert((seq![x, y]).skip(2) =~= Seq::<u8>::empty());
        assert(be16_unflatten(Seq::<u8>::empty()) =~= Seq::<u16>::empty());
        assert(be16_unflatten(s) + seq![(x * 256 + y) as u16] =~= seq![(x * 256 + y) as u16]);
        assert(seq![(x * 256 + y) as u16] + be16_unflatten(Seq::<u8>::empty()) =~= seq![(x * 256
            + y) as u16]);
    } else {
        let t = s + seq![x, y];
        assert(t[0] == s[0] && t[1] == s[1]);
        assert(t.skip(2) =~= s.skip(2) + seq![x, y]);
        assert(s.skip(2).len() % 2 == 0);
        lemma_be16_unflatten_push(s.skip(2), x, y);
        assert(seq![(s[0] * 256 + s[1]) as u16] + (be16_unflatten(s.skip(2)) + seq![(x * 256
            + y) as u16]) =~= (seq![(s[0] * 256 + s[1]) as u16] + be16_unflatten(s.skip(2)))
            + seq![(x * 256 + y) as u16]);
    }
}

proof fn lemma_unflatten_flatten(us: Seq<u16>)
    ensures
        be16_unflatten(be16_flatten(us)) == us,
    decreases us.len(),
{
    if us.len() == 0 {
        assert(be16_flatten(us).len() == 0);
    } else {
        let b = be16_flatten(us);
        assert(b == be16(us[0]) + be16_flatten(us.drop_first()));
        lemma_be16_flatten_len(us.drop_first());
        assert(b.len() >= 2);
        assert(b[0] == us[0] / 256 && b[1] == us[0] % 256);
        assert(b[0] * 256 + b[1] == us[0]);
        assert(b.skip(2) =~= be16_flatten(us.drop_first()));
        lemma_unflatten_flatten(us.drop_first());
        assert(seq![us[0]] + us.drop_first() =~= us);
    }
}

/// Law: UTF-16 code units decode back to the characters they came from, for
/// every string, surrogate pairs included.
pub proof fn lemma_utf16_round_trip(s: Seq<char>)
    ensures
        utf16_decoded(utf16_units(s)) == Some(s),
    decreases s.len(),
{
    if s.len() == 0 {
        assert(utf16_units(s).len() == 0);
        assert(Seq::<char>::empty() =~= s);
    } else {
        let c = s[0];
        vstd::utf8::char_is_scalar(c);
        let u = c as u32;
        let rest = utf16_units(s.drop_first());
        lemma_utf16_round_trip(s.drop_first());
        let us = utf16_units(s);
        if u < 0x10000 {
            assert(us == seq![(u as u16)] + rest);
            assert(us[0] == u as u16);
            assert(us[0] as u32 == u);
            assert(us[0] < 0xD800 || us[0] >= 0xE000);
            assert(us.drop_first() =~= rest);
            vstd::utf8::char_u32_cast(c, u);
            assert((us[0] as u32) as char == c);
            assert(seq![c] + s.drop_first() =~= s);
        } else {
            let v = u - 0x10000;
            let hi = (0xD800 + v / 0x400) as u16;
            let lo = (0xDC00 + v % 0x400) as u16;
            assert(v <= 0xFFFFF);
            assert(v / 0x400 <= 0x3FF);
            assert(us == seq![hi, lo] + rest);
            assert(us[0] == hi && us[1] == lo);
            assert(0xD800 <= us[0] < 0xDC00);
            assert(0xDC00 <= us[1] < 0xE000);
            assert(us.skip(2) =~= rest);
            assert((v / 0x400) * 0x400 + v % 0x400 == v);
            assert(0x10000 + (us[0] - 0xD800) * 0x400 + (us[1] - 0xDC00) == u);
            vstd::utf8::char_u32_cast(c, u);
            assert(((0x10000 + (us[0] - 0xD800) * 0x400 + (us[1] - 0xDC00)) as u32) as char == c);
            assert(seq![c] + s.drop_first() =~= s);
        }
    }
}

/// Encode a string in the UCS-2 framing: big-endian int16 character count,
/// then each UTF-16 code unit as two big-endian bytes.  Fails with
/// [`CodecError::MalformedString`] when the count does not fit a signed
/// 16-bit value.
pub fn string16_encode(s: &str) -> (r: Result<Vec<u8>, CodecError>)
    ensures
        r is Ok <==> s@.len() <= 32767,
        r matches Ok(v) ==> v@ == string16_encoding(s@),
        r matches Err(e) ==> e == CodecError::MalformedString,
{
    let n: usize = s.unicode_len();
    if n > 32767 {
        return Err(CodecError::MalformedString);
    }
    let mut out: Vec<u8> = Vec::new();
    out.push((n / 256) as u8);
    out.push((n % 256) as u8);
    proof {
        assert(out@ =~= be16(n as u16) + be16_flatten(utf16_units(s@.take(0))));
    }
    let mut i: usize = 0;
    while i < n
        invariant
            i <= n,
            n == s@.len(),
            n <= 32767,
            out@ == be16(n as u16) + be16_flatten(utf16_units(s@.take(i as int))),
        decreases n - i,
    {
        let c = s.get_char(i);
        let u: u32 = c as u32;
        let ghost prefix = s@.take(i as int);
        let ghost prev = out@;
        if u < 0x10000 {
            out.push((u / 256) as u8);
            out.push((u % 256) as u8);
            proof {
                assert(char_utf16(c) == seq![(u as u16)]);
                assert(be16((u as u16)) =~= seq![(u / 256) as u8, (u % 256) as u8]);
                lemma_be16_flatten_push(utf16_units(prefix), u as u16);
                lemma_utf16_units_push(prefix, c);
                assert(utf16_units(prefix) + char_utf16(c) =~= utf16_units(prefix).push(
                    (u as u16),
                ));
                assert(s@.take(i + 1) =~= prefix.push(c));
                assert(out@ =~= prev + be16((u as u16)));
                assert(out@ =~= be16(n as u16) + be16_flatten(utf16_units(s@.take(i + 1))));
            }
        } else {
            let v: u32 = u - 0x10000;
            let hi: u32 = 0xD800 + v / 0x400;
            let lo: u32 = 0xDC00 + v % 0x400;
            out.push((hi / 256) as u8);
            out.push((hi % 256) as u8);
            out.push((lo / 256) as u8);
            out.push((lo % 256) as u8);
            proof {
                let hu = hi as u16;
                let lu = lo as u16;
                assert(char_utf16(c) == seq![hu, lu]);
                assert(be16(hu) =~= seq![(hi / 256) as u8, (hi % 256) as u8]);
                assert(be16(lu) =~= seq![(lo / 256) as u8, (lo % 256) as u8]);
                lemma_be16_flatten_push(utf16_units(prefix), hu);
                lemma_be16_flatten_push(utf16_units(prefix).push(hu), lu);
                lemma_utf16_units_push(prefix, c);
                assert(utf16_units(prefix) + char_utf16(c) =~= utf16_units(prefix).push(hu).push(
                    lu,
                ));
                assert(s@.take(i + 1) =~= prefix.push(c));
                assert(out@ =~= (prev + be16(hu)) + be16(lu));
                assert(out@ =~= be16(n as u16) + be16_flatten(utf16_units(s@.take(i + 1))));
            }
        }
        i = i + 1;
    }
    proof {
        assert(s@.take(n as int) =~= s@);
    }
    Ok(out)
}

/// Decode a UCS-2 framed string from the start of `buf`: big-endian int16
/// character count, then that many UTF-16 code units.  Bytes past the frame
/// are ignored.  Returns the string and the count from the wire.  Fails with
/// [`CodecError::MalformedString`] on a negative count, a buffer shorter
/// than the frame, or a lone surrogate.
pub fn string16_decode(buf: &Vec<u8>) -> (r: Result<(String, i16), CodecError>)
    ensures
        r is Ok <==> string16_decoding(buf@) is Some,
        r matches Ok(p) ==> {
            &&& Some(p.0@) == string16_decoding(buf@)
            &&& 0 <= p.1
            &&& p.1 == buf@[0] * 256 + buf@[1]
        },
        r matches Err(e) ==> e == CodecError::MalformedString,
{
    if buf.len() < 2 {
        return Err(CodecError::MalformedString);
    }
    let b0: u8 = buf[0];
    let b1: u8 = buf[1];
    if b0 >= 128 {
        return Err(CodecError::MalformedString);
    }
    let l: usize = (b0 as usize) * 256 + (b1 as usize);
    if buf.len() < 2 + 2 * l {
        return Err(CodecError::MalformedString);
    }
    let ghost frame = buf@.subrange(2, 2 + 2 * (l as int));
    let mut units: Vec<u16> = Vec::new();
    let mut k: usize = 0;
    proof {
        assert(units@ =~= be16_unflatten(buf@.subrange(2, 2)));
    }
    while k < l
        invariant
            k <= l,
            l <= 32767,
            buf@.len() >= 2 + 2 * l,
            units@ == be16_unflatten(buf@.subrange(2, 2 + 2 * (k as int))),
            units@.len() == k,
        decreases l - k,
    {
        let x: u8 = buf[2 + 2 * k];
        let y: u8 = buf[2 + 2 * k + 1];
        let ghost before = buf@.subrange(2, 2 + 2 * (k as int));
        units.push((x as u16) * 256 + (y as u16));
        proof {
            assert(before.len() % 2 == 0);
            assert(buf@.subrange(2, 2 + 2 * (k + 1 as int)) =~= before + seq![x, y]);
            lemma_be16_unflatten_push(before, x, y);
            assert(units@ =~= be16_unflatten(before) + seq![(x * 256 + y) as u16]);
        }
        k = k + 1;
    }
    proof {
        assert(buf@.subrange(2, 2 + 2 * (l as int)) == frame);
    }
    let mut st: String = String::new();
    let mut j: usize = 0;
    proof {
        assert(units@.skip(0) =~= units@);
        if utf16_decoded(units@) is Some {
            assert(st@ + utf16_decoded(units@)->Some_0 =~= utf16_decoded(units@)->Some_0);
        }
    }
    while j < units.len()
        invariant
            j <= units.len(),
            l <= 32767,
            buf@.len() >= 2 + 2 * l,
            l == buf@[0] * 256 + buf@[1],
            units@ == be16_unflatten(buf@.subrange(2, 2 + 2 * (l as int))),
            units@.len() == l,
            utf16_decoded(units@) == match utf16_decoded(units@.skip(j as int)) {
                Some(t) => Some(st@ + t),
                None => None::<Seq<char>>,
            },
        decreases units.len() - j,
    {
        let ghost tail_units = units@.skip(j as int);
        let u: u16 = units[j];
        assert(tail_units[0] == u);
        if u < 0xD800 || u >= 0xE000 {
            let copt = char::from_u32(u as u32);
            match copt {
                Some(c) => {
                    let ghost st_old = st@;
                    st.push(c);
                    proof {
                        assert(tail_units.drop_first() =~= units@.skip(j + 1));
                        assert((u as u32) as char == c) by {
                            vstd::utf8::char_u32_cast(c, u as u32);
                        }
                        if utf16_decoded(units@.skip(j + 1)) is Some {
                            let t = utf16_decoded(units@.skip(j + 1))->Some_0;
                            assert(utf16_decoded(tail_units) == Some(seq![c] + t));
                            assert(st_old + (seq![c] + t) =~= st@ + t);
                        }
                    }
                    j = j + 1;
                },
                None => {
                    proof {
                        assert(false);
                    }
                },
            }
        } else if u < 0xDC00 {
            if j + 1 >= units.len() {
                proof {
                    assert(tail_units.len() < 2);
                    assert(utf16_decoded(tail_units) is None);
                    assert(utf16_decoded(units@) is None);
                    assert(string16_decoding(buf@) is None);
                }
                return Err(CodecError::MalformedString);
            }
            let u2: u16 = units[j + 1];
            assert(tail_units[1] == u2);
            if u2 < 0xDC00 || u2 >= 0xE000 {
                proof {
                    assert(utf16_decoded(tail_units) is None);
                    assert(utf16_decoded(units@) is None);
                    assert(string16_decoding(buf@) is None);
                }
                return Err(CodecError::MalformedString);
            }
            let cp: u32 = 0x10000 + ((u - 0xD800) as u32) * 0x400 + ((u2 - 0xDC00) as u32);
            let copt = char::from_u32(cp);
            match copt {
                Some(c) => {
                    let ghost st_old = st@;
                    st.push(c);
                    proof {
                        assert(tail_units.skip(2) =~= units@.skip(j + 2));
                        assert(cp == 0x10000 + (tail_units[0] - 0xD800) * 0x400 + (tail_units[1]
                            - 0xDC00));
                        assert((cp as u32) as char == c) by {
                            vstd::utf8::char_u32_cast(c, cp);
                        }
                        if utf16_decoded(units@.skip(j + 2)) is Some {
                            let t = utf16_decoded(units@.skip(j + 2))->Some_0;
                            assert(utf16_decoded(tail_units) == Some(seq![c] + t));
                            assert(st_old + (seq![c] + t) =~= st@ + t);
                        }
                    }
                    j = j + 2;
                },
                None => {
                    proof {
                        assert(false);
                    }
                },
            }
        } else {
            proof {
                assert(utf16_decoded(tail_units) is None);
                assert(utf16_decoded(units@) is None);
                assert(string16_decoding(buf@) is None);
            }
            return Err(CodecError::MalformedString);
        }
    }
    proof {
        assert(units@.skip(units@.len() as int) =~= Seq::<u16>::empty());
        assert(utf16_decoded(Seq::<u16>::empty()) == Some(Seq::<char>::empty()));
        assert(utf16_decoded(units@) == Some(st@ + Seq::<char>::empty()));
        assert(st@ + Seq::<char>::empty() =~= st@);
        assert(string16_decoding(buf@) == Some(st@));
    }
    Ok((st, l as i16))
}

/// Law: a UCS-2 frame survives the round trip.  Encoding any string of at
/// most 32767 basic-plane characters and decoding the result yields the
/// string back.
pub proof fn lemma_string16_round_trip(s: Seq<char>)
    requires
        s.len() <= 32767,
        forall|i: int| 0 <= i < s.len() ==> (#[trigger] s[i] as u32) < 0x10000,
    ensures
        string16_decoding(string16_encoding(s)) == Some(s),
{
    let enc = string16_encoding(s);
    let units = utf16_units(s);
    lemma_utf16_units_len_bmp(s);
    lemma_be16_flatten_len(units);
    let lenu = s.len() as u16;
    assert(be16(lenu) == seq![(lenu / 256) as u8, (lenu % 256) as u8]);
    assert(enc[0] == (lenu / 256) as u8 && enc[1] == (lenu % 256) as u8);
    assert(enc[0] * 256 + enc[1] == s.len());
    assert(enc.len() == 2 + 2 * s.len());
    assert(enc.subrange(2, 2 + 2 * (s.len() as int)) =~= be16_flatten(units));
    lemma_unflatten_flatten(units);
    lemma_utf16_round_trip(s);
}
// ---------------------------------------------------------------------------
// Modified-UTF-8 string framing: a big-endian int16 byte count is followed
// by that many bytes of Java-style modified UTF-8 (U+0000 as C0 80,
// supplementary planes as separately encoded surrogate pairs).  The body
// conversion itself is done by the `mutf8` crate; the encoding it produces
// is pinned down, character by character, by [`mutf8_char`].
// ---------------------------------------------------------------------------

/// The modified-UTF-8 bytes of one character: NUL as the two-byte form
/// `C0 80`; other characters below U+0800 as in UTF-8 (one or two bytes);
/// the rest of the basic plane as the three-byte UTF-8 form; and the
/// supplementary planes as a UTF-16 surrogate pair whose halves are each
/// given the three-byte form.
pub open spec fn mutf8_char(c: char) -> Seq<u8> {
    let u = c as u32;
    if u == 0 {
        seq![0xC0u8, 0x80u8]
    } else if u < 0x80 {
        seq![u as u8]
    } else if u < 0x800 {
        seq![(0xC0 + u / 0x40) as u8, (0x80 + u % 0x40) as u8]
    } else if u < 0x10000 {
        seq![
            (0xE0 + u / 0x1000) as u8,
            (0x80 + (u / 0x40) % 0x40) as u8,
            (0x80 + u % 0x40) as u8,
        ]
    } else {
        let v = u - 0x10000;
        let hi = 0xD800 + v / 0x400;
        let lo = 0xDC00 + v % 0x400;
        seq![
            (0xE0 + hi / 0x1000) as u8,
            (0x80 + (hi / 0x40) % 0x40) as u8,
            (0x80 + hi % 0x40) as u8,
            (0xE0 + lo / 0x1000) as u8,
            (0x80 + (lo / 0x40) % 0x40) as u8,
            (0x80 + lo % 0x40) as u8,
        ]
    }
}

/// The modified-UTF-8 bytes of a string.
pub open spec fn mutf8_encoding(s: Seq<char>) -> Seq<u8>
    decreases s.len(),
{
    if s.len() == 0 {
        Seq::empty()
    } else {
        mutf8_char(s[0]) + mutf8_encoding(s.drop_first())
    }
}

/// Whether the modified-UTF-8 decoder accepts a byte sequence as the body
/// of a string.  It accepts every sequence [`mutf8_encoding`] produces, and
/// also some lenient non-canonical forms; which exactly is the outside
/// decoder's own affair, so this predicate names its success set rather
/// than restating it.
pub uninterp spec fn mutf8_decodable(b: Seq<u8>) -> bool;

/// Relies on `mutf8::utf8_to_mutf8`: on the UTF-8 bytes of a string it
/// produces exactly the per-character encoding [`mutf8_char`] describes —
/// ASCII other than NUL passes through, NUL becomes `C0 80`, two- and
/// three-byte UTF-8 forms pass through, and each four-byte form becomes the
/// six-byte surrogate-pair form.  On valid UTF-8 the conversion cannot fail
/// (its errors only flag truncated multi-byte sequences, which a `str`
/// cannot contain).
#[verifier::external_body]
fn mutf8_encode_str(s: &str) -> (r: Vec<u8>)
    ensures
        r@ == mutf8_encoding(s@),
{
    match mutf8::utf8_to_mutf8(s.as_bytes()) {
        Ok(converted) => converted.into_owned(),
        Err(_) => Vec::new(),
    }
}

/// Relies on `mutf8::mutf8_to_utf8` followed by `String::from_utf8`:
/// [`mutf8_decodable`] names the byte sequences on which that pair
/// succeeds, and on the encoder's image the pair inverts it, yielding
/// exactly the original characters.
#[verifier::external_body]
fn mutf8_decode_bytes(b: &Vec<u8>) -> (r: Option<String>)
    ensures
        r is Some <==> mutf8_decodable(b@),
        forall|s: Seq<char>| b@ == mutf8_encoding(s) ==> r is Some && r->Some_0@ == s,
{
    match mutf8::mutf8_to_utf8(b) {
        Ok(converted) => String::from_utf8(converted.into_owned()).ok(),
        Err(_) => None,
    }
}

/// Every character costs at least one byte in modified UTF-8, so a string
/// never encodes shorter than its character count.
pub proof fn lemma_mutf8_len_lower(s: Seq<char>)
    ensures
        mutf8_encoding(s).len() >= s.len(),
    decreases s.len(),
{
    if s.len() > 0 {
        lemma_mutf8_len_lower(s.drop_first());
    }
}

/// The whole wire form of a modified-UTF-8 string: body byte count as a
/// big-endian int16, then the body.  Meaningful where the body is at most
/// 32767 bytes.
pub open spec fn string8_encoding(s: Seq<char>) -> Seq<u8> {
    be16(mutf8_encoding(s).len() as u16) + mutf8_encoding(s)
}

/// Whether a buffer starts with a well-formed modified-UTF-8 frame header:
/// a non-negative int16 byte count that the buffer covers.
pub open spec fn string8_frame_ok(b: Seq<u8>) -> bool {
    &&& b.len() >= 2
    &&& b[0] * 256 + b[1] <= 32767
    &&& b.len() >= 2 + b[0] * 256 + b[1]
}

/// The body bytes of a modified-UTF-8 frame: the count named by the first
/// two bytes, taken after them.
pub open spec fn string8_body(b: Seq<u8>) -> Seq<u8> {
    b.subrange(2, 2 + b[0] * 256 + b[1])
}

/// Encode a string in the modified-UTF-8 framing: big-endian int16 byte
/// count, then the body.  Fails with [`CodecError::MalformedString`] when
/// the body does not fit a signed 16-bit count — in particular for every
/// string of more than 32767 characters.
pub fn string8_encode(s: &str) -> (r: Result<Vec<u8>, CodecError>)
    ensures
        r is Ok <==> mutf8_encoding(s@).len() <= 32767,
        s@.len() > 32767 ==> r == Err::<Vec<u8>, CodecError>(CodecError::MalformedString),
        r matches Ok(v) ==> v@ == string8_encoding(s@),
        r matches Err(e) ==> e == CodecError::MalformedString,
{
    proof {
        lemma_mutf8_len_lower(s@);
    }
    let mut body: Vec<u8> = mutf8_encode_str(s);
    let l: usize = body.len();
    if l > 32767 {
        return Err(CodecError::MalformedString);
    }
    let mut out: Vec<u8> = Vec::new();
    out.push((l / 256) as u8);
    out.push((l % 256) as u8);
    out.append(&mut body);
    proof {
        assert(out@ =~= be16(l as u16) + mutf8_encoding(s@));
    }
    Ok(out)
}

/// Decode a modified-UTF-8 framed string from the start of `buf`: big-endian
/// int16 byte count, then that many body bytes.  Bytes past the frame are
/// ignored.  Returns the string and the count from the wire.  Fails with
/// [`CodecError::MalformedString`] on a negative count, a buffer shorter
/// than the frame, or a body the modified-UTF-8 decoder rejects — exactly
/// those three cases.
///
/// In particular, decoding inverts [`string8_encode`]: a buffer whose frame
/// holds the modified-UTF-8 bytes of any string yields that string.
pub fn string8_decode(buf: &Vec<u8>) -> (r: Result<(String, i16), CodecError>)
    ensures
        r is Ok <==> string8_frame_ok(buf@) && mutf8_decodable(string8_body(buf@)),
        !string8_frame_ok(buf@) ==> r == Err::<(String, i16), CodecError>(
            CodecError::MalformedString,
        ),
        r matches Ok(p) ==> 0 <= p.1 && p.1 == buf@[0] * 256 + buf@[1],
        r matches Err(e) ==> e == CodecError::MalformedString,
        forall|s: Seq<char>|
            (string8_frame_ok(buf@) && string8_body(buf@) == mutf8_encoding(s)) ==> r is Ok
                && r->Ok_0.0@ == s,
{
    if buf.len() < 2 {
        return Err(CodecError::MalformedString);
    }
    let b0: u8 = buf[0];
    let b1: u8 = buf[1];
    if b0 >= 128 {
        return Err(CodecError::MalformedString);
    }
    let l: usize = (b0 as usize) * 256 + (b1 as usize);
    if buf.len() < 2 + l {
        return Err(CodecError::MalformedString);
    }
    let mut body: Vec<u8> = Vec::new();
    let mut k: usize = 0;
    while k < l
        invariant
            k <= l,
            l <= 32767,
            buf@.len() >= 2 + l,
            body@ == buf@.subrange(2, 2 + k as int),
        decreases l - k,
    {
        let ghost before = body@;
        body.push(buf[2 + k]);
        proof {
            assert(buf@.subrange(2, 2 + (k + 1 as int)) =~= before + seq![buf@[2 + k]]);
        }
        k = k + 1;
    }
    proof {
        assert(body@ == string8_body(buf@));
    }
    match mutf8_decode_bytes(&body) {
        Some(st) => Ok((st, l as i16)),
        None => Err(CodecError::MalformedString),
    }
}

} // verus!

