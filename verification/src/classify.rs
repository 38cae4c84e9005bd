//! The handshake classifier: given the bytes of a client's first read, pick
//! the protocol dialect by trying five rules in order, and say what must
//! happen next — either the tag is known, or the oldest handshake dialect
//! forces a synthetic reply to the client and a five-byte login read before
//! the tag can be computed.

use vstd::prelude::*;

use crate::codec::byte_at;
use crate::codec::decode_var_int;
use crate::codec::padded_byte;
use crate::codec::string16_encode;
use crate::codec::string16_encoding;
use crate::codec::mutf8_char;
use crate::codec::mutf8_encoding;
use crate::codec::string8_encode;
use crate::codec::string8_encoding;
use crate::codec::varint_raw_value;
use crate::codec::varint_size_at;
use crate::tag::ProtocolTag;

verus! {

/// Which string framing the oldest handshake dialect used for its username.
#[derive(Clone, Copy, Debug, PartialEq, Eq, Structural)]
pub enum StringFraming {
    /// Big-endian UTF-16 code units, two bytes each.
    Ucs2,
    /// Java-style modified UTF-8 bytes.
    Mutf8,
}

/// Classification failure: the first bytes matched the newer dialect but a
/// varint inside them never terminated.
#[derive(Clone, Copy, Debug, PartialEq, Eq, Structural)]
pub enum ClassifyError {
    MalformedHandshake,
}

/// What the classifier decided from the first read.
#[derive(Debug)]
pub enum Classification {
    /// The tag is known; the prelude is forwarded as it is.
    Done(ProtocolTag),
    /// The oldest handshake dialect: `reply` must be written to the client,
    /// then exactly five more bytes read from it, before the tag can be
    /// computed with [`classify_login`].  The backend's own handshake reply
    /// must later be drained.
    NeedLogin { framing: StringFraming, reply: Vec<u8> },
}

/// First rule: the newer, length-prefixed handshake.  Its second byte is
/// zero (the packet-ID field) and its first is neither zero nor the legacy
/// handshake ID.
pub open spec fn rule_new_guard(p: Seq<u8>) -> bool {
    p.len() > 1 && p[1] == 0x00 && p[0] != 0x00 && p[0] != 0x02
}

/// Second rule: the legacy server-list ping with the magic byte 0x01.
pub open spec fn rule_post39_guard(p: Seq<u8>) -> bool {
    byte_at(p, 0) == 0xFE && byte_at(p, 1) == 0x01
}

/// Third rule: the mid-era handshake, whose second byte is the protocol
/// number in the range 33 to 80.
pub open spec fn rule_mid_guard(p: Seq<u8>) -> bool {
    byte_at(p, 0) == 0x02 && 33 <= byte_at(p, 1) <= 80
}

/// Fourth rule: the oldest server-list ping, a single 0xFE byte.
pub open spec fn rule_pre39_guard(p: Seq<u8>) -> bool {
    byte_at(p, 0) == 0xFE && p.len() == 1
}

/// Fifth rule: the oldest handshake dialect, any other prelude starting
/// with the packet ID 0x02.
pub open spec fn rule_old_guard(p: Seq<u8>) -> bool {
    byte_at(p, 0) == 0x02
}

/// The protocol version the newer dialect carries: after the packet-length
/// varint and one skipped packet-ID byte, the next varint.  `None` where
/// either varint runs to five bytes without terminating.
pub open spec fn new_protocol(p: Seq<u8>) -> Option<u32> {
    match varint_size_at(p, 0, 5) {
        None => None,
        Some(k1) => match varint_size_at(p, k1 + 1int, 5) {
            None => None,
            Some(k2) => Some(
                (varint_raw_value(p, k1 + 1int, k2) % 0x100000000) as u32,
            ),
        },
    }
}

/// The int16 username length the oldest dialect sends at offset 1, as the
/// unsigned pair of bytes.
pub open spec fn old_wire_len(p: Seq<u8>) -> int {
    byte_at(p, 1) * 256 + byte_at(p, 2)
}

/// The bytes of the prelude past the packet ID and the length prefix.
pub open spec fn old_payload(p: Seq<u8>) -> int {
    if p.len() >= 3 {
        p.len() - 3
    } else {
        0
    }
}

/// The oldest dialect's username is UCS-2 exactly when half the payload
/// equals the non-negative wire length; otherwise it is modified UTF-8.
pub open spec fn old_is_ucs2(p: Seq<u8>) -> bool {
    old_wire_len(p) < 0x8000 && old_payload(p) / 2 == old_wire_len(p)
}

/// The framing the oldest dialect's prelude implies.
pub open spec fn old_framing(p: Seq<u8>) -> StringFraming {
    if old_is_ucs2(p) {
        StringFraming::Ucs2
    } else {
        StringFraming::Mutf8
    }
}

/// The synthetic connection-hash reply sent to an old-handshake client: the
/// packet ID 0x02 followed by the one-character string `-` in the framing
/// the client used.
pub open spec fn synthetic_reply(f: StringFraming) -> Seq<u8> {
    seq![0x02u8] + (match f {
        StringFraming::Ucs2 => string16_encoding(seq!['-']),
        StringFraming::Mutf8 => string8_encoding(seq!['-']),
    })
}

/// Classify the first read from a client.  The five rules are tried in
/// order and the first match wins; when none matches the tag is `Unknown`,
/// which still goes through routing.  The only failure is a non-terminating
/// varint inside a newer-dialect handshake.
pub fn classify_prelude(prelude: &Vec<u8>) -> (r: Result<Classification, ClassifyError>)
    requires
        1 <= prelude@.len() <= 1024,
    ensures
        rule_new_guard(prelude@) ==> (match new_protocol(prelude@) {
            Some(v) => r == Ok::<Classification, ClassifyError>(
                Classification::Done(ProtocolTag::New(v)),
            ),
            None => r == Err::<Classification, ClassifyError>(ClassifyError::MalformedHandshake),
        }),
        !rule_new_guard(prelude@) && rule_post39_guard(prelude@) ==> r == Ok::<
            Classification,
            ClassifyError,
        >(Classification::Done(ProtocolTag::PreNettyPost39ListPing)),
        !rule_new_guard(prelude@) && !rule_post39_guard(prelude@) && rule_mid_guard(prelude@)
            ==> r == Ok::<Classification, ClassifyError>(
            Classification::Done(ProtocolTag::Legacy(byte_at(prelude@, 1) as i32)),
        ),
        !rule_new_guard(prelude@) && !rule_post39_guard(prelude@) && !rule_mid_guard(prelude@)
            && rule_pre39_guard(prelude@) ==> r == Ok::<Classification, ClassifyError>(
            Classification::Done(ProtocolTag::PreNettyPre39ListPing),
        ),
        !rule_new_guard(prelude@) && !rule_post39_guard(prelude@) && !rule_mid_guard(prelude@)
            && !rule_pre39_guard(prelude@) && rule_old_guard(prelude@) ==> {
            &&& r matches Ok(c)
            &&& c matches Classification::NeedLogin { framing, reply }
            &&& framing == old_framing(prelude@)
            &&& reply@ == synthetic_reply(old_framing(prelude@))
        },
        !rule_new_guard(prelude@) && !rule_post39_guard(prelude@) && !rule_mid_guard(prelude@)
            && !rule_pre39_guard(prelude@) && !rule_old_guard(prelude@) ==> r == Ok::<
            Classification,
            ClassifyError,
        >(Classification::Done(ProtocolTag::Unknown)),
        r is Err ==> rule_new_guard(prelude@) && new_protocol(prelude@) is None,
{
    let n: usize = prelude.len();
    let b0: u8 = padded_byte(prelude, 0);
    let b1: u8 = padded_byte(prelude, 1);
    if n > 1 && b1 == 0x00 && b0 != 0x00 && b0 != 0x02 {
        // Newer dialect: packet-length varint, one packet-ID byte, then the
        // protocol-version varint.
        match decode_var_int(prelude, 0) {
            Ok(first) => {
                match decode_var_int(prelude, first.1 + 1) {
                    Ok(second) => Ok(Classification::Done(ProtocolTag::New(second.0))),
                    Err(_) => Err(ClassifyError::MalformedHandshake),
                }
            },
            Err(_) => Err(ClassifyError::MalformedHandshake),
        }
    } else if b0 == 0xFE && b1 == 0x01 {
        Ok(Classification::Done(ProtocolTag::PreNettyPost39ListPing))
    } else if b0 == 0x02 && b1 <= 80 && b1 >= 33 {
        Ok(Classification::Done(ProtocolTag::Legacy(b1 as i32)))
    } else if b0 == 0xFE && n == 1 {
        Ok(Classification::Done(ProtocolTag::PreNettyPre39ListPing))
    } else if b0 == 0x02 {
        // Oldest dialect: decide the username framing, then answer the
        // handshake ourselves, because no backend has been chosen yet.
        let b2: u8 = padded_byte(prelude, 2);
        let wire_len: usize = (b1 as usize) * 256 + (b2 as usize);
        let payload: usize = if n >= 3 {
            n - 3
        } else {
            0
        };
        let is_ucs2: bool = b1 < 128 && payload / 2 == wire_len;
        proof {
            assert(old_wire_len(prelude@) == wire_len);
            assert(old_payload(prelude@) == payload);
            assert(is_ucs2 == old_is_ucs2(prelude@));
            reveal_strlit("-");
            assert("-"@ =~= seq!['-']);
        }
        if is_ucs2 {
            match string16_encode("-") {
                Ok(mut enc) => {
                    let mut reply: Vec<u8> = Vec::new();
                    reply.push(0x02);
                    reply.append(&mut enc);
                    proof {
                        assert(reply@ =~= seq![0x02u8] + string16_encoding(seq!['-']));
                    }
                    Ok(Classification::NeedLogin { framing: StringFraming::Ucs2, reply })
                },
                Err(_) => {
                    proof {
                        assert(false);
                    }
                    Err(ClassifyError::MalformedHandshake)
                },
            }
        } else {
            match string8_encode("-") {
                Ok(mut enc) => {
                    let mut reply: Vec<u8> = Vec::new();
                    reply.push(0x02);
                    reply.append(&mut enc);
                    proof {
                        assert(reply@ =~= seq![0x02u8] + string8_encoding(seq!['-']));
                    }
                    Ok(Classification::NeedLogin { framing: StringFraming::Mutf8, reply })
                },
                Err(_) => {
                    proof {
                        assert(mutf8_char('-') =~= seq![0x2Du8]);
                        assert(seq!['-'].drop_first() =~= Seq::<char>::empty());
                        assert(mutf8_encoding(Seq::<char>::empty()) =~= Seq::<u8>::empty());
                        assert(mutf8_encoding(seq!['-']) == mutf8_char('-') + mutf8_encoding(
                            Seq::<char>::empty(),
                        ));
                        assert(mutf8_encoding("-"@).len() == 1);
                        assert(false);
                    }
                    Err(ClassifyError::MalformedHandshake)
                },
            }
        }
    } else {
        Ok(Classification::Done(ProtocolTag::Unknown))
    }
}

/// The big-endian int32 at offset `i`.
pub open spec fn be_i32_at(b: Seq<u8>, i: int) -> i32 {
    let u = byte_at(b, i) * 0x1000000 + byte_at(b, i + 1) * 0x10000 + byte_at(b, i + 2) * 0x100
        + byte_at(b, i + 3);
    if u < 0x80000000 {
        u as i32
    } else {
        (u - 0x100000000) as i32
    }
}

/// Compute the tag from the five-byte login request the oldest dialect
/// sends after the synthetic reply: one packet-ID byte, then the client's
/// protocol version as a big-endian int32.
pub fn classify_login(login: &Vec<u8>) -> (t: ProtocolTag)
    requires
        login@.len() == 5,
    ensures
        t == ProtocolTag::Legacy(be_i32_at(login@, 1)),
{
    let u: u32 = (login[1] as u32) * 0x1000000 + (login[2] as u32) * 0x10000 + (login[3] as u32)
        * 0x100 + (login[4] as u32);
    let v: i32 = if u >= 0x80000000 {
        (((u as i64) - 0x100000000) as i32)
    } else {
        (u as i32)
    };
    ProtocolTag::Legacy(v)
}

/// Law: for the oldest handshake dialect, a prelude whose payload is even
/// classifies as UCS-2 exactly when the payload is twice the wire length;
/// every other prelude classifies as modified UTF-8.  (An odd payload can
/// still round down onto the wire length, which is why the even case is the
/// one that disambiguates.)
pub proof fn lemma_framing_disambiguation(p: Seq<u8>)
    requires
        3 <= p.len() <= 1024,
        (p.len() - 3) % 2 == 0,
    ensures
        old_framing(p) == StringFraming::Ucs2 <==> old_payload(p) == 2 * old_wire_len(p),
{
    let l = old_wire_len(p);
    let pay = old_payload(p);
    if l < 0x8000 {
        assert(pay % 2 == 0);
        assert(pay / 2 == l <==> pay == 2 * l);
    } else {
        assert(pay <= 1021);
        assert(2 * l >= 0x10000);
    }
}

} // verus!
