//! The byte-exact plan of what must reach the backend once a connection is
//! classified: the prelude first, then — only for the oldest dialect —
//! the cached five-byte login request, after the backend's own handshake
//! reply has been drained.  The live bidirectional copy that follows is
//! plain I/O and happens outside the library, driven by this plan.

use vstd::prelude::*;

use crate::classify::StringFraming;
use crate::classify::be_i32_at;
use crate::classify::classify_login;
use crate::tag::ProtocolTag;

verus! {

/// Everything a connection task needs between classification and the
/// bidirectional copy.
pub struct ConnectionPlan {
    /// The routing key.
    pub tag: ProtocolTag,
    /// The bytes already read from the client; written to the backend first,
    /// unchanged and in order.
    pub prelude: Vec<u8>,
    /// True exactly when the proxy already answered the client's handshake
    /// itself, so the backend's equivalent reply must be swallowed.
    pub suppress_backend_handshake: bool,
    /// The string framing the client used; present exactly when the
    /// backend's reply must be drained, since it decides the drain length.
    pub framing: Option<StringFraming>,
    /// The cached five-byte login request; present exactly when the
    /// handshake was answered by the proxy, and written to the backend
    /// after the drain.
    pub deferred_login: Option<Vec<u8>>,
}

impl ConnectionPlan {
    /// The plan's invariant: the deferred login and the framing exist
    /// exactly when the backend's handshake reply is to be suppressed, and
    /// the deferred login is exactly five bytes.
    pub open spec fn wf(self) -> bool {
        &&& self.suppress_backend_handshake <==> self.deferred_login is Some
        &&& self.suppress_backend_handshake <==> self.framing is Some
        &&& self.deferred_login matches Some(d) ==> d@.len() == 5
    }

    /// Every byte this plan sends to the backend before the bidirectional
    /// copy begins, in order.
    pub open spec fn backend_prefix(self) -> Seq<u8> {
        self.prelude@ + (match self.deferred_login {
            Some(d) => d@,
            None => Seq::<u8>::empty(),
        })
    }

    /// A plan for the dialects whose handshake goes through untouched: the
    /// prelude alone reaches the backend.
    pub fn direct(tag: ProtocolTag, prelude: Vec<u8>) -> (p: ConnectionPlan)
        ensures
            p.wf(),
            p.tag == tag,
            !p.suppress_backend_handshake,
            p.framing is None,
            p.backend_prefix() == prelude@,
    {
        let p = ConnectionPlan {
            tag,
            prelude,
            suppress_backend_handshake: false,
            framing: None,
            deferred_login: None,
        };
        proof {
            assert(p.backend_prefix() =~= p.prelude@);
        }
        p
    }

    /// A plan for the oldest dialect, after the synthetic reply was sent
    /// and the five-byte login request read: the tag comes from the login
    /// request's big-endian int32, and the backend receives the prelude and
    /// then, once its own handshake reply is drained, the login request.
    pub fn with_login(prelude: Vec<u8>, framing: StringFraming, login: Vec<u8>) -> (p:
        ConnectionPlan)
        requires
            login@.len() == 5,
        ensures
            p.wf(),
            p.tag == ProtocolTag::Legacy(be_i32_at(login@, 1)),
            p.suppress_backend_handshake,
            p.framing == Some(framing),
            p.deferred_login matches Some(d) && d@ == login@,
            p.backend_prefix() == prelude@ + login@,
    {
        let tag = classify_login(&login);
        let p = ConnectionPlan {
            tag,
            prelude,
            suppress_backend_handshake: true,
            framing: Some(framing),
            deferred_login: Some(login),
        };
        p
    }
}

/// Law: the bytes written to the backend before the bidirectional copy are
/// exactly the prelude followed by the deferred login where the handshake
/// was suppressed, and the prelude alone otherwise — nothing else, nothing
/// twice.  Each byte the plan carries appears at exactly one position of
/// the prefix.
pub proof fn lemma_prelude_faithfulness(p: ConnectionPlan)
    requires
        p.wf(),
    ensures
        p.suppress_backend_handshake ==> p.backend_prefix() == p.prelude@
            + p.deferred_login->Some_0@,
        !p.suppress_backend_handshake ==> p.backend_prefix() == p.prelude@,
        p.backend_prefix().len() == p.prelude@.len() + (if p.suppress_backend_handshake {
            5int
        } else {
            0int
        }),
        forall|i: int|
            0 <= i < p.prelude@.len() ==> #[trigger] p.backend_prefix()[i] == p.prelude@[i],
        p.suppress_backend_handshake ==> forall|i: int|
            0 <= i < 5 ==> #[trigger] p.backend_prefix()[p.prelude@.len() + i]
                == p.deferred_login->Some_0@[i],
{
    if !p.suppress_backend_handshake {
        assert(p.backend_prefix() =~= p.prelude@);
    }
}

/// The big-endian int16 at offset `i`.
pub open spec fn be_i16_at(b: Seq<u8>, i: int) -> int {
    let u = crate::codec::byte_at(b, i) * 256 + crate::codec::byte_at(b, i + 1);
    if u < 0x8000 {
        u
    } else {
        u - 0x10000
    }
}

/// How many bytes of the backend's handshake reply must be drained after
/// its three-byte header (packet ID, then an int16 string length): twice
/// the length for UCS-2 framing, the length itself for modified UTF-8.
/// `None` where the backend sent a negative length, which no draining can
/// make sense of; the connection is then dropped.
pub fn backend_drain_len(header: &Vec<u8>, framing: StringFraming) -> (r: Option<usize>)
    requires
        header@.len() == 3,
    ensures
        r is Some <==> be_i16_at(header@, 1) >= 0,
        r matches Some(l) ==> l == (match framing {
            StringFraming::Ucs2 => 2 * be_i16_at(header@, 1),
            StringFraming::Mutf8 => be_i16_at(header@, 1),
        }),
{
    let hi: u8 = header[1];
    let lo: u8 = header[2];
    if hi >= 128 {
        return None;
    }
    let l: usize = (hi as usize) * 256 + (lo as usize);
    match framing {
        StringFraming::Ucs2 => Some(2 * l),
        StringFraming::Mutf8 => Some(l),
    }
}

} // verus!
