//! The routing key a classified handshake produces: a short tag naming the
//! protocol dialect and version, rendered as a string for the routing-table
//! lookup.

use vstd::prelude::*;

verus! {

/// The protocol dialect and version a handshake was classified as.
#[derive(Clone, Copy, Debug, PartialEq, Eq, Structural)]
pub enum ProtocolTag {
    /// The newer, length-prefixed handshake; carries the varint protocol
    /// version.  Rendered as `N<version>`.
    New(u32),
    /// A legacy handshake; carries the protocol number from the second byte
    /// or from the login request's int32.  Rendered as `P<version>`.
    Legacy(i32),
    /// The legacy server-list ping that sends the magic byte 0x01.
    PreNettyPost39ListPing,
    /// The oldest server-list ping: a single 0xFE byte.
    PreNettyPre39ListPing,
    /// No rule matched the first bytes.
    Unknown,
}

/// The decimal digit character for a value below ten.
pub open spec fn dec_digit(d: nat) -> char {
    if d == 0 {
        '0'
    } else if d == 1 {
        '1'
    } else if d == 2 {
        '2'
    } else if d == 3 {
        '3'
    } else if d == 4 {
        '4'
    } else if d == 5 {
        '5'
    } else if d == 6 {
        '6'
    } else if d == 7 {
        '7'
    } else if d == 8 {
        '8'
    } else {
        '9'
    }
}

/// The decimal digits of `v`, most significant first, with no leading zero
/// except for zero itself.
pub open spec fn dec_rep(v: nat) -> Seq<char>
    decreases v,
{
    if v < 10 {
        seq![dec_digit(v)]
    } else {
        dec_rep(v / 10) + seq![dec_digit(v % 10)]
    }
}

/// The characters of the routing key for a tag.
pub open spec fn tag_chars(t: ProtocolTag) -> Seq<char> {
    match t {
        ProtocolTag::New(v) => seq!['N'] + dec_rep(v as nat),
        ProtocolTag::Legacy(v) => {
            if v >= 0 {
                seq!['P'] + dec_rep(v as nat)
            } else {
                seq!['P', '-'] + dec_rep((-(v as int)) as nat)
            }
        },
        ProtocolTag::PreNettyPost39ListPing => "PreNettyPost39ListPing"@,
        ProtocolTag::PreNettyPre39ListPing => "PreNettyPre39ListPing"@,
        ProtocolTag::Unknown => "Unknown"@,
    }
}

/// The one-character string for a decimal digit.
fn digit_str(d: u64) -> (r: &'static str)
    requires
        d < 10,
    ensures
        r@ == seq![dec_digit(d as nat)],
{
    proof {
        reveal_strlit("0");
        reveal_strlit("1");
        reveal_strlit("2");
        reveal_strlit("3");
        reveal_strlit("4");
        reveal_strlit("5");
        reveal_strlit("6");
        reveal_strlit("7");
        reveal_strlit("8");
        reveal_strlit("9");
    }
    if d == 0 {
        "0"
    } else if d == 1 {
        "1"
    } else if d == 2 {
        "2"
    } else if d == 3 {
        "3"
    } else if d == 4 {
        "4"
    } else if d == 5 {
        "5"
    } else if d == 6 {
        "6"
    } else if d == 7 {
        "7"
    } else if d == 8 {
        "8"
    } else {
        "9"
    }
}

/// Append the decimal digits of `v` to `out`.
fn push_decimal(out: &mut String, v: u64)
    ensures
        final(out)@ == old(out)@ + dec_rep(v as nat),
    decreases v,
{
    if v < 10 {
        out.append(digit_str(v));
    } else {
        push_decimal(out, v / 10);
        let ghost mid = out@;
        out.append(digit_str(v % 10));
        proof {
            assert(out@ =~= old(out)@ + (dec_rep((v / 10) as nat) + seq![dec_digit(
                (v % 10) as nat,
            )]));
        }
    }
}

impl ProtocolTag {
    /// The routing key for this tag: `N` or `P` followed by the decimal
    /// version (with a sign for a negative legacy version), or the fixed
    /// name of a ping dialect.
    pub fn tag_string(&self) -> (r: String)
        ensures
            r@ == tag_chars(*self),
    {
        match self {
            ProtocolTag::New(v) => {
                let mut out: String = String::new();
                proof {
                    reveal_strlit("N");
                }
                out.append("N");
                push_decimal(&mut out, *v as u64);
                proof {
                    assert(out@ =~= seq!['N'] + dec_rep(*v as nat));
                }
                out
            },
            ProtocolTag::Legacy(v) => {
                let mut out: String = String::new();
                proof {
                    reveal_strlit("P");
                    reveal_strlit("-");
                }
                out.append("P");
                if *v >= 0 {
                    push_decimal(&mut out, *v as u64);
                    proof {
                        assert(out@ =~= seq!['P'] + dec_rep(*v as nat));
                    }
                } else {
                    out.append("-");
                    let magnitude: u64 = (-(*v as i64)) as u64;
                    push_decimal(&mut out, magnitude);
                    proof {
                        assert(out@ =~= seq!['P', '-'] + dec_rep((-(*v as int)) as nat));
                    }
                }
                out
            },
            ProtocolTag::PreNettyPost39ListPing => {
                let r: String = String::from_str("PreNettyPost39ListPing");
                r
            },
            ProtocolTag::PreNettyPre39ListPing => {
                let r: String = String::from_str("PreNettyPre39ListPing");
                r
            },
            ProtocolTag::Unknown => {
                let r: String = String::from_str("Unknown");
                r
            },
        }
    }
}

} // verus!
