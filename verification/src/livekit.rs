//! Events of the external media plane's webhook.

use vstd::prelude::*;

verus! {

/// What kind of track an event concerns.
#[derive(Debug, Clone, Copy, PartialEq, Eq, Structural)]
pub enum TrackType {
    Audio,
    Video,
    Unknown,
}

/// One parsed webhook event.
#[derive(Debug, Clone)]
pub enum LiveKitEvent {
    ParticipantJoined { user_id: i64, room: String },
    ParticipantLeft { user_id: i64, room: String },
    TrackPublished { user_id: i64, room: String, track_type: TrackType },
    TrackUnpublished { user_id: i64, room: String, track_type: TrackType },
    Unknown,
}

/// The webhook's acknowledgement.
#[derive(Debug, Clone, Copy, PartialEq, Eq, Structural)]
pub struct WebhookResponse {
    pub processed: bool,
}

/// The character of one decimal digit.
pub open spec fn digit_char(d: int) -> char {
    if d == 0 {
        '0'
    } else if d == 1 {
        '1'
    } else if d == 2 {
        '2'
    } else if d == 3 {
        '3'
    } else if d == 4 {
        '4'
    } else if d == 5 {
        '5'
    } else if d == 6 {
        '6'
    } else if d == 7 {
        '7'
    } else if d == 8 {
        '8'
    } else {
        '9'
    }
}

/// The decimal digits of a number, most significant first.
pub open spec fn dec_digits(n: int) -> Seq<char>
    recommends
        n >= 0,
    decreases n,
{
    if n < 10 {
        seq![digit_char(n)]
    } else {
        dec_digits(n / 10) + seq![digit_char(n % 10)]
    }
}

/// The decimal rendering of a signed number: a minus sign, then the
/// digits of its magnitude.
pub open spec fn dec_signed(v: int) -> Seq<char> {
    if v < 0 {
        seq!['-'] + dec_digits(-v)
    } else {
        dec_digits(v)
    }
}

/// Append one decimal digit to `s`.
fn append_digit(s: &mut String, d: u64)
    requires
        d < 10,
    ensures
        final(s)@ == old(s)@ + seq![digit_char(d as int)],
{
    if d == 0 {
        proof {
            reveal_strlit("0");
        }
        s.append("0");
    } else if d == 1 {
        proof {
            reveal_strlit("1");
        }
        s.append("1");
    } else if d == 2 {
        proof {
            reveal_strlit("2");
        }
        s.append("2");
    } else if d == 3 {
        proof {
            reveal_strlit("3");
        }
        s.append("3");
    } else if d == 4 {
        proof {
            reveal_strlit("4");
        }
        s.append("4");
    } else if d == 5 {
        proof {
            reveal_strlit("5");
        }
        s.append("5");
    } else if d == 6 {
        proof {
            reveal_strlit("6");
        }
        s.append("6");
    } else if d == 7 {
        proof {
            reveal_strlit("7");
        }
        s.append("7");
    } else if d == 8 {
        proof {
            reveal_strlit("8");
        }
        s.append("8");
    } else {
        proof {
            reveal_strlit("9");
        }
        s.append("9");
    }
}

/// Append a number's decimal digits to `s`.
fn append_decimal(s: &mut String, n: u64)
    ensures
        final(s)@ == old(s)@ + dec_digits(n as int),
    decreases n,
{
    if n >= 10 {
        append_decimal(s, n / 10);
        append_digit(s, n % 10);
        assert(s@ =~= old(s)@ + dec_digits(n as int));
    } else {
        append_digit(s, n);
    }
}

/// Append a signed number's decimal rendering to `s`.
fn append_signed(s: &mut String, v: i64)
    ensures
        final(s)@ == old(s)@ + dec_signed(v as int),
{
    if v < 0 {
        proof {
            reveal_strlit("-");
        }
        s.append("-");
        let magnitude: u64 = if v == i64::MIN {
            9223372036854775808u64
        } else {
            (-v) as u64
        };
        assert(magnitude == -(v as int));
        append_decimal(s, magnitude);
        assert(s@ =~= old(s)@ + dec_signed(v as int));
    } else {
        append_decimal(s, v as u64);
        assert(s@ =~= old(s)@ + dec_signed(v as int));
    }
}

/// The media room of a channel: the channel id under a fixed prefix.
pub fn room_name_for_channel(channel_id: i64) -> (r: String)
    ensures
        r@ == "channel-"@ + dec_signed(channel_id as int),
{
    let mut name = String::from_str("channel-");
    append_signed(&mut name, channel_id);
    name
}

/// The media room of a direct call: both user ids under a fixed
/// prefix, the smaller first, so either party names the same room.
pub fn room_name_for_private(user_a: i64, user_b: i64) -> (r: String)
    ensures
        ({
            let lo = if user_a < user_b {
                user_a
            } else {
                user_b
            };
            let hi = if user_a < user_b {
                user_b
            } else {
                user_a
            };
            r@ == "private-"@ + dec_signed(lo as int) + "-"@ + dec_signed(hi as int)
        }),
{
    let (lo, hi) = if user_a < user_b {
        (user_a, user_b)
    } else {
        (user_b, user_a)
    };
    let mut name = String::from_str("private-");
    append_signed(&mut name, lo);
    proof {
        reveal_strlit("-");
    }
    name.append("-");
    append_signed(&mut name, hi);
    name
}

} // verus!
