//! Leaving a wake endpoint with the exchange: how long it is kept, and what
//! the exchange's answer means.
use vstd::prelude::*;

use crate::text::{chars_of, concat, decimal, decimal_of, string_of};

verus! {

/// The longest an exchange keeps a wake endpoint: thirty days, in seconds.
pub const MAX_TTL: u32 = 2_592_000;

/// A day, in seconds.
pub const DAY: u32 = 86_400;

/// What came of asking.
#[derive(Debug, Clone, PartialEq, Eq)]
pub enum Registered {
    /// The exchange keeps the endpoint until `ttl` runs out, by its clock.
    Kept,
    /// This exchange does not wake devices; it answered `not_found`.
    Unsupported,
    /// Refused, with the exchange's reason.
    Refused(String),
    /// The connection failed under the request.
    Failed(String),
}

impl Registered {
    /// The same answer again.
    pub fn duplicate(&self) -> (r: Registered)
        ensures
            r == *self,
    {
        match self {
            Registered::Kept => Registered::Kept,
            Registered::Unsupported => Registered::Unsupported,
            Registered::Refused(why) => Registered::Refused(why.clone()),
            Registered::Failed(why) => Registered::Failed(why.clone()),
        }
    }
}

/// The `ttl` a registration asks for: what was asked, kept between one
/// second and thirty days.
pub fn register_ttl(ttl: u32) -> (r: u32)
    ensures
        r == if ttl < 1 {
            1
        } else if ttl > MAX_TTL {
            MAX_TTL
        } else {
            ttl
        },
{
    if ttl < 1 {
        1
    } else if ttl > MAX_TTL {
        MAX_TTL
    } else {
        ttl
    }
}

/// The endpoint's life for a setting of `days`: a day to thirty, in
/// seconds.
pub open spec fn endpoint_life(days: u32) -> int {
    (if days < 1 {
        1
    } else if days > 30 {
        30
    } else {
        days
    }) * DAY
}

pub fn endpoint_ttl(days: u32) -> (r: u32)
    ensures
        r == endpoint_life(days),
{
    let d = if days < 1 {
        1
    } else if days > 30 {
        30
    } else {
        days
    };
    d * DAY
}

/// The exchanges a wake visits: those the roster holds for this identity,
/// or, when it holds none for it, the default one -- named by the empty
/// string, as the roster names it.
pub fn exchanges_or_default(found: Option<Vec<String>>) -> (r: Vec<String>)
    ensures
        match found {
            Some(v) => r@ == v@,
            None => r@.len() == 1 && r@[0]@ == Seq::<char>::empty(),
        },
{
    match found {
        Some(v) => v,
        None => {
            let mut r: Vec<String> = Vec::new();
            r.push(String::new());
            r
        },
    }
}

/// A refusal in words: the exchange's own when its body was one, the
/// status otherwise.
pub open spec fn said_text(code: u16, refusal: Option<Seq<char>>) -> Seq<char> {
    match refusal {
        Some(r) => r + " ("@ + decimal(code as nat) + ")"@,
        None => "status "@ + decimal(code as nat),
    }
}

/// `refusal` is the refusal the body decoded to, in words, if it was one.
pub fn said(code: u16, refusal: Option<&str>) -> (r: String)
    ensures
        r@ == said_text(code, match refusal {
            Some(s) => Some(s@),
            None => None,
        }),
{
    let number = decimal_of(code as u64);
    match refusal {
        Some(words) => {
            let mut out = concat(&chars_of(words), &chars_of(" ("));
            out = concat(&out, &number);
            out = concat(&out, &chars_of(")"));
            string_of(&out)
        },
        None => string_of(&concat(&chars_of("status "), &number)),
    }
}

/// What the exchange's reply to a registration (or a forgetting) means: a
/// `200` kept it, a `404` is an exchange that does not wake devices, any
/// other status a refusal, and no reply a failure.
pub fn answer(reply: Result<u16, String>, refusal: Option<&str>) -> (r: Registered)
    ensures
        match reply {
            Ok(code) => if code == 200 {
                r == Registered::Kept
            } else if code == 404 {
                r == Registered::Unsupported
            } else {
                r matches Registered::Refused(why) && why@ == said_text(code, match refusal {
                    Some(s) => Some(s@),
                    None => None,
                })
            },
            Err(e) => r == Registered::Failed(e),
        },
{
    match reply {
        Ok(code) => {
            if code == 200 {
                Registered::Kept
            } else if code == 404 {
                Registered::Unsupported
            } else {
                Registered::Refused(said(code, refusal))
            }
        },
        Err(e) => Registered::Failed(e),
    }
}

/// A wake window's budget, in seconds: what the service asked for, never
/// under five.
pub fn window_budget(asked: i32) -> (r: u64)
    ensures
        r == if asked < 5 {
            5
        } else {
            asked as u64
        },
{
    if asked < 5 {
        5
    } else {
        asked as u64
    }
}

/// A refusal's budget, in seconds: what was asked for, never under three.
pub fn decline_budget(asked: i32) -> (r: u64)
    ensures
        r == if asked < 3 {
            3
        } else {
            asked as u64
        },
{
    if asked < 3 {
        3
    } else {
        asked as u64
    }
}

/// Each exchange's share of a wake's budget, in seconds, the exchanges taking
/// their turns one after another.
pub fn share_of(budget: u64, exchanges: usize) -> (r: u64)
    ensures
        r == budget / (if exchanges == 0 {
            1
        } else {
            exchanges as u64
        }),
{
    let n: u64 = if exchanges == 0 {
        1
    } else {
        exchanges as u64
    };
    budget / n
}

/// A ring's sequence number as the platform hands it over: negative when
/// the notification did not know it.
pub fn known_seq(seq: i64) -> (r: Option<u64>)
    ensures
        r == if seq >= 0 {
            Some(seq as u64)
        } else {
            None::<u64>
        },
{
    if seq >= 0 {
        Some(seq as u64)
    } else {
        None
    }
}

} // verus!
