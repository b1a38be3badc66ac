//! What the person chose, kept as a small JSON file beside sigil's other
//! state: how long a wake endpoint lives, whether to stay reachable without
//! a distributor, and -- carried over from an older file -- how much a
//! notification says.
use vstd::prelude::*;

use crate::notify::Privacy;
use crate::text::{chars_of, concat, string_of};

verus! {

/// `Path::push` of a relative part, as std documents it: a separator
/// between, unless the base is empty or already ends in one.
pub open spec fn join_path(base: Seq<char>, part: Seq<char>) -> Seq<char> {
    if base.len() == 0 {
        part
    } else if base.last() == '/' {
        base + part
    } else {
        base + seq!['/'] + part
    }
}

/// `base` joined with the relative path `part`.
pub fn join(base: &str, part: &str) -> (r: String)
    ensures
        r@ == join_path(base@, part@),
{
    let b = chars_of(base);
    let p = chars_of(part);
    if b.len() == 0 {
        string_of(&p)
    } else if b[b.len() - 1] == '/' {
        string_of(&concat(&b, &p))
    } else {
        let mut with = b;
        with.push('/');
        string_of(&concat(&with, &p))
    }
}

#[derive(Debug, Clone, Copy, PartialEq, Eq)]
pub struct Settings {
    /// Where the notification setting used to live: read once from an
    /// older file and cleared; `None` afterwards, and on a phone that never
    /// had it.
    pub privacy: Option<Privacy>,
    /// How long the exchange keeps the wake endpoint, in days.
    pub endpoint_days: u32,
    /// Keep the process alive with its connection open when sigil is not in
    /// front. Off unless chosen.
    pub stay_reachable: bool,
}

impl Default for Settings {
    fn default() -> (s: Settings)
        ensures
            s.privacy is None,
            s.endpoint_days == 30,
            !s.stay_reachable,
    {
        Settings { privacy: None, endpoint_days: 30, stay_reachable: false }
    }
}

impl Settings {
    /// Where the settings live under sigil's data directory.
    pub fn path_under(data: &str) -> (r: String)
        ensures
            r@ == join_path(data@, "phone.json"@),
    {
        join(data, "phone.json")
    }

    /// What was on disk, when it was there and parsed; the default
    /// otherwise -- a setting that cannot be read is the default, not a
    /// phone that will not start.
    pub fn or_default(read: Option<Settings>) -> (s: Settings)
        ensures
            match read {
                Some(r) => s == r,
                None => s.privacy is None && s.endpoint_days == 30 && !s.stay_reachable,
            },
    {
        match read {
            Some(r) => r,
            None => Settings::default(),
        }
    }

    /// The older file's notification setting, taken out to be carried
    /// across; the settings no longer hold it.
    pub fn carry_privacy(&mut self) -> (r: Option<Privacy>)
        ensures
            r == old(self).privacy,
            final(self).privacy is None,
            final(self).endpoint_days == old(self).endpoint_days,
            final(self).stay_reachable == old(self).stay_reachable,
    {
        let r = self.privacy;
        self.privacy = None;
        r
    }
}

} // verus!
