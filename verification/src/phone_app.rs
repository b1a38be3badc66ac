//! What the *Phone* tab shows: what this phone can do and why not, and where
//! its wake goes.
use vstd::prelude::*;

use crate::text::{chars_of, concat, decimal, decimal_of, same, slice_of, string_of};

verus! {

/// What the platform side reports about itself.
#[derive(Debug, Clone, Default, PartialEq, Eq)]
pub struct PhoneReport {
    /// The push endpoint the distributor gave, if any.
    pub endpoint: Option<String>,
    /// Which distributor is delivering, if any.
    pub distributor: Option<String>,
    /// The last wake window's one-line report.
    pub last_window: Option<String>,
    /// Whether the platform lets sigil post notifications right now.
    pub notifications: Option<bool>,
}

impl PhoneReport {
    /// What the platform says at launch: the endpoint the glue holds, a
    /// UnifiedPush distributor behind it if there is one, and whether
    /// notifications are allowed; no window yet.
    pub fn at_launch(endpoint: Option<String>, notifications: bool) -> (r: PhoneReport)
        ensures
            r.endpoint == endpoint,
            match endpoint {
                Some(_) => r.distributor matches Some(d) && d@ == "UnifiedPush"@,
                None => r.distributor is None,
            },
            r.last_window is None,
            r.notifications == Some(notifications),
    {
        let distributor = match &endpoint {
            Some(_) => Some(String::from_str("UnifiedPush")),
            None => None,
        };
        PhoneReport { endpoint, distributor, last_window: None, notifications: Some(notifications) }
    }
}

/// Whether something is available here, and if not, why.
#[derive(Debug, Clone, PartialEq, Eq)]
pub enum Support {
    Yes,
    No(String),
}

impl Support {
    pub fn no(why: &str) -> (s: Support)
        ensures
            s matches Support::No(w) && w@ == why@,
    {
        Support::No(String::from_str(why))
    }

    pub fn is_yes(&self) -> (r: bool)
        ensures
            r == (*self is Yes),
    {
        match self {
            Support::Yes => true,
            Support::No(_) => false,
        }
    }

    /// Why not, when it is not.
    pub fn reason(&self) -> (r: Option<&str>)
        ensures
            match self {
                Support::Yes => r is None,
                Support::No(w) => r matches Some(s) && s@ == w@,
            },
    {
        match self {
            Support::Yes => None,
            Support::No(why) => Some(why.as_str()),
        }
    }
}

/// One row of what this phone can do.
#[derive(Debug, Clone, PartialEq, Eq)]
pub struct Capability {
    pub name: &'static str,
    pub what: &'static str,
    pub support: Support,
}

impl Capability {
    /// The same row again.
    pub fn duplicate(&self) -> (r: Capability)
        ensures
            r == *self,
    {
        Capability {
            name: self.name,
            what: self.what,
            support: match &self.support {
                Support::Yes => Support::Yes,
                Support::No(why) => Support::No(why.clone()),
            },
        }
    }

    pub fn new(name: &'static str, what: &'static str, support: Support) -> (c: Capability)
        ensures
            c.name == name,
            c.what == what,
            c.support == support,
    {
        Capability { name, what, support }
    }
}

pub open spec fn names(rows: Seq<Capability>) -> Seq<Seq<char>> {
    rows.map_values(|c: Capability| c.name@)
}

/// The rows of `platform` whose name no row of the phone's has.
pub open spec fn not_answered(platform: Seq<Capability>, phone: Seq<Capability>) -> Seq<Capability>
    decreases platform.len(),
{
    if platform.len() == 0 {
        Seq::<Capability>::empty()
    } else {
        let before = not_answered(platform.drop_last(), phone);
        if names(phone).contains(platform.last().name@) {
            before
        } else {
            before.push(platform.last())
        }
    }
}

/// **The phone answers for itself, once**: no row kept of the platform's
/// has a name the phone answers for, and every platform row whose name the
/// phone does not answer for is kept.
pub proof fn the_phone_answers_for_itself(platform: Seq<Capability>, phone: Seq<Capability>)
    ensures
        forall|i: int|
            0 <= i < not_answered(platform, phone).len() ==> !names(phone).contains(
                (#[trigger] not_answered(platform, phone)[i]).name@,
            ),
        forall|k: int|
            0 <= k < platform.len() && !names(phone).contains((#[trigger] platform[k]).name@)
                ==> not_answered(platform, phone).contains(platform[k]),
    decreases platform.len(),
{
    if platform.len() > 0 {
        let p0 = platform.drop_last();
        the_phone_answers_for_itself(p0, phone);
        let before = not_answered(p0, phone);
        let last = platform.last();
        assert forall|i: int| 0 <= i < not_answered(platform, phone).len() implies !names(phone).contains(
            (#[trigger] not_answered(platform, phone)[i]).name@,
        ) by {
            if i < before.len() {
                assert(not_answered(platform, phone)[i] == before[i]);
            }
        }
        assert forall|k: int| 0 <= k < platform.len() && !names(phone).contains((#[trigger] platform[k]).name@)
            implies not_answered(platform, phone).contains(platform[k]) by {
            if k < p0.len() {
                assert(p0[k] == platform[k]);
                let j = choose|j: int| 0 <= j < before.len() && before[j] == p0[k];
                if !names(phone).contains(last.name@) {
                    assert(not_answered(platform, phone)[j] == before[j]);
                }
            } else {
                assert(not_answered(platform, phone).last() == last);
            }
        }
    }
}

fn named(rows: &Vec<Capability>, name: &str) -> (r: bool)
    ensures
        r == names(rows@).contains(name@),
{
    let want = chars_of(name);
    let mut i: usize = 0;
    while i < rows.len()
        invariant
            i <= rows@.len(),
            want@ == name@,
            forall|k: int| 0 <= k < i ==> names(rows@)[k] != name@,
        decreases rows@.len() - i,
    {
        if same(&chars_of(rows[i].name), &want) {
            assert(names(rows@)[i as int] == name@);
            return true;
        }
        i = i + 1;
    }
    false
}

/// The platform's rows and the phone's own, as one list: a row of the
/// phone's own always wins over the platform's of the same name, because
/// the phone is the thing being asked about.
pub fn merged(platform: Vec<Capability>, phone: Vec<Capability>) -> (r: Vec<Capability>)
    ensures
        r@ == not_answered(platform@, phone@) + phone@,
{
    let mut phone = phone;
    let mut out: Vec<Capability> = Vec::new();
    let mut i: usize = 0;
    while i < platform.len()
        invariant
            i <= platform@.len(),
            out@ == not_answered(platform@.take(i as int), phone@),
        decreases platform@.len() - i,
    {
        assert(platform@.take(i + 1).drop_last() == platform@.take(i as int));
        if !named(&phone, platform[i].name) {
            out.push(platform[i].duplicate());
        }
        i = i + 1;
    }
    assert(platform@.take(platform@.len() as int) == platform@);
    let ghost kept = out@;
    let ghost mine = phone@;
    out.append(&mut phone);
    assert(out@ == kept + mine);
    out
}

/// What the phone itself answers for: whether it may post notifications,
/// and whether it can be woken.
pub open spec fn notifications_support(report: PhoneReport) -> Option<Seq<char>> {
    match report.notifications {
        Some(true) => None,
        Some(false) => Some("turned off for sigil in the phone's settings"@),
        None => Some("not asked yet"@),
    }
}

pub open spec fn woken_support(report: PhoneReport) -> Option<Seq<char>> {
    match (report.distributor, report.endpoint) {
        (Some(_), Some(_)) => None,
        (Some(d), None) => Some(d@ + " has given no endpoint yet"@),
        (None, _) => Some("no push distributor is installed and no FCM bridge is configured"@),
    }
}

pub open spec fn support_says(s: Support, why: Option<Seq<char>>) -> bool {
    match why {
        None => s is Yes,
        Some(w) => s matches Support::No(r) && r@ == w,
    }
}

/// The rows the Phone tab shows: the platform's, and then the phone's own
/// two -- notifications, and being woken.
pub fn capabilities(report: &PhoneReport, platform: Vec<Capability>) -> (rows: Vec<Capability>)
    ensures
        rows@.len() == platform@.len() + 2,
        rows@.take(platform@.len() as int) == platform@,
        rows@[platform@.len() as int].name@ == "Notifications"@,
        rows@[platform@.len() as int].what@ == "says what arrived while sigil was not in front, and rings"@,
        support_says(rows@[platform@.len() as int].support, notifications_support(*report)),
        rows@[platform@.len() as int + 1].name@ == "Being woken"@,
        rows@[platform@.len() as int + 1].what@ == "the exchange wakes this phone for a message or a call (SIP-45)"@,
        support_says(rows@[platform@.len() as int + 1].support, woken_support(*report)),
{
    let mut rows = platform;
    let notifications = match report.notifications {
        Some(true) => Support::Yes,
        Some(false) => Support::no("turned off for sigil in the phone's settings"),
        None => Support::no("not asked yet"),
    };
    rows.push(
        Capability::new(
            "Notifications",
            "says what arrived while sigil was not in front, and rings",
            notifications,
        ),
    );
    let woken = match (&report.distributor, &report.endpoint) {
        (Some(_), Some(_)) => Support::Yes,
        (Some(d), None) => {
            let why = concat(&chars_of(d.as_str()), &chars_of(" has given no endpoint yet"));
            Support::No(string_of(&why))
        },
        (None, _) => Support::no("no push distributor is installed and no FCM bridge is configured"),
    };
    rows.push(
        Capability::new(
            "Being woken",
            "the exchange wakes this phone for a message or a call (SIP-45)",
            woken,
        ),
    );
    rows
}

pub open spec fn starts_with_chars(s: Seq<char>, p: Seq<char>) -> bool {
    p.len() <= s.len() && s.take(p.len() as int) == p
}

/// The key store's row: present, unless the vault says there is none.
pub fn key_store_row(describe: &'static str) -> (row: Capability)
    ensures
        row.name@ == "Key store"@,
        row.what@ == "keeps the passphrase that seals this phone's key"@,
        support_says(row.support, if starts_with_chars(describe@, "no key store"@) {
            Some(describe@)
        } else {
            None
        }),
{
    let d = chars_of(describe);
    let p = chars_of("no key store");
    let none = if p.len() <= d.len() {
        let head = slice_of(&d, 0, p.len());
        assert(head@ == d@.take(p@.len() as int));
        same(&head, &p)
    } else {
        false
    };
    Capability::new(
        "Key store",
        "keeps the passphrase that seals this phone's key",
        if none {
            Support::no(describe)
        } else {
            Support::Yes
        },
    )
}

/// Where `://` first stands in `s`, at or after `from`.
pub open spec fn scheme_mark(s: Seq<char>, from: int) -> Option<int>
    decreases s.len() - from,
{
    if from < 0 || from + 3 > s.len() {
        None
    } else if s[from] == ':' && s[from + 1] == '/' && s[from + 2] == '/' {
        Some(from)
    } else {
        scheme_mark(s, from + 1)
    }
}

/// Where `c` first stands in `s`.
pub open spec fn first_of(s: Seq<char>, c: char) -> Option<int>
    decreases s.len(),
{
    if s.len() == 0 {
        None
    } else {
        match first_of(s.drop_last(), c) {
            Some(i) => Some(i),
            None => if s.last() == c {
                Some(s.len() - 1)
            } else {
                None
            },
        }
    }
}

/// An endpoint, shortened for a row: what follows its scheme up to any
/// further `://`; its host; and the last eight characters of its path.
pub open spec fn brief_text(url: Seq<char>) -> Seq<char> {
    let rest = match scheme_mark(url, 0) {
        None => url,
        Some(i) => match scheme_mark(url, i + 3) {
            None => url.skip(i + 3),
            Some(j) => url.subrange(i + 3, j),
        },
    };
    match first_of(rest, '/') {
        None => rest,
        Some(k) => {
            let host = rest.take(k);
            let path = rest.skip(k + 1);
            if path.len() == 0 {
                host
            } else {
                host + "/…"@ + path.skip(if path.len() > 8 {
                    path.len() - 8
                } else {
                    0
                })
            }
        },
    }
}

fn find_mark(s: &Vec<char>, from: usize) -> (r: Option<usize>)
    requires
        from <= s@.len(),
    ensures
        match r {
            Some(i) => scheme_mark(s@, from as int) == Some(i as int) && from <= i && i + 3 <= s@.len(),
            None => scheme_mark(s@, from as int) is None,
        },
{
    let mut k = from;
    while s.len() - k >= 3
        invariant
            from <= k <= s@.len(),
            scheme_mark(s@, from as int) == scheme_mark(s@, k as int),
        decreases s@.len() - k,
    {
        if s[k] == ':' && s[k + 1] == '/' && s[k + 2] == '/' {
            return Some(k);
        }
        k = k + 1;
    }
    None
}

fn find_char(s: &Vec<char>, c: char) -> (r: Option<usize>)
    ensures
        match r {
            Some(i) => first_of(s@, c) == Some(i as int) && i < s@.len(),
            None => first_of(s@, c) is None,
        },
{
    let mut k: usize = 0;
    while k < s.len()
        invariant
            k <= s@.len(),
            first_of(s@.take(k as int), c) is None,
        decreases s@.len() - k,
    {
        assert(s@.take(k + 1).drop_last() == s@.take(k as int));
        if s[k] == c {
            proof {
                lemma_first_of_prefix(s@, c, (k + 1) as int);
            }
            return Some(k);
        }
        k = k + 1;
    }
    assert(s@.take(s@.len() as int) == s@);
    None
}

proof fn lemma_first_of_prefix(s: Seq<char>, c: char, n: int)
    requires
        0 < n <= s.len(),
        first_of(s.take(n), c) is Some,
    ensures
        first_of(s, c) == first_of(s.take(n), c),
    decreases s.len(),
{
    if n < s.len() {
        assert(s.drop_last().take(n) == s.take(n));
        lemma_first_of_prefix(s.drop_last(), c, n);
    } else {
        assert(s.take(n) == s);
    }
}

/// An endpoint, shortened for a row: its host, and the tail of its path.
pub fn brief(url: &str) -> (r: String)
    ensures
        r@ == brief_text(url@),
{
    let u = chars_of(url);
    let rest = match find_mark(&u, 0) {
        None => u,
        Some(i) => match find_mark(&u, i + 3) {
            None => slice_of(&u, i + 3, u.len()),
            Some(j) => slice_of(&u, i + 3, j),
        },
    };
    match find_char(&rest, '/') {
        None => string_of(&rest),
        Some(k) => {
            let host = slice_of(&rest, 0, k);
            let path = slice_of(&rest, k + 1, rest.len());
            if path.len() == 0 {
                string_of(&host)
            } else {
                let from = if path.len() > 8 {
                    path.len() - 8
                } else {
                    0
                };
                let tail = slice_of(&path, from, path.len());
                string_of(&concat(&concat(&host, &chars_of("/…")), &tail))
            }
        },
    }
}

/// How long the exchange may keep the endpoint, as the tab offers it: a
/// day, a week or a month, and a value set some other way as a fourth, so it
/// is never silently lost.
pub fn endpoint_choices(days: u32) -> (choices: Vec<(String, u32)>)
    ensures
        choices@.len() == if days == 1 || days == 7 || days == 30 {
            3int
        } else {
            4int
        },
        choices@[0].0@ == "a day"@ && choices@[0].1 == 1,
        choices@[1].0@ == "a week"@ && choices@[1].1 == 7,
        choices@[2].0@ == "a month"@ && choices@[2].1 == 30,
        !(days == 1 || days == 7 || days == 30) ==> (choices@[3].0@ == decimal(days as nat) + " days"@
            && choices@[3].1 == days),
{
    let mut choices: Vec<(String, u32)> = Vec::new();
    choices.push((String::from_str("a day"), 1));
    choices.push((String::from_str("a week"), 7));
    choices.push((String::from_str("a month"), 30));
    if !(days == 1 || days == 7 || days == 30) {
        let word = concat(&decimal_of(days as u64), &chars_of(" days"));
        choices.push((string_of(&word), days));
    }
    choices
}

/// Being woken, where the phone stays reachable instead: what the row says
/// in place of the platform's reason.
pub open spec fn kept_awake(c: Capability, stay_reachable: bool) -> bool {
    c.name@ == "Being woken"@ && !(c.support is Yes) && stay_reachable
}

/// How a capability row reads: whether it is marked yes, and the small line
/// under it, if any.
pub fn row_reads(c: &Capability, stay_reachable: bool) -> (r: (bool, Option<String>))
    ensures
        r.0 == (c.support is Yes || kept_awake(*c, stay_reachable)),
        kept_awake(*c, stay_reachable) ==> (r.1 matches Some(n) && n@
            == "not woken: kept awake instead, by your choice above"@),
        !kept_awake(*c, stay_reachable) ==> match c.support {
            Support::Yes => r.1 is None,
            Support::No(why) => r.1 matches Some(n) && n@ == why@,
        },
{
    let awake = same(&chars_of(c.name), &chars_of("Being woken")) && !c.support.is_yes() && stay_reachable;
    let note = if awake {
        Some(String::from_str("not woken: kept awake instead, by your choice above"))
    } else {
        match &c.support {
            Support::Yes => None,
            Support::No(why) => Some(why.clone()),
        }
    };
    (c.support.is_yes() || awake, note)
}

pub open spec fn woken_headline(report: PhoneReport, stay_reachable: bool) -> Seq<char> {
    match (report.distributor, report.endpoint) {
        (Some(d), Some(_)) => "Distributor: "@ + d@,
        (Some(d), None) => "Distributor: "@ + d@ + ", no endpoint yet"@,
        (None, _) => if stay_reachable {
            "No push distributor. sigil stays running instead, so nothing waits for the app to be opened."@
        } else {
            "No push distributor. Until there is one, sigil hears nothing while it is not in front: a message waits until the app is opened."@
        },
    }
}

/// What the tab says under *Being woken*: who delivers, and where, shortened;
/// or that nothing does, and what that means with the choice made.
pub fn being_woken(report: &PhoneReport, stay_reachable: bool) -> (r: (String, Option<String>))
    ensures
        r.0@ == woken_headline(*report, stay_reachable),
        match (report.distributor, report.endpoint) {
            (Some(_), Some(e)) => r.1 matches Some(n) && n@ == "endpoint "@ + brief_text(e@),
            _ => r.1 is None,
        },
{
    match (&report.distributor, &report.endpoint) {
        (Some(d), Some(e)) => {
            let head = concat(&chars_of("Distributor: "), &chars_of(d.as_str()));
            let tail = concat(&chars_of("endpoint "), &chars_of(brief(e.as_str()).as_str()));
            (string_of(&head), Some(string_of(&tail)))
        },
        (Some(d), None) => {
            let head = concat(&concat(&chars_of("Distributor: "), &chars_of(d.as_str())), &chars_of(", no endpoint yet"));
            (string_of(&head), None)
        },
        (None, _) => {
            let head = if stay_reachable {
                "No push distributor. sigil stays running instead, so nothing waits for the app to be opened."
            } else {
                "No push distributor. Until there is one, sigil hears nothing while it is not in front: a message waits until the app is opened."
            };
            (String::from_str(head), None)
        },
    }
}

} // verus!
