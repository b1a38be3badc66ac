//! What the phone says on its lock screen, composed from plaintext it alone
//! opened, under the person's setting.
//!
//! One notification per conversation per window, naming the newest arrival
//! with a count of the rest -- or, under the quietest setting, one for
//! everything that names nobody. Muted conversations are dropped before
//! anything is counted, and a window with nothing to say says nothing.
use vstd::prelude::*;

use crate::key::PubKey;
use crate::text::{chars_of, concat, decimal, decimal_of, string_of};

verus! {

/// How much a notification says.
#[derive(Debug, Clone, Copy, PartialEq, Eq, Structural)]
pub enum Privacy {
    /// Who wrote, and what they said.
    SenderAndText,
    /// Who wrote, and nothing of what.
    SenderOnly,
    /// Only that something arrived.
    FactOnly,
}

impl Privacy {
    /// Every setting, which the phone must offer.
    pub const ALL: [Privacy; 3] = [Privacy::SenderAndText, Privacy::SenderOnly, Privacy::FactOnly];

    /// The setting in words, for a choice on screen.
    pub fn describe(&self) -> (r: &'static str)
        ensures
            r@ == describe_text(*self),
    {
        match self {
            Privacy::SenderAndText => "who wrote, and what they said",
            Privacy::SenderOnly => "who wrote, and nothing of what",
            Privacy::FactOnly => "only that something arrived",
        }
    }
}

pub open spec fn describe_text(p: Privacy) -> Seq<char> {
    match p {
        Privacy::SenderAndText => "who wrote, and what they said"@,
        Privacy::SenderOnly => "who wrote, and nothing of what"@,
        Privacy::FactOnly => "only that something arrived"@,
    }
}

/// A message from somebody else that this device did not hold when the
/// window opened, as the session reports it.
#[derive(Debug, Clone, PartialEq, Eq)]
pub struct Arrival {
    pub channel: [u8; 32],
    pub seq: u64,
    pub from: PubKey,
    /// Who it is from, as the conversation names them.
    pub from_label: String,
    /// What the conversation is called.
    pub conversation: String,
    pub public: bool,
    /// A direct message: the sender is the conversation.
    pub direct: bool,
    /// What it says.
    pub said: String,
    pub in_open: bool,
    /// It mentions whoever this phone belongs to.
    pub mentions_me: bool,
}

impl Arrival {
    /// The same arrival again.
    pub fn duplicate(&self) -> (r: Arrival)
        ensures
            r == *self,
    {
        Arrival {
            channel: self.channel,
            seq: self.seq,
            from: self.from,
            from_label: self.from_label.clone(),
            conversation: self.conversation.clone(),
            public: self.public,
            direct: self.direct,
            said: self.said.clone(),
            in_open: self.in_open,
            mentions_me: self.mentions_me,
        }
    }
}

/// One notification: what it says, and where a press on it leads.
#[derive(Debug, Clone, PartialEq, Eq)]
pub struct Notification {
    /// The conversation it is about, or `None` for one that names none.
    pub channel: Option<[u8; 32]>,
    pub title: String,
    pub body: String,
    /// How many arrivals it stands for.
    pub count: usize,
    /// The newest arrival's sequence number, for the platform to key on.
    pub newest: u64,
}

pub ghost struct Note {
    pub channel: Option<[u8; 32]>,
    pub title: Seq<char>,
    pub body: Seq<char>,
    pub count: nat,
    pub newest: u64,
}

impl View for Notification {
    type V = Note;

    open spec fn view(&self) -> Note {
        Note {
            channel: self.channel,
            title: self.title@,
            body: self.body@,
            count: self.count as nat,
            newest: self.newest,
        }
    }
}

pub open spec fn notes(v: Seq<Notification>) -> Seq<Note> {
    v.map_values(|n: Notification| n@)
}

/// Byte-wise order of two channels, as a `BTreeMap` keyed by them walks.
pub open spec fn lex_lt(a: Seq<u8>, b: Seq<u8>) -> bool
    decreases a.len(),
{
    if a.len() == 0 || b.len() == 0 {
        false
    } else if a[0] < b[0] {
        true
    } else if a[0] > b[0] {
        false
    } else {
        lex_lt(a.drop_first(), b.drop_first())
    }
}

pub proof fn lemma_lex_irreflexive(a: Seq<u8>)
    ensures
        !lex_lt(a, a),
    decreases a.len(),
{
    if a.len() > 0 {
        lemma_lex_irreflexive(a.drop_first());
    }
}

pub proof fn lemma_lex_transitive(a: Seq<u8>, b: Seq<u8>, c: Seq<u8>)
    requires
        lex_lt(a, b),
        lex_lt(b, c),
    ensures
        lex_lt(a, c),
    decreases a.len(),
{
    if a[0] == b[0] && b[0] == c[0] {
        lemma_lex_transitive(a.drop_first(), b.drop_first(), c.drop_first());
    }
}

pub proof fn lemma_lex_total(a: Seq<u8>, b: Seq<u8>)
    requires
        a.len() == b.len(),
        a != b,
    ensures
        lex_lt(a, b) || lex_lt(b, a),
    decreases a.len(),
{
    if a.len() == 0 {
        assert(a =~= b);
    } else if a[0] == b[0] {
        if a.drop_first() == b.drop_first() {
            assert forall|i: int| 0 <= i < a.len() implies a[i] == b[i] by {
                if i > 0 {
                    assert(a[i] == a.drop_first()[i - 1]);
                    assert(b[i] == b.drop_first()[i - 1]);
                }
            }
            assert(a =~= b);
        }
        lemma_lex_total(a.drop_first(), b.drop_first());
    }
}

pub proof fn lemma_lex_asymmetric(a: Seq<u8>, b: Seq<u8>)
    requires
        lex_lt(a, b),
    ensures
        !lex_lt(b, a),
    decreases a.len(),
{
    if a[0] == b[0] {
        lemma_lex_asymmetric(a.drop_first(), b.drop_first());
    }
}

/// Whether `a` comes before `b`.
pub fn channel_before(a: &[u8; 32], b: &[u8; 32]) -> (r: bool)
    ensures
        r == lex_lt(a@, b@),
{
    let mut i: usize = 0;
    assert(a@.skip(0) == a@);
    assert(b@.skip(0) == b@);
    while i < 32
        invariant
            i <= 32,
            a@.len() == 32,
            b@.len() == 32,
            lex_lt(a@, b@) == lex_lt(a@.skip(i as int), b@.skip(i as int)),
        decreases 32 - i,
    {
        assert(a@.skip(i as int).drop_first() == a@.skip(i + 1));
        assert(b@.skip(i as int).drop_first() == b@.skip(i + 1));
        if a[i] < b[i] {
            return true;
        }
        if a[i] > b[i] {
            return false;
        }
        i = i + 1;
    }
    false
}

/// Whether two channels are the same one.
pub fn same_channel(a: &[u8; 32], b: &[u8; 32]) -> (r: bool)
    ensures
        r == (a == b),
{
    let mut i: usize = 0;
    while i < 32
        invariant
            i <= 32,
            forall|k: int| 0 <= k < i ==> a[k] == b[k],
        decreases 32 - i,
    {
        if a[i] != b[i] {
            return false;
        }
        i = i + 1;
    }
    assert(*a =~= *b);
    true
}

/// Some arrival of `s` is in conversation `c`.
pub open spec fn has_channel(s: Seq<Arrival>, c: [u8; 32]) -> bool {
    exists|k: int| 0 <= k < s.len() && #[trigger] s[k].channel == c
}

/// `c` is one of `cs`.
pub open spec fn listed(cs: Seq<[u8; 32]>, c: [u8; 32]) -> bool {
    exists|i: int| 0 <= i < cs.len() && #[trigger] cs[i] == c
}

pub proof fn lemma_views_differ(a: [u8; 32], b: [u8; 32])
    requires
        a != b,
    ensures
        a@ != b@,
{
    if a@ == b@ {
        assert forall|i: int| 0 <= i < 32 implies a[i] == b[i] by {
            assert(a@[i] == b@[i]);
        }
        assert(a =~= b);
    }
}

/// The arrivals in one conversation, in the order given.
pub open spec fn in_channel(s: Seq<Arrival>, c: [u8; 32]) -> Seq<Arrival>
    decreases s.len(),
{
    if s.len() == 0 {
        Seq::<Arrival>::empty()
    } else if s.last().channel == c {
        in_channel(s.drop_last(), c).push(s.last())
    } else {
        in_channel(s.drop_last(), c)
    }
}

/// The arrivals in one conversation that mention this phone's owner.
pub open spec fn mentions_in(s: Seq<Arrival>, c: [u8; 32]) -> Seq<Arrival>
    decreases s.len(),
{
    if s.len() == 0 {
        Seq::<Arrival>::empty()
    } else if s.last().channel == c && s.last().mentions_me {
        mentions_in(s.drop_last(), c).push(s.last())
    } else {
        mentions_in(s.drop_last(), c)
    }
}

/// The newest of some arrivals: the greatest `seq`, and of equals the one
/// given last -- the last after a stable sort by `seq`.
pub open spec fn newest_of(g: Seq<Arrival>) -> Arrival
    recommends
        g.len() > 0,
    decreases g.len(),
{
    if g.len() <= 1 {
        g[0]
    } else {
        let before = newest_of(g.drop_last());
        if g.last().seq >= before.seq {
            g.last()
        } else {
            before
        }
    }
}

pub open spec fn max_seq(s: Seq<Arrival>) -> u64
    decreases s.len(),
{
    if s.len() == 0 {
        0
    } else {
        let before = max_seq(s.drop_last());
        if s.last().seq > before {
            s.last().seq
        } else {
            before
        }
    }
}

/// " · and 2 more", for the arrivals a notification stands for but does
/// not name.
pub open spec fn and_more(n: nat) -> Seq<char> {
    if n > 0 {
        " · and "@ + decimal(n) + " more"@
    } else {
        Seq::<char>::empty()
    }
}

/// What a conversation's notification says: the newest mention of this
/// phone's owner if there is one, else the newest arrival; as much of it as
/// the setting allows; and how many more there were.
pub open spec fn channel_body(kept: Seq<Arrival>, c: [u8; 32], privacy: Privacy) -> Seq<char> {
    let g = in_channel(kept, c);
    let newest = newest_of(g);
    let ms = mentions_in(kept, c);
    let said = if ms.len() > 0 {
        let m = newest_of(ms);
        if privacy == Privacy::SenderAndText {
            m.from_label@ + " mentioned you: "@ + m.said@
        } else {
            m.from_label@ + " mentioned you"@
        }
    } else if privacy == Privacy::SenderAndText {
        if newest.direct {
            newest.said@
        } else {
            newest.from_label@ + ": "@ + newest.said@
        }
    } else {
        newest.from_label@ + " sent a message"@
    };
    said + and_more((g.len() - 1) as nat)
}

/// The notification for one conversation.
pub open spec fn channel_note(kept: Seq<Arrival>, c: [u8; 32], privacy: Privacy) -> Note {
    let g = in_channel(kept, c);
    Note {
        channel: Some(c),
        title: newest_of(g).conversation@,
        body: channel_body(kept, c, privacy),
        count: g.len(),
        newest: newest_of(g).seq,
    }
}

/// The one notification the quietest setting makes: a count, and nothing
/// of who, what or where.
pub open spec fn fact_note(kept: Seq<Arrival>) -> Note {
    Note {
        channel: None,
        title: "Sigil"@,
        body: if kept.len() == 1 {
            "A new message"@
        } else {
            decimal(kept.len()) + " new messages"@
        },
        count: kept.len(),
        newest: max_seq(kept),
    }
}

pub open spec fn note_channels(out: Seq<Note>) -> Seq<[u8; 32]> {
    out.map_values(|n: Note| n.channel.unwrap())
}

pub open spec fn channel_of(n: Note) -> Seq<u8> {
    n.channel.unwrap()@
}

/// `out` is what the phone says of `kept`: nothing for nothing; one
/// notification for the lot under the quietest setting; otherwise one per
/// conversation, in the conversations' byte order.
pub open spec fn composed(kept: Seq<Arrival>, privacy: Privacy, out: Seq<Note>) -> bool {
    if kept.len() == 0 {
        out.len() == 0
    } else if privacy == Privacy::FactOnly {
        out == seq![fact_note(kept)]
    } else {
        &&& forall|i: int| 0 <= i < out.len() ==> (#[trigger] out[i]).channel is Some
        &&& forall|i: int, j: int|
            0 <= i < j < out.len() ==> lex_lt(channel_of(#[trigger] out[i]), channel_of(#[trigger] out[j]))
        &&& forall|i: int| 0 <= i < out.len() ==> has_channel(kept, (#[trigger] out[i]).channel.unwrap())
        &&& forall|k: int| 0 <= k < kept.len() ==> listed(note_channels(out), #[trigger] kept[k].channel)
        &&& forall|i: int|
            0 <= i < out.len() ==> #[trigger] out[i] == channel_note(kept, out[i].channel.unwrap(), privacy)
    }
}

/// The arrivals that `muted` does not mark.
pub open spec fn unmuted(s: Seq<Arrival>, muted: Seq<bool>) -> Seq<Arrival>
    decreases s.len(),
{
    if s.len() == 0 {
        Seq::<Arrival>::empty()
    } else if muted[s.len() - 1] {
        unmuted(s.drop_last(), muted.take(s.len() - 1))
    } else {
        unmuted(s.drop_last(), muted.take(s.len() - 1)).push(s.last())
    }
}

proof fn lemma_in_channel_step(s: Seq<Arrival>, k: int, c: [u8; 32])
    requires
        0 <= k < s.len(),
    ensures
        in_channel(s.take(k + 1), c) == if s[k].channel == c {
            in_channel(s.take(k), c).push(s[k])
        } else {
            in_channel(s.take(k), c)
        },
        mentions_in(s.take(k + 1), c) == if s[k].channel == c && s[k].mentions_me {
            mentions_in(s.take(k), c).push(s[k])
        } else {
            mentions_in(s.take(k), c)
        },
{
    assert(s.take(k + 1).drop_last() == s.take(k));
}

proof fn lemma_newest_push(g: Seq<Arrival>, x: Arrival)
    ensures
        newest_of(g.push(x)) == if g.len() == 0 || x.seq >= newest_of(g).seq {
            x
        } else {
            newest_of(g)
        },
{
    assert(g.push(x).drop_last() == g);
}

proof fn lemma_in_channel_holds(s: Seq<Arrival>, c: [u8; 32], k: int)
    requires
        0 <= k < s.len(),
        s[k].channel == c,
    ensures
        in_channel(s, c).len() > 0,
    decreases s.len(),
{
    if k < s.len() - 1 {
        lemma_in_channel_holds(s.drop_last(), c, k);
    }
}

/// Where in `kept` the notes for channel `c` come from: the newest arrival,
/// the newest mention, and how many.
fn survey(kept: &[Arrival], c: &[u8; 32]) -> (r: (usize, Option<usize>, usize))
    requires
        has_channel(kept@, *c),
    ensures
        r.0 < kept@.len(),
        kept@[r.0 as int] == newest_of(in_channel(kept@, *c)),
        in_channel(kept@, *c).len() > 0,
        match r.1 {
            Some(m) => m < kept@.len() && mentions_in(kept@, *c).len() > 0 && kept@[m as int]
                == newest_of(mentions_in(kept@, *c)),
            None => mentions_in(kept@, *c).len() == 0,
        },
        r.2 == in_channel(kept@, *c).len(),
{
    let mut newest: usize = 0;
    let mut found = false;
    let mut mention: Option<usize> = None;
    let mut count: usize = 0;
    let mut k: usize = 0;
    while k < kept.len()
        invariant
            k <= kept@.len(),
            count == in_channel(kept@.take(k as int), *c).len(),
            count <= k,
            found <==> in_channel(kept@.take(k as int), *c).len() > 0,
            found ==> newest < kept@.len() && kept@[newest as int] == newest_of(
                in_channel(kept@.take(k as int), *c),
            ),
            match mention {
                Some(m) => m < kept@.len() && mentions_in(kept@.take(k as int), *c).len() > 0
                    && kept@[m as int] == newest_of(mentions_in(kept@.take(k as int), *c)),
                None => mentions_in(kept@.take(k as int), *c).len() == 0,
            },
        decreases kept@.len() - k,
    {
        proof {
            lemma_in_channel_step(kept@, k as int, *c);
            lemma_newest_push(in_channel(kept@.take(k as int), *c), kept@[k as int]);
            lemma_newest_push(mentions_in(kept@.take(k as int), *c), kept@[k as int]);
        }
        if same_channel(&kept[k].channel, c) {
            count = count + 1;
            if !found || kept[k].seq >= kept[newest].seq {
                newest = k;
            }
            found = true;
            if kept[k].mentions_me {
                match mention {
                    Some(m) => {
                        if kept[k].seq >= kept[m].seq {
                            mention = Some(k);
                        }
                    },
                    None => {
                        mention = Some(k);
                    },
                }
            }
        }
        k = k + 1;
    }
    assert(kept@.take(kept@.len() as int) == kept@);
    proof {
        let w = choose|w: int| 0 <= w < kept@.len() && #[trigger] kept@[w].channel == *c;
        lemma_in_channel_holds(kept@, *c, w);
    }
    (newest, mention, count)
}

fn text_of(s: &String) -> (r: Vec<char>)
    ensures
        r@ == s@,
{
    chars_of(s.as_str())
}

fn lit(s: &str) -> (r: Vec<char>)
    ensures
        r@ == s@,
{
    chars_of(s)
}

/// The notification for channel `c`.
fn note_for(kept: &[Arrival], c: &[u8; 32], privacy: Privacy) -> (r: Notification)
    requires
        has_channel(kept@, *c),
    ensures
        r@ == channel_note(kept@, *c, privacy),
{
    let (newest, mention, count) = survey(kept, c);
    let n = &kept[newest];
    let said = match mention {
        Some(m) => {
            let m = &kept[m];
            if privacy == Privacy::SenderAndText {
                concat(&concat(&text_of(&m.from_label), &lit(" mentioned you: ")), &text_of(&m.said))
            } else {
                concat(&text_of(&m.from_label), &lit(" mentioned you"))
            }
        },
        None => {
            if privacy == Privacy::SenderAndText {
                if n.direct {
                    text_of(&n.said)
                } else {
                    concat(&concat(&text_of(&n.from_label), &lit(": ")), &text_of(&n.said))
                }
            } else {
                concat(&text_of(&n.from_label), &lit(" sent a message"))
            }
        },
    };
    let ghost g = in_channel(kept@, *c);
    let ghost ms = mentions_in(kept@, *c);
    let more = count - 1;
    let body = if more > 0 {
        concat(
            &concat(&concat(&said, &lit(" · and ")), &decimal_of(more as u64)),
            &lit(" more"),
        )
    } else {
        said
    };
    proof {
        let expected_said = if ms.len() > 0 {
            let m = newest_of(ms);
            if privacy == Privacy::SenderAndText {
                m.from_label@ + " mentioned you: "@ + m.said@
            } else {
                m.from_label@ + " mentioned you"@
            }
        } else if privacy == Privacy::SenderAndText {
            if newest_of(g).direct {
                newest_of(g).said@
            } else {
                newest_of(g).from_label@ + ": "@ + newest_of(g).said@
            }
        } else {
            newest_of(g).from_label@ + " sent a message"@
        };
        assert(said@ == expected_said);
        if more == 0 {
            assert(expected_said + and_more(0) == expected_said);
        }
        assert(body@ == expected_said + and_more((g.len() - 1) as nat));
    }
    Notification {
        channel: Some(*c),
        title: n.conversation.clone(),
        body: string_of(&body),
        count,
        newest: n.seq,
    }
}

/// The conversations of `kept`, each once, in byte order.
fn channels(kept: &[Arrival]) -> (r: Vec<[u8; 32]>)
    ensures
        forall|i: int, j: int| 0 <= i < j < r@.len() ==> lex_lt((#[trigger] r@[i])@, (#[trigger] r@[j])@),
        forall|i: int| 0 <= i < r@.len() ==> has_channel(kept@, #[trigger] r@[i]),
        forall|k: int| 0 <= k < kept@.len() ==> listed(r@, #[trigger] kept@[k].channel),
{
    let mut out: Vec<[u8; 32]> = Vec::new();
    let mut k: usize = 0;
    while k < kept.len()
        invariant
            k <= kept@.len(),
            forall|i: int, j: int|
                0 <= i < j < out@.len() ==> lex_lt((#[trigger] out@[i])@, (#[trigger] out@[j])@),
            forall|i: int| 0 <= i < out@.len() ==> has_channel(kept@, #[trigger] out@[i]),
            forall|q: int| 0 <= q < k ==> listed(out@, #[trigger] kept@[q].channel),
        decreases kept@.len() - k,
    {
        let c = kept[k].channel;
        assert(has_channel(kept@, c)) by {
            assert(kept@[k as int].channel == c);
        }
        let mut p: usize = 0;
        while p < out.len() && channel_before(&out[p], &c)
            invariant
                p <= out@.len(),
                forall|i: int| 0 <= i < p ==> lex_lt((#[trigger] out@[i])@, c@),
            decreases out@.len() - p,
        {
            p = p + 1;
        }
        if p < out.len() && same_channel(&out[p], &c) {
            assert(listed(out@, c)) by {
                assert(out@[p as int] == c);
            }
        } else {
            let ghost before = out@;
            proof {
                if p < before.len() {
                    lemma_views_differ(c, before[p as int]);
                    lemma_lex_total(c@, before[p as int]@);
                    assert(lex_lt(c@, before[p as int]@));
                }
                assert forall|j: int| p <= j < before.len() implies lex_lt(c@, (#[trigger] before[j])@) by {
                    if j > p {
                        lemma_lex_transitive(c@, before[p as int]@, before[j]@);
                    }
                }
            }
            out.insert(p, c);
            proof {
                assert forall|i: int, j: int|
                    0 <= i < j < out@.len() implies lex_lt((#[trigger] out@[i])@, (#[trigger] out@[j])@) by {
                    if j < p {
                        assert(out@[i] == before[i] && out@[j] == before[j]);
                    } else if j == p {
                        assert(out@[i] == before[i]);
                    } else if i < p {
                        assert(out@[i] == before[i] && out@[j] == before[j - 1]);
                        lemma_lex_transitive(before[i]@, c@, before[j - 1]@);
                    } else if i == p {
                        assert(out@[j] == before[j - 1]);
                    } else {
                        assert(out@[i] == before[i - 1] && out@[j] == before[j - 1]);
                    }
                }
                assert forall|i: int| 0 <= i < out@.len() implies has_channel(kept@, #[trigger] out@[i]) by {
                    if i < p {
                        assert(out@[i] == before[i]);
                    } else if i > p {
                        assert(out@[i] == before[i - 1]);
                    }
                }
                assert forall|q: int| 0 <= q < k implies listed(out@, #[trigger] kept@[q].channel) by {
                    let i = choose|i: int| 0 <= i < before.len() && before[i] == kept@[q].channel;
                    if i < p {
                        assert(out@[i] == before[i]);
                    } else {
                        assert(out@[i + 1] == before[i]);
                    }
                }
                assert(listed(out@, c)) by {
                    assert(out@[p as int] == c);
                }
            }
        }
        k = k + 1;
    }
    out
}

/// The quietest setting's one notification.
fn fact_only(kept: &[Arrival]) -> (r: Notification)
    requires
        kept@.len() > 0,
    ensures
        r@ == fact_note(kept@),
{
    let mut newest: u64 = 0;
    let mut k: usize = 0;
    while k < kept.len()
        invariant
            k <= kept@.len(),
            newest == max_seq(kept@.take(k as int)),
        decreases kept@.len() - k,
    {
        assert(kept@.take(k + 1).drop_last() == kept@.take(k as int));
        if kept[k].seq > newest {
            newest = kept[k].seq;
        }
        k = k + 1;
    }
    assert(kept@.take(kept@.len() as int) == kept@);
    let n = kept.len();
    let body = if n == 1 {
        lit("A new message")
    } else {
        concat(&decimal_of(n as u64), &lit(" new messages"))
    };
    Notification { channel: None, title: String::from_str("Sigil"), body: string_of(&body), count: n, newest }
}

proof fn lemma_notes_composed(kept: Seq<Arrival>, privacy: Privacy, chans: Seq<[u8; 32]>, out: Seq<Notification>)
    requires
        kept.len() > 0,
        privacy != Privacy::FactOnly,
        out.len() == chans.len(),
        forall|i: int, j: int| 0 <= i < j < chans.len() ==> lex_lt((#[trigger] chans[i])@, (#[trigger] chans[j])@),
        forall|i: int| 0 <= i < chans.len() ==> has_channel(kept, #[trigger] chans[i]),
        forall|k: int| 0 <= k < kept.len() ==> listed(chans, #[trigger] kept[k].channel),
        forall|q: int| 0 <= q < chans.len() ==> #[trigger] out[q]@ == channel_note(kept, chans[q], privacy),
    ensures
        composed(kept, privacy, notes(out)),
{
    let ns = notes(out);
    assert forall|q: int| 0 <= q < ns.len() implies (#[trigger] ns[q]).channel == Some(chans[q]) by {
        assert(ns[q] == out[q]@);
    }
    assert(note_channels(ns) =~= chans);
    assert forall|a: int, b: int| 0 <= a < b < ns.len() implies lex_lt(
        channel_of(#[trigger] ns[a]),
        channel_of(#[trigger] ns[b]),
    ) by {
        assert(ns[a].channel == Some(chans[a]));
        assert(ns[b].channel == Some(chans[b]));
    }
    assert forall|q: int| 0 <= q < ns.len() implies has_channel(kept, (#[trigger] ns[q]).channel.unwrap()) by {
        assert(ns[q].channel == Some(chans[q]));
    }
    assert forall|q: int| 0 <= q < ns.len() implies #[trigger] ns[q] == channel_note(
        kept,
        ns[q].channel.unwrap(),
        privacy,
    ) by {
        assert(ns[q] == out[q]@);
    }
}

/// The notifications for arrivals already known to be unmuted.
pub fn compose_kept(kept: &[Arrival], privacy: Privacy) -> (out: Vec<Notification>)
    ensures
        composed(kept@, privacy, notes(out@)),
{
    let mut out: Vec<Notification> = Vec::new();
    if kept.len() == 0 {
        assert(notes(out@) =~= seq![]);
        return out;
    }
    if privacy == Privacy::FactOnly {
        out.push(fact_only(kept));
        assert(notes(out@) =~= seq![fact_note(kept@)]);
        return out;
    }
    let chans = channels(kept);
    let mut i: usize = 0;
    while i < chans.len()
        invariant
            i <= chans@.len(),
            out@.len() == i,
            forall|q: int| 0 <= q < chans@.len() ==> has_channel(kept@, #[trigger] chans@[q]),
            forall|q: int| 0 <= q < i ==> #[trigger] out@[q]@ == channel_note(kept@, chans@[q], privacy),
        decreases chans@.len() - i,
    {
        assert(has_channel(kept@, chans@[i as int]));
        let note = note_for(kept, &chans[i], privacy);
        out.push(note);
        i = i + 1;
    }
    proof {
        lemma_notes_composed(kept@, privacy, chans@, out@);
    }
    out
}

/// One notification per conversation, naming the newest, with a count --
/// or one for everything under `Privacy::FactOnly`. Nothing for nothing.
/// What `silenced` answers for a conversation (muted, or do-not-disturb)
/// drops its arrivals before anything is counted.
pub fn compose<F: Fn(&[u8; 32]) -> bool>(arrivals: &[Arrival], privacy: Privacy, silenced: F) -> (out:
    Vec<Notification>)
    requires
        forall|c: [u8; 32]| silenced.requires((&c,)),
    ensures
        exists|muted: Seq<bool>|
            {
                &&& muted.len() == arrivals@.len()
                &&& forall|k: int|
                    0 <= k < arrivals@.len() ==> silenced.ensures(
                        (&arrivals@[k].channel,),
                        #[trigger] muted[k],
                    )
                &&& composed(unmuted(arrivals@, muted), privacy, notes(out@))
            },
{
    let mut kept: Vec<Arrival> = Vec::new();
    let ghost mut muted: Seq<bool> = Seq::empty();
    let mut k: usize = 0;
    while k < arrivals.len()
        invariant
            k <= arrivals@.len(),
            forall|c: [u8; 32]| silenced.requires((&c,)),
            muted.len() == k,
            forall|q: int| 0 <= q < k ==> silenced.ensures((&arrivals@[q].channel,), #[trigger] muted[q]),
            kept@ == unmuted(arrivals@.take(k as int), muted),
        decreases arrivals@.len() - k,
    {
        let quiet = silenced(&arrivals[k].channel);
        proof {
            let next = muted.push(quiet);
            let s = arrivals@.take(k + 1);
            assert(s.drop_last() == arrivals@.take(k as int));
            assert(next.take(k as int) == muted);
            muted = next;
        }
        if !quiet {
            kept.push(arrivals[k].duplicate());
        }
        k = k + 1;
    }
    assert(arrivals@.take(arrivals@.len() as int) == arrivals@);
    compose_kept(&kept, privacy)
}

/// **A wake that found nothing new says nothing**, whatever the setting; and
/// one whose every arrival was muted found nothing it may speak of.
pub proof fn nothing_is_said_of_nothing(privacy: Privacy, out: Seq<Note>)
    requires
        composed(Seq::<Arrival>::empty(), privacy, out),
    ensures
        out.len() == 0,
{
}

/// **A busy conversation is one notification**: no two notifications name
/// the same conversation.
pub proof fn one_per_conversation(kept: Seq<Arrival>, privacy: Privacy, out: Seq<Note>)
    requires
        composed(kept, privacy, out),
    ensures
        forall|i: int, j: int| 0 <= i < j < out.len() ==> out[i].channel != out[j].channel,
{
    if kept.len() > 0 && privacy != Privacy::FactOnly {
        assert forall|i: int, j: int| 0 <= i < j < out.len() implies out[i].channel != out[j].channel by {
            assert(lex_lt(channel_of(out[i]), channel_of(out[j])));
            if out[i].channel == out[j].channel {
                lemma_lex_irreflexive(channel_of(out[i]));
            }
        }
    }
}

/// **The fact of a message names nobody**: under the quietest setting what
/// is said depends on how many arrived and the newest number alone -- not
/// on who sent them, what they said, or where.
pub proof fn the_fact_names_nobody(k1: Seq<Arrival>, k2: Seq<Arrival>, o1: Seq<Note>, o2: Seq<Note>)
    requires
        composed(k1, Privacy::FactOnly, o1),
        composed(k2, Privacy::FactOnly, o2),
        k1.len() == k2.len(),
        max_seq(k1) == max_seq(k2),
    ensures
        o1 == o2,
        forall|i: int| 0 <= i < o1.len() ==> o1[i].channel is None,
{
}

/// Two arrivals that differ in what they said, if in anything.
pub open spec fn alike(a: Arrival, b: Arrival) -> bool {
    &&& a.channel == b.channel
    &&& a.seq == b.seq
    &&& a.from == b.from
    &&& a.from_label == b.from_label
    &&& a.conversation == b.conversation
    &&& a.public == b.public
    &&& a.direct == b.direct
    &&& a.in_open == b.in_open
    &&& a.mentions_me == b.mentions_me
}

pub open spec fn all_alike(s1: Seq<Arrival>, s2: Seq<Arrival>) -> bool {
    s1.len() == s2.len() && forall|i: int| 0 <= i < s1.len() ==> alike(#[trigger] s1[i], s2[i])
}

proof fn lemma_alike_drop_last(s1: Seq<Arrival>, s2: Seq<Arrival>)
    requires
        all_alike(s1, s2),
        s1.len() > 0,
    ensures
        all_alike(s1.drop_last(), s2.drop_last()),
        alike(s1.last(), s2.last()),
{
    assert forall|i: int| 0 <= i < s1.drop_last().len() implies alike(#[trigger] s1.drop_last()[i], s2.drop_last()[i]) by {
        assert(alike(s1[i], s2[i]));
    }
    assert(alike(s1[s1.len() - 1], s2[s2.len() - 1]));
}

proof fn lemma_alike_filters(s1: Seq<Arrival>, s2: Seq<Arrival>, c: [u8; 32])
    requires
        all_alike(s1, s2),
    ensures
        all_alike(in_channel(s1, c), in_channel(s2, c)),
        all_alike(mentions_in(s1, c), mentions_in(s2, c)),
    decreases s1.len(),
{
    if s1.len() > 0 {
        lemma_alike_drop_last(s1, s2);
        lemma_alike_filters(s1.drop_last(), s2.drop_last(), c);
        let a = in_channel(s1.drop_last(), c);
        let b = in_channel(s2.drop_last(), c);
        if s1.last().channel == c {
            assert forall|i: int| 0 <= i < a.push(s1.last()).len() implies alike(
                #[trigger] a.push(s1.last())[i],
                b.push(s2.last())[i],
            ) by {
                if i < a.len() {
                    assert(alike(a[i], b[i]));
                }
            }
        }
        let m = mentions_in(s1.drop_last(), c);
        let n = mentions_in(s2.drop_last(), c);
        if s1.last().channel == c && s1.last().mentions_me {
            assert forall|i: int| 0 <= i < m.push(s1.last()).len() implies alike(
                #[trigger] m.push(s1.last())[i],
                n.push(s2.last())[i],
            ) by {
                if i < m.len() {
                    assert(alike(m[i], n[i]));
                }
            }
        }
    }
}

proof fn lemma_alike_newest(s1: Seq<Arrival>, s2: Seq<Arrival>)
    requires
        all_alike(s1, s2),
        s1.len() > 0,
    ensures
        alike(newest_of(s1), newest_of(s2)),
    decreases s1.len(),
{
    if s1.len() == 1 {
        assert(alike(s1[0], s2[0]));
    } else {
        lemma_alike_drop_last(s1, s2);
        lemma_alike_newest(s1.drop_last(), s2.drop_last());
    }
}

/// **Sender-only carries no words**: under it, what a conversation's
/// notification says is the same whatever its arrivals said.
pub proof fn sender_only_carries_no_words(s1: Seq<Arrival>, s2: Seq<Arrival>, c: [u8; 32])
    requires
        all_alike(s1, s2),
        has_channel(s1, c),
    ensures
        channel_note(s1, c, Privacy::SenderOnly) == channel_note(s2, c, Privacy::SenderOnly),
{
    lemma_alike_filters(s1, s2, c);
    let k = choose|k: int| 0 <= k < s1.len() && #[trigger] s1[k].channel == c;
    lemma_in_channel_holds(s1, c, k);
    lemma_alike_newest(in_channel(s1, c), in_channel(s2, c));
    if mentions_in(s1, c).len() > 0 {
        lemma_alike_newest(mentions_in(s1, c), mentions_in(s2, c));
    }
}

/// The arrivals that are kept are ones that were given, unmarked.
proof fn lemma_unmuted_from(s: Seq<Arrival>, muted: Seq<bool>, i: int)
    requires
        muted.len() == s.len(),
        0 <= i < unmuted(s, muted).len(),
    ensures
        exists|k: int| 0 <= k < s.len() && !muted[k] && #[trigger] s[k] == unmuted(s, muted)[i],
    decreases s.len(),
{
    let before = unmuted(s.drop_last(), muted.take(s.len() - 1));
    if i < before.len() {
        lemma_unmuted_from(s.drop_last(), muted.take(s.len() - 1), i);
        let k = choose|k: int| 0 <= k < s.drop_last().len() && !muted.take(s.len() - 1)[k] && #[trigger] s.drop_last()[k] == before[i];
        assert(s[k] == s.drop_last()[k]);
    } else {
        assert(s[s.len() - 1] == unmuted(s, muted)[i]);
    }
}

/// **A muted conversation says nothing**: when every arrival in a
/// conversation is marked, no notification names it.
pub proof fn a_muted_conversation_says_nothing(
    arrivals: Seq<Arrival>,
    muted: Seq<bool>,
    privacy: Privacy,
    out: Seq<Note>,
    c: [u8; 32],
)
    requires
        muted.len() == arrivals.len(),
        forall|k: int| 0 <= k < arrivals.len() && #[trigger] arrivals[k].channel == c ==> muted[k],
        composed(unmuted(arrivals, muted), privacy, out),
    ensures
        forall|i: int| 0 <= i < out.len() ==> out[i].channel != Some(c),
{
    let kept = unmuted(arrivals, muted);
    if kept.len() > 0 && privacy != Privacy::FactOnly {
        assert forall|i: int| 0 <= i < out.len() implies out[i].channel != Some(c) by {
            assert(has_channel(kept, out[i].channel.unwrap()));
            if out[i].channel == Some(c) {
                let q = choose|q: int| 0 <= q < kept.len() && #[trigger] kept[q].channel == c;
                lemma_unmuted_from(arrivals, muted, q);
            }
        }
    }
}

/// Channels in strictly increasing byte order.
pub open spec fn ascending(cs: Seq<[u8; 32]>) -> bool {
    forall|i: int, j: int| 0 <= i < j < cs.len() ==> lex_lt((#[trigger] cs[i])@, (#[trigger] cs[j])@)
}

proof fn lemma_ascending_unique(a: Seq<[u8; 32]>, b: Seq<[u8; 32]>)
    requires
        ascending(a),
        ascending(b),
        forall|c: [u8; 32]| listed(a, c) <==> listed(b, c),
    ensures
        a == b,
    decreases a.len(),
{
    if a.len() == 0 {
        if b.len() > 0 {
            assert(listed(b, b[0]));
        }
        assert(a =~= b);
    } else {
        assert(listed(a, a[0]));
        assert(b.len() > 0);
        assert(listed(b, b[0]));
        if a[0] != b[0] {
            let j = choose|j: int| 0 <= j < b.len() && #[trigger] b[j] == a[0];
            let i = choose|i: int| 0 <= i < a.len() && #[trigger] a[i] == b[0];
            assert(j > 0 && i > 0);
            assert(lex_lt(b[0]@, b[j]@));
            assert(lex_lt(a[0]@, a[i]@));
            lemma_lex_asymmetric(a[0]@, b[0]@);
        }
        let a1 = a.drop_first();
        let b1 = b.drop_first();
        assert forall|i: int, j: int| 0 <= i < j < a1.len() implies lex_lt((#[trigger] a1[i])@, (#[trigger] a1[j])@) by {
            assert(a1[i] == a[i + 1] && a1[j] == a[j + 1]);
        }
        assert forall|i: int, j: int| 0 <= i < j < b1.len() implies lex_lt((#[trigger] b1[i])@, (#[trigger] b1[j])@) by {
            assert(b1[i] == b[i + 1] && b1[j] == b[j + 1]);
        }
        assert forall|c: [u8; 32]| listed(a1, c) <==> listed(b1, c) by {
            if listed(a1, c) {
                let i = choose|i: int| 0 <= i < a1.len() && #[trigger] a1[i] == c;
                assert(a[i + 1] == c);
                assert(lex_lt(a[0]@, a[i + 1]@));
                lemma_lex_irreflexive(c@);
                assert(listed(a, c));
                let j = choose|j: int| 0 <= j < b.len() && #[trigger] b[j] == c;
                assert(j > 0);
                assert(b1[j - 1] == c);
            }
            if listed(b1, c) {
                let j = choose|j: int| 0 <= j < b1.len() && #[trigger] b1[j] == c;
                assert(b[j + 1] == c);
                assert(lex_lt(b[0]@, b[j + 1]@));
                lemma_lex_irreflexive(c@);
                assert(listed(b, c));
                let i = choose|i: int| 0 <= i < a.len() && #[trigger] a[i] == c;
                assert(i > 0);
                assert(a1[i - 1] == c);
            }
        }
        lemma_ascending_unique(a1, b1);
        assert(a =~= b) by {
            assert forall|i: int| 0 <= i < a.len() implies a[i] == b[i] by {
                if i > 0 {
                    assert(a[i] == a1[i - 1] && b[i] == b1[i - 1]);
                }
            }
        }
    }
}

proof fn lemma_composed_channels(kept: Seq<Arrival>, privacy: Privacy, out: Seq<Note>)
    requires
        kept.len() > 0,
        privacy != Privacy::FactOnly,
        composed(kept, privacy, out),
    ensures
        ascending(note_channels(out)),
        forall|c: [u8; 32]| listed(note_channels(out), c) <==> has_channel(kept, c),
{
    let cs = note_channels(out);
    assert forall|i: int, j: int| 0 <= i < j < cs.len() implies lex_lt((#[trigger] cs[i])@, (#[trigger] cs[j])@) by {
        assert(lex_lt(channel_of(out[i]), channel_of(out[j])));
    }
    assert forall|c: [u8; 32]| listed(cs, c) <==> has_channel(kept, c) by {
        if listed(cs, c) {
            let i = choose|i: int| 0 <= i < cs.len() && #[trigger] cs[i] == c;
            assert(has_channel(kept, out[i].channel.unwrap()));
        }
        if has_channel(kept, c) {
            let k = choose|k: int| 0 <= k < kept.len() && #[trigger] kept[k].channel == c;
            assert(listed(cs, kept[k].channel));
        }
    }
}

/// **What is said of some arrivals is one answer**: two notification lists
/// that both compose the same arrivals under the same setting are the same
/// list.
pub proof fn composed_is_one_answer(kept: Seq<Arrival>, privacy: Privacy, o1: Seq<Note>, o2: Seq<Note>)
    requires
        composed(kept, privacy, o1),
        composed(kept, privacy, o2),
    ensures
        o1 == o2,
{
    if kept.len() == 0 {
        assert(o1 =~= o2);
    } else if privacy != Privacy::FactOnly {
        lemma_composed_channels(kept, privacy, o1);
        lemma_composed_channels(kept, privacy, o2);
        let c1 = note_channels(o1);
        let c2 = note_channels(o2);
        assert forall|c: [u8; 32]| listed(c1, c) <==> listed(c2, c) by {
        }
        lemma_ascending_unique(c1, c2);
        assert(o1.len() == c1.len() && o2.len() == c2.len());
        assert forall|i: int| 0 <= i < o1.len() implies o1[i] == o2[i] by {
            assert(c1[i] == o1[i].channel.unwrap());
            assert(c2[i] == o2[i].channel.unwrap());
        }
        assert(o1 =~= o2);
    }
}

proof fn lemma_none_muted(s: Seq<Arrival>, none: Seq<bool>)
    requires
        none.len() == s.len(),
        forall|k: int| 0 <= k < none.len() ==> !none[k],
    ensures
        unmuted(s, none) == s,
    decreases s.len(),
{
    if s.len() > 0 {
        lemma_none_muted(s.drop_last(), none.take(s.len() - 1));
        assert(s.drop_last().push(s.last()) == s);
    }
}

/// **Muting is dropping**: what `compose` says of arrivals some of which are
/// silenced is what it says of the others alone, with nothing silenced --
/// so a muted arrival names nothing and adds to no count.
pub proof fn muting_is_dropping(
    arrivals: Seq<Arrival>,
    muted: Seq<bool>,
    none: Seq<bool>,
    privacy: Privacy,
    out: Seq<Note>,
    dropped: Seq<Note>,
)
    requires
        muted.len() == arrivals.len(),
        none.len() == unmuted(arrivals, muted).len(),
        forall|k: int| 0 <= k < none.len() ==> !none[k],
        composed(unmuted(arrivals, muted), privacy, out),
        composed(unmuted(unmuted(arrivals, muted), none), privacy, dropped),
    ensures
        out == dropped,
{
    lemma_none_muted(unmuted(arrivals, muted), none);
    composed_is_one_answer(unmuted(arrivals, muted), privacy, out, dropped);
}

/// **Sender-only says the same whatever was said**: arrivals that differ
/// only in their words compose, under sender-only, to the same
/// notifications.
pub proof fn sender_only_says_the_same(k1: Seq<Arrival>, k2: Seq<Arrival>, o1: Seq<Note>, o2: Seq<Note>)
    requires
        all_alike(k1, k2),
        composed(k1, Privacy::SenderOnly, o1),
        composed(k2, Privacy::SenderOnly, o2),
    ensures
        o1 == o2,
{
    if k1.len() > 0 {
        assert forall|c: [u8; 32]| has_channel(k1, c) <==> has_channel(k2, c) by {
            if has_channel(k1, c) {
                let k = choose|k: int| 0 <= k < k1.len() && #[trigger] k1[k].channel == c;
                assert(alike(k1[k], k2[k]));
                assert(k2[k].channel == c);
            }
            if has_channel(k2, c) {
                let k = choose|k: int| 0 <= k < k2.len() && #[trigger] k2[k].channel == c;
                assert(alike(k1[k], k2[k]));
                assert(k1[k].channel == c);
            }
        }
        assert forall|i: int| 0 <= i < o1.len() implies has_channel(k2, (#[trigger] o1[i]).channel.unwrap()) by {
            assert(has_channel(k1, o1[i].channel.unwrap()));
        }
        assert forall|k: int| 0 <= k < k2.len() implies listed(note_channels(o1), #[trigger] k2[k].channel) by {
            assert(alike(k1[k], k2[k]));
            assert(listed(note_channels(o1), k1[k].channel));
        }
        assert forall|i: int| 0 <= i < o1.len() implies #[trigger] o1[i] == channel_note(
            k2,
            o1[i].channel.unwrap(),
            Privacy::SenderOnly,
        ) by {
            assert(has_channel(k1, o1[i].channel.unwrap()));
            sender_only_carries_no_words(k1, k2, o1[i].channel.unwrap());
        }
        assert(composed(k2, Privacy::SenderOnly, o1));
    }
    composed_is_one_answer(k2, Privacy::SenderOnly, o1, o2);
}

proof fn lemma_newest_in(g: Seq<Arrival>)
    requires
        g.len() > 0,
    ensures
        exists|j: int| 0 <= j < g.len() && newest_of(g) == #[trigger] g[j],
    decreases g.len(),
{
    if g.len() == 1 {
        assert(newest_of(g) == g[0]);
    } else {
        let g0 = g.drop_last();
        lemma_newest_in(g0);
        let j = choose|j: int| 0 <= j < g0.len() && newest_of(g0) == #[trigger] g0[j];
        if g.last().seq >= newest_of(g0).seq {
            assert(newest_of(g) == g[g.len() - 1]);
        } else {
            assert(newest_of(g) == g[j]);
        }
    }
}

proof fn lemma_mentions_from(s: Seq<Arrival>, c: [u8; 32], i: int)
    requires
        0 <= i < mentions_in(s, c).len(),
    ensures
        exists|k: int|
            0 <= k < s.len() && s[k].channel == c && s[k].mentions_me && mentions_in(s, c)[i] == #[trigger] s[k],
    decreases s.len(),
{
    let s0 = s.drop_last();
    let before = mentions_in(s0, c);
    if i < before.len() {
        lemma_mentions_from(s0, c, i);
        let k = choose|k: int|
            0 <= k < s0.len() && s0[k].channel == c && s0[k].mentions_me && before[i] == #[trigger] s0[k];
        assert(s[k] == s0[k]);
        assert(mentions_in(s, c)[i] == before[i]);
    } else {
        assert(mentions_in(s, c)[i] == s[s.len() - 1]);
    }
}

/// `m` is the newest arrival in conversation `c` that mentions the owner:
/// none has a greater `seq`, and of equal ones none comes after it.
pub open spec fn newest_mention(s: Seq<Arrival>, c: [u8; 32], m: int) -> bool {
    &&& 0 <= m < s.len()
    &&& s[m].channel == c
    &&& s[m].mentions_me
    &&& forall|k: int|
        0 <= k < s.len() && (#[trigger] s[k]).channel == c && s[k].mentions_me ==> s[k].seq < s[m].seq || (
        s[k].seq == s[m].seq && k <= m)
}

proof fn lemma_newest_mention(s: Seq<Arrival>, c: [u8; 32], m: int)
    requires
        newest_mention(s, c, m),
    ensures
        mentions_in(s, c).len() > 0,
        newest_of(mentions_in(s, c)) == s[m],
    decreases s.len(),
{
    let n = s.len() - 1;
    let s0 = s.drop_last();
    let before = mentions_in(s0, c);
    assert(s.last() == s[n]);
    if m == n {
        assert(mentions_in(s, c) == before.push(s[n]));
        if before.len() > 0 {
            lemma_newest_in(before);
            let j = choose|j: int| 0 <= j < before.len() && newest_of(before) == #[trigger] before[j];
            lemma_mentions_from(s0, c, j);
            let k = choose|k: int|
                0 <= k < s0.len() && s0[k].channel == c && s0[k].mentions_me && before[j] == #[trigger] s0[k];
            assert(s[k] == s0[k]);
            assert(before.push(s[n]).drop_last() == before);
        }
    } else {
        assert forall|k: int| 0 <= k < s0.len() && (#[trigger] s0[k]).channel == c && s0[k].mentions_me implies s0[k].seq
            < s0[m].seq || (s0[k].seq == s0[m].seq && k <= m) by {
            assert(s0[k] == s[k]);
        }
        assert(s0[m] == s[m]);
        lemma_newest_mention(s0, c, m);
        if s[n].channel == c && s[n].mentions_me {
            assert(mentions_in(s, c) == before.push(s[n]));
            assert(before.push(s[n]).drop_last() == before);
        } else {
            assert(mentions_in(s, c) == before);
        }
    }
}

/// `p` begins `s`.
pub open spec fn begins_with(s: Seq<char>, p: Seq<char>) -> bool {
    p.len() <= s.len() && s.take(p.len() as int) == p
}

/// **A mention says that it is one, and whose it is**: when the arrivals of
/// a conversation include mentions of this phone's owner, its notification
/// names the newest of them -- the greatest `seq`, and of equals the last
/// given -- with its words under sender-and-text and without them under
/// sender-only.
pub proof fn a_mention_names_the_newest_mention(
    kept: Seq<Arrival>,
    privacy: Privacy,
    out: Seq<Note>,
    i: int,
    m: int,
)
    requires
        composed(kept, privacy, out),
        privacy != Privacy::FactOnly,
        0 <= i < out.len(),
        newest_mention(kept, out[i].channel.unwrap(), m),
    ensures
        privacy == Privacy::SenderAndText ==> begins_with(
            out[i].body,
            kept[m].from_label@ + " mentioned you: "@ + kept[m].said@,
        ),
        privacy == Privacy::SenderOnly ==> begins_with(out[i].body, kept[m].from_label@ + " mentioned you"@),
{
    let c = out[i].channel.unwrap();
    lemma_newest_mention(kept, c, m);
    assert(out[i] == channel_note(kept, c, privacy));
    let said = if privacy == Privacy::SenderAndText {
        kept[m].from_label@ + " mentioned you: "@ + kept[m].said@
    } else {
        kept[m].from_label@ + " mentioned you"@
    };
    let g = in_channel(kept, c);
    assert(out[i].body == said + and_more((g.len() - 1) as nat));
    assert((said + and_more((g.len() - 1) as nat)).take(said.len() as int) == said);
}

} // verus!
