//! The wake window's decisions.
//!
//! Woken, the phone connects, leaves its endpoint with the exchange, catches
//! up, writes what arrived, and only then says anything; then it closes.
//! What waits on the network is the caller's to do: this is what to do next
//! given what the session last reported, and the record of what happened,
//! in the order it happened.
use vstd::prelude::*;

use crate::key::PubKey;
use crate::notify::{same_channel, Notification};
use crate::wake::{endpoint_life, endpoint_ttl, Registered};

verus! {

/// `Duration::from_millis`: a span of time, which nothing here reads.
pub assume_specification[ core::time::Duration::from_millis ](millis: u64) -> core::time::Duration;

/// `Duration` is `Copy`: its clone is itself.
pub assume_specification[ <core::time::Duration as Clone>::clone ](d: &core::time::Duration) -> (r:
    core::time::Duration)
    ensures
        r == *d,
;

/// A phone's window, as a phone is given one: twenty seconds in all, in
/// milliseconds.
pub const WINDOW_BUDGET_MS: u64 = 20_000;

/// And a second with nothing new before it counts as caught up.
pub const WINDOW_SETTLE_MS: u64 = 1_000;

/// Where the exchange should post `wake`, and for how long to keep it.
#[derive(Debug, Clone, PartialEq, Eq)]
pub struct Distributor {
    pub url: String,
    /// At most thirty days; at least the platform's suspension horizon.
    pub ttl_secs: u32,
}

impl Distributor {
    /// The endpoint the distributor gave, if any, kept for the days the
    /// person chose.
    pub fn for_endpoint(endpoint: Option<String>, days: u32) -> (d: Option<Distributor>)
        ensures
            match endpoint {
                Some(url) => d matches Some(d) && d.url == url && d.ttl_secs == endpoint_life(days),
                None => d is None,
            },
    {
        match endpoint {
            Some(url) => Some(Distributor { url, ttl_secs: endpoint_ttl(days) }),
            None => None,
        }
    }
}

/// What happened, in the order it happened.
#[derive(Debug, Clone, PartialEq, Eq)]
pub enum Step {
    /// The link came up.
    Connected,
    /// The endpoint was offered to the exchange, with its answer.
    Registered(Registered),
    /// The exchange answered the conversation list.
    Synced,
    /// Nothing new arrived for `settle`: caught up.
    Settled,
    /// Notifications and rings were handed to the phone.
    Said { notified: usize, rang: usize },
    /// The stream was closed and the store lock released.
    Closed,
    /// A ring was refused.
    Declined,
}

/// The window's report.
#[derive(Debug, Clone, PartialEq, Eq)]
pub struct Outcome {
    pub connected: bool,
    /// `None` when there was no distributor to register, or the link never
    /// came up to register it on.
    pub registered: Option<Registered>,
    pub synced: bool,
    /// The budget ran out before the window settled.
    pub ran_out: bool,
    /// Messages from others this device did not hold when the window opened.
    pub arrivals: usize,
    pub notified: usize,
    pub rang: usize,
    /// A ring this run was asked to refuse, and did.
    pub declined: bool,
    pub trouble: Option<String>,
    pub steps: Vec<Step>,
    pub took: core::time::Duration,
}

impl Outcome {
    /// Nothing yet.
    pub fn new() -> (o: Outcome)
        ensures
            o.fresh(),
    {
        Outcome {
            connected: false,
            registered: None,
            synced: false,
            ran_out: false,
            arrivals: 0,
            notified: 0,
            rang: 0,
            declined: false,
            trouble: None,
            steps: Vec::new(),
            took: core::time::Duration::from_millis(0),
        }
    }

    pub open spec fn fresh(&self) -> bool {
        &&& !self.connected
        &&& self.registered is None
        &&& !self.synced
        &&& !self.ran_out
        &&& self.arrivals == 0
        &&& self.notified == 0
        &&& self.rang == 0
        &&& !self.declined
        &&& self.trouble is None
        &&& self.steps@.len() == 0
    }
}

/// Where, if anywhere, a kind of step stands.
pub open spec fn first(steps: Seq<Step>, p: spec_fn(Step) -> bool) -> Option<int>
    decreases steps.len(),
{
    if steps.len() == 0 {
        None
    } else {
        match first(steps.drop_last(), p) {
            Some(i) => Some(i),
            None => if p(steps.last()) {
                Some(steps.len() - 1)
            } else {
                None
            },
        }
    }
}

pub open spec fn count_of(steps: Seq<Step>, p: spec_fn(Step) -> bool) -> nat
    decreases steps.len(),
{
    if steps.len() == 0 {
        0
    } else {
        count_of(steps.drop_last(), p) + if p(steps.last()) {
            1nat
        } else {
            0nat
        }
    }
}

pub open spec fn kind_connected() -> spec_fn(Step) -> bool {
    |t: Step| t is Connected
}

pub open spec fn kind_registered() -> spec_fn(Step) -> bool {
    |t: Step| t is Registered
}

pub open spec fn kind_synced() -> spec_fn(Step) -> bool {
    |t: Step| t is Synced
}

pub open spec fn kind_settled() -> spec_fn(Step) -> bool {
    |t: Step| t is Settled
}

pub open spec fn kind_said() -> spec_fn(Step) -> bool {
    |t: Step| t is Said
}

pub open spec fn kind_closed() -> spec_fn(Step) -> bool {
    |t: Step| t is Closed
}

pub open spec fn kind_declined() -> spec_fn(Step) -> bool {
    |t: Step| t is Declined
}

/// `a` happened, and before `b` if `b` did.
pub open spec fn before(steps: Seq<Step>, a: spec_fn(Step) -> bool, b: spec_fn(Step) -> bool) -> bool {
    first(steps, b) is Some ==> (first(steps, a) is Some && first(steps, a)->0 < first(steps, b)->0)
}

/// Nothing but the close after step `i`.
pub open spec fn closes_after(s: Seq<Step>, i: int) -> bool {
    forall|j: int| i < j < s.len() ==> (#[trigger] s[j]) is Closed
}

/// The order a window keeps, as its record shows it: each kind of step at
/// most once; an endpoint registered only on a link that came up; settled
/// only once synced; said only once connected and synced, and with nothing
/// after it but the close; nothing after the close.
pub open spec fn well_ordered(o: Outcome) -> bool {
    let s = o.steps@;
    &&& count_of(s, kind_connected()) <= 1
    &&& count_of(s, kind_registered()) <= 1
    &&& count_of(s, kind_synced()) <= 1
    &&& count_of(s, kind_settled()) <= 1
    &&& count_of(s, kind_said()) <= 1
    &&& count_of(s, kind_closed()) <= 1
    &&& count_of(s, kind_declined()) <= 1
    &&& before(s, kind_connected(), kind_registered())
    &&& before(s, kind_synced(), kind_settled())
    &&& before(s, kind_connected(), kind_said())
    &&& before(s, kind_connected(), kind_declined())
    &&& before(s, kind_synced(), kind_said())
    &&& (first(s, kind_said()) matches Some(i) ==> closes_after(s, i))
    &&& (first(s, kind_closed()) is Some ==> s.last() is Closed)
    &&& o.connected == (first(s, kind_connected()) is Some)
    &&& o.synced == (first(s, kind_synced()) is Some)
    &&& o.declined == (first(s, kind_declined()) is Some)
    &&& (o.registered is Some <==> first(s, kind_registered()) is Some)
    &&& (o.registered matches Some(r) ==> s[first(s, kind_registered())->0] == Step::Registered(r))
}

proof fn lemma_push(s: Seq<Step>, x: Step, p: spec_fn(Step) -> bool)
    ensures
        first(s.push(x), p) == match first(s, p) {
            Some(i) => Some(i),
            None => if p(x) {
                Some(s.len() as int)
            } else {
                None
            },
        },
        count_of(s.push(x), p) == count_of(s, p) + if p(x) {
            1nat
        } else {
            0nat
        },
{
    assert(s.push(x).drop_last() == s);
}

proof fn lemma_first_bound(s: Seq<Step>, p: spec_fn(Step) -> bool)
    ensures
        first(s, p) matches Some(i) ==> 0 <= i < s.len() && p(s[i]),
        first(s, p) is None <==> count_of(s, p) == 0,
    decreases s.len(),
{
    if s.len() > 0 {
        lemma_first_bound(s.drop_last(), p);
    }
}

/// Pushing a step that no rule forbids keeps the record in order.
proof fn lemma_push_ordered(o: Outcome, x: Step, n: Outcome)
    requires
        well_ordered(o),
        n.steps@ == o.steps@.push(x),
        first(o.steps@, kind_closed()) is None,
        first(o.steps@, kind_said()) is Some ==> x is Closed,
        x is Connected ==> !o.connected,
        x is Registered ==> o.connected && o.registered is None,
        x is Synced ==> !o.synced && first(o.steps@, kind_said()) is None,
        x is Settled ==> o.synced && first(o.steps@, kind_settled()) is None,
        x is Said ==> o.connected && o.synced && first(o.steps@, kind_said()) is None,
        x is Declined ==> o.connected && !o.declined,
        n.connected == (o.connected || x is Connected),
        n.synced == (o.synced || x is Synced),
        n.declined == (o.declined || x is Declined),
        n.registered == (if x is Registered {
            Some(x->Registered_0)
        } else {
            o.registered
        }),
    ensures
        well_ordered(n),
        first(n.steps@, kind_said()) is Some <==> (first(o.steps@, kind_said()) is Some || x is Said),
        first(n.steps@, kind_settled()) is Some <==> (first(o.steps@, kind_settled()) is Some
            || x is Settled),
        first(n.steps@, kind_closed()) is Some <==> (first(o.steps@, kind_closed()) is Some
            || x is Closed),
        first(n.steps@, kind_synced()) is Some <==> (first(o.steps@, kind_synced()) is Some
            || x is Synced),
        first(n.steps@, kind_registered()) is Some <==> (first(o.steps@, kind_registered()) is Some
            || x is Registered),
{
    let s = o.steps@;
    let t = n.steps@;
    let pc = kind_connected();
    let pr = kind_registered();
    let py = kind_synced();
    let pt = kind_settled();
    let ps = kind_said();
    let pk = kind_closed();
    let pd = kind_declined();
    lemma_push(s, x, pc);
    lemma_push(s, x, pr);
    lemma_push(s, x, py);
    lemma_push(s, x, pt);
    lemma_push(s, x, ps);
    lemma_push(s, x, pk);
    lemma_push(s, x, pd);
    lemma_first_bound(s, pc);
    lemma_first_bound(s, pr);
    lemma_first_bound(s, py);
    lemma_first_bound(s, pt);
    lemma_first_bound(s, ps);
    lemma_first_bound(s, pk);
    lemma_first_bound(s, pd);
    if x is Registered {
        assert(t[s.len() as int] == x);
    } else if o.registered is Some {
        assert(t[first(s, pr)->0] == s[first(s, pr)->0]);
    }
    assert(count_of(t, pc) <= 1);
    assert(count_of(t, pr) <= 1);
    assert(count_of(t, py) <= 1);
    assert(count_of(t, pt) <= 1);
    assert(count_of(t, ps) <= 1);
    assert(count_of(t, pk) <= 1);
    assert(count_of(t, pd) <= 1);
    assert(before(t, pc, pr));
    assert(before(t, py, pt));
    assert(before(t, pc, ps));
    assert(before(t, pc, pd));
    assert(before(t, py, ps));
    if first(s, ps) is Some {
        let i = first(s, ps)->0;
        assert forall|j: int| i < j < t.len() implies (#[trigger] t[j]) is Closed by {
            if j < s.len() {
                assert(t[j] == s[j]);
            }
        }
    }
    assert(first(t, pk) is Some ==> t.last() is Closed);
    assert(n.connected == (first(t, pc) is Some));
    assert(n.synced == (first(t, py) is Some));
    assert(n.declined == (first(t, pd) is Some));
    assert(n.registered is Some <==> first(t, pr) is Some);
}

proof fn lemma_push_closed(o: Outcome, n: Outcome)
    requires
        well_ordered(o),
        n.steps@ == o.steps@.push(Step::Closed),
        first(o.steps@, kind_closed()) is None,
        n.connected == o.connected,
        n.synced == o.synced,
        n.declined == o.declined,
        n.registered == o.registered,
    ensures
        well_ordered(n),
{
    lemma_push_ordered(o, Step::Closed, n);
}

/// **The order of a wake window.** Whatever the session reports and the
/// exchange answers, a window that `Watch::new` opened and only its own
/// methods moved holds each kind of step at most once -- so it says what it
/// has to once; registers only on a link that came up; counts as caught up
/// only once synced; says anything only once connected and after syncing --
/// so only what is already in the store; says only once it has stopped
/// watching; and after saying, does nothing but close.
pub proof fn the_order_of_a_window(w: Watch)
    requires
        w.wf(),
    ensures
        count_of(w.out.steps@, kind_connected()) <= 1,
        count_of(w.out.steps@, kind_registered()) <= 1,
        count_of(w.out.steps@, kind_synced()) <= 1,
        count_of(w.out.steps@, kind_settled()) <= 1,
        count_of(w.out.steps@, kind_said()) <= 1,
        count_of(w.out.steps@, kind_closed()) <= 1,
        before(w.out.steps@, kind_connected(), kind_registered()),
        before(w.out.steps@, kind_synced(), kind_settled()),
        before(w.out.steps@, kind_connected(), kind_said()),
        before(w.out.steps@, kind_synced(), kind_said()),
        first(w.out.steps@, kind_said()) is Some ==> w.done,
        first(w.out.steps@, kind_said()) matches Some(i) ==> closes_after(w.out.steps@, i),
        first(w.out.steps@, kind_closed()) is Some ==> w.out.steps@.last() is Closed,
{
}

/// What the session last reported, for a window that watches for new
/// arrivals.
pub struct Look {
    /// Milliseconds since the window opened.
    pub now: u64,
    /// Why the session gave up, if it did.
    pub trouble: Option<String>,
    pub link_up: bool,
    /// The exchange answered the conversation list.
    pub synced: bool,
    /// Arrivals not yet held when the window opened, and calls ringing,
    /// together: a change in this is something new.
    pub pending: usize,
    /// The session's connection is there to register an endpoint on.
    pub connection: bool,
}

/// What the caller does next.
#[derive(Debug, Clone, Copy, PartialEq, Eq, Structural)]
pub enum Next {
    /// Stop watching: say what there is to say, close, and return.
    Stop,
    /// Register the endpoint on the session's connection, then hand the
    /// answer to `registered`.
    Register,
    /// Refuse the ring with this sequence number, then report with `sent`.
    Decline(u64),
    /// Wait this many milliseconds, or until the session changes.
    Wait(u64),
}

/// One wake window, watching.
pub struct Watch {
    /// The budget, in milliseconds from the window's opening.
    pub deadline: u64,
    /// How long with nothing new before the window counts as caught up.
    pub settle: u64,
    /// There is an endpoint to leave with the exchange.
    pub distributor: bool,
    pub asked_to_register: bool,
    pub quiet_since: Option<u64>,
    pub seen: usize,
    /// Watching is over.
    pub done: bool,
    pub told: bool,
    pub out: Outcome,
}

pub open spec fn wait_for(deadline: u64, now: u64, cap: u64) -> u64 {
    if deadline - now < cap {
        (deadline - now) as u64
    } else {
        cap
    }
}

/// What watching leaves alone: whether the window has spoken, and what its
/// report says of running out, trouble, what was said, a refusal, and time.
pub open spec fn keeps_report(a: Watch, b: Watch) -> bool {
    &&& b.told == a.told
    &&& b.out.ran_out == a.out.ran_out
    &&& b.out.trouble == a.out.trouble
    &&& b.out.arrivals == a.out.arrivals
    &&& b.out.notified == a.out.notified
    &&& b.out.rang == a.out.rang
    &&& b.out.declined == a.out.declined
    &&& b.out.took == a.out.took
}

impl Watch {
    pub open spec fn wf(&self) -> bool {
        &&& well_ordered(self.out)
        &&& (self.out.registered is Some ==> self.asked_to_register)
        &&& (self.told ==> self.done)
        &&& (first(self.out.steps@, kind_said()) is Some ==> self.told)
        &&& (first(self.out.steps@, kind_settled()) is Some ==> self.done)
        &&& (first(self.out.steps@, kind_closed()) is Some ==> self.told)
        &&& !self.out.declined
    }

    /// A window with `budget` and `settle` in milliseconds.
    pub fn new(budget: u64, settle: u64, distributor: bool) -> (w: Watch)
        ensures
            w.wf(),
            w.deadline == budget,
            w.settle == settle,
            w.distributor == distributor,
            !w.asked_to_register,
            w.quiet_since is None,
            w.seen == 0,
            !w.done,
            !w.told,
            w.out.fresh(),
    {
        Watch {
            deadline: budget,
            settle,
            distributor,
            asked_to_register: false,
            quiet_since: None,
            seen: 0,
            done: false,
            told: false,
            out: Outcome::new(),
        }
    }

    /// What to do, given what the session reports now.
    ///
    /// Out of time, or the session in trouble: stop. The link up for the
    /// first time: connected. Connected with an endpoint not yet offered
    /// and a connection to offer it on: register it. Then, as `settle`
    /// says.
    pub fn observe(&mut self, look: &Look) -> (next: Next)
        requires
            old(self).wf(),
        ensures
            final(self).wf(),
            final(self).deadline == old(self).deadline,
            final(self).settle == old(self).settle,
            final(self).distributor == old(self).distributor,
            old(self).done ==> next == Next::Stop && *final(self) == *old(self),
            !old(self).done && look.now >= old(self).deadline ==> {
                &&& next == Next::Stop
                &&& *final(self) == (Watch {
                    done: true,
                    out: Outcome { ran_out: true, ..old(self).out },
                    ..*old(self)
                })
            },
            !old(self).done && look.now < old(self).deadline && look.trouble is Some ==> {
                &&& next == Next::Stop
                &&& *final(self) == (Watch {
                    done: true,
                    out: Outcome { trouble: look.trouble, ..old(self).out },
                    ..*old(self)
                })
            },
            !old(self).done && look.now < old(self).deadline && look.trouble is None ==> {
                let connecting = look.link_up && !old(self).out.connected;
                let steps = if connecting {
                    old(self).out.steps@.push(Step::Connected)
                } else {
                    old(self).out.steps@
                };
                &&& final(self).out.connected == (old(self).out.connected || look.link_up)
                &&& keeps_report(*old(self), *final(self))
                &&& final(self).out.registered == old(self).out.registered
                &&& if final(self).out.connected && !old(self).asked_to_register
                    && old(self).distributor && look.connection {
                    &&& next == Next::Register
                    &&& final(self).asked_to_register
                    &&& final(self).out.steps@ == steps
                    &&& !final(self).done
                    &&& final(self).out.synced == old(self).out.synced
                    &&& final(self).quiet_since == old(self).quiet_since
                    &&& final(self).seen == old(self).seen
                } else {
                    &&& final(self).asked_to_register == old(self).asked_to_register
                    &&& settled(*old(self), *final(self), steps, look, next)
                }
            },
    {
        if self.done {
            return Next::Stop;
        }
        if look.now >= self.deadline {
            self.out.ran_out = true;
            self.done = true;
            return Next::Stop;
        }
        match &look.trouble {
            Some(why) => {
                self.out.trouble = Some(why.clone());
                self.done = true;
                return Next::Stop;
            },
            None => {},
        }
        if look.link_up && !self.out.connected {
            let ghost o = self.out;
            self.out.connected = true;
            self.out.steps.push(Step::Connected);
            proof {
                lemma_first_bound(o.steps@, kind_closed());
                lemma_push_ordered(o, Step::Connected, self.out);
            }
        }
        if self.out.connected && !self.asked_to_register && self.distributor && look.connection {
            self.asked_to_register = true;
            return Next::Register;
        }
        self.settle_on(look)
    }

    /// The exchange answered the registration `observe` asked for; then, as
    /// `settle` says, on the same report.
    pub fn registered(&mut self, answer: Registered, look: &Look) -> (next: Next)
        requires
            old(self).wf(),
            !old(self).done,
            old(self).asked_to_register,
            old(self).out.registered is None,
            old(self).out.connected,
            look.now < old(self).deadline,
        ensures
            final(self).wf(),
            final(self).deadline == old(self).deadline,
            final(self).settle == old(self).settle,
            final(self).distributor == old(self).distributor,
            final(self).out.registered == Some(answer),
            final(self).out.connected,
            final(self).asked_to_register,
            keeps_report(*old(self), *final(self)),
            settled(
                *old(self),
                *final(self),
                old(self).out.steps@.push(Step::Registered(answer)),
                look,
                next,
            ),
    {
        let ghost o = self.out;
        self.out.steps.push(Step::Registered(answer.duplicate()));
        self.out.registered = Some(answer);
        proof {
            lemma_first_bound(o.steps@, kind_closed());
            lemma_first_bound(o.steps@, kind_said());
            lemma_push_ordered(o, Step::Registered(answer), self.out);
        }
        self.settle_on(look)
    }

    /// Synced for the first time: note it, and start the quiet from now.
    /// Something new since last time: start it again. Quiet for `settle`:
    /// settled, and stop. Otherwise wait, at most a tenth of a second.
    fn settle_on(&mut self, look: &Look) -> (next: Next)
        requires
            old(self).wf(),
            !old(self).done,
            look.now < old(self).deadline,
        ensures
            final(self).wf(),
            final(self).deadline == old(self).deadline,
            final(self).settle == old(self).settle,
            final(self).distributor == old(self).distributor,
            final(self).asked_to_register == old(self).asked_to_register,
            final(self).out.connected == old(self).out.connected,
            final(self).out.registered == old(self).out.registered,
            keeps_report(*old(self), *final(self)),
            settled(*old(self), *final(self), old(self).out.steps@, look, next),
    {
        let ghost steps0 = self.out.steps@;
        if look.synced && !self.out.synced {
            let ghost o = self.out;
            self.out.synced = true;
            self.out.steps.push(Step::Synced);
            self.quiet_since = Some(look.now);
            proof {
                lemma_first_bound(o.steps@, kind_closed());
                lemma_push_ordered(o, Step::Synced, self.out);
            }
        }
        if self.out.synced {
            if look.pending != self.seen {
                self.seen = look.pending;
                self.quiet_since = Some(look.now);
            }
            match self.quiet_since {
                Some(q) => {
                    let quiet = if look.now >= q {
                        look.now - q
                    } else {
                        0
                    };
                    if quiet >= self.settle {
                        let ghost o = self.out;
                        self.out.steps.push(Step::Settled);
                        self.done = true;
                        proof {
                            lemma_first_bound(o.steps@, kind_closed());
                            lemma_first_bound(o.steps@, kind_settled());
                            lemma_first_bound(o.steps@, kind_said());
                            lemma_push_ordered(o, Step::Settled, self.out);
                            lemma_first_bound(self.out.steps@, kind_settled());
                        }
                        return Next::Stop;
                    }
                },
                None => {},
            }
        }
        let left = self.deadline - look.now;
        Next::Wait(if left < 100 {
            left
        } else {
            100
        })
    }

    /// The window has said what it had to: `arrivals` new to this device,
    /// `notified` notifications and `rang` rings the phone took. Recorded
    /// only for a window that synced: one that never heard the conversation
    /// list says nothing, and what it did not say is said next time.
    pub fn said(&mut self, arrivals: usize, notified: usize, rang: usize)
        requires
            old(self).wf(),
            old(self).done,
        ensures
            final(self).wf(),
            old(self).told ==> *final(self) == *old(self),
            !old(self).told && !(old(self).out.connected && old(self).out.synced) ==> *final(self) == (
            Watch { told: true, ..*old(self) }),
            !old(self).told && old(self).out.connected && old(self).out.synced ==> {
                &&& final(self).out.steps@ == if notified > 0 || rang > 0 {
                    old(self).out.steps@.push(Step::Said { notified, rang })
                } else {
                    old(self).out.steps@
                }
                &&& *final(self) == (Watch {
                    told: true,
                    out: Outcome { arrivals, notified, rang, steps: final(self).out.steps, ..old(self).out },
                    ..*old(self)
                })
            },
    {
        if self.told {
            return;
        }
        if self.out.connected && self.out.synced {
            self.out.arrivals = arrivals;
            self.out.notified = notified;
            self.out.rang = rang;
            if notified > 0 || rang > 0 {
                let ghost o = self.out;
                self.out.steps.push(Step::Said { notified, rang });
                proof {
                    lemma_first_bound(o.steps@, kind_closed());
                    lemma_first_bound(o.steps@, kind_said());
                    lemma_push_ordered(o, Step::Said { notified, rang }, self.out);
                }
            }
        }
        self.told = true;
    }

    /// The stream is closed.
    pub fn closed(&mut self)
        requires
            old(self).wf(),
            old(self).told,
        ensures
            final(self).wf(),
            final(self).out.steps@.last() == Step::Closed,
            first(old(self).out.steps@, kind_closed()) is None ==> final(self).out.steps@
                == old(self).out.steps@.push(Step::Closed),
            first(old(self).out.steps@, kind_closed()) is Some ==> *final(self) == *old(self),
            *final(self) == (Watch {
                out: Outcome { steps: final(self).out.steps, ..old(self).out },
                ..*old(self)
            }),
    {
        let ghost o = self.out;
        proof {
            lemma_first_bound(o.steps@, kind_closed());
        }
        if self.out.steps.len() > 0 {
            let k = self.out.steps.len() - 1;
            if matches!(self.out.steps[k], Step::Closed) {
                proof {
                    lemma_closed_last(o);
                }
                return;
            }
        }
        self.out.steps.push(Step::Closed);
        proof {
            lemma_closed_first(o);
            lemma_push_closed(o, self.out);
        }
    }
}

proof fn lemma_closed_last(o: Outcome)
    requires
        well_ordered(o),
        o.steps@.len() > 0,
        o.steps@.last() is Closed,
    ensures
        first(o.steps@, kind_closed()) is Some,
{
    let s = o.steps@;
    lemma_push(s.drop_last(), s.last(), kind_closed());
    assert(s.drop_last().push(s.last()) == s);
}

proof fn lemma_closed_first(o: Outcome)
    requires
        well_ordered(o),
        !(o.steps@.len() > 0 && o.steps@.last() is Closed),
    ensures
        first(o.steps@, kind_closed()) is None,
{
}

/// The rest of a watching turn, as `settle_on` takes it: from `w`, with the
/// record so far `steps`, to `n`, answering `next`.
pub open spec fn settled(w: Watch, n: Watch, steps: Seq<Step>, look: &Look, next: Next) -> bool {
    let syncing = look.synced && !w.out.synced;
    let synced = w.out.synced || look.synced;
    let steps1 = if syncing {
        steps.push(Step::Synced)
    } else {
        steps
    };
    let quiet1 = if syncing {
        Some(look.now)
    } else {
        w.quiet_since
    };
    let changed = synced && look.pending != w.seen;
    let quiet2 = if changed {
        Some(look.now)
    } else {
        quiet1
    };
    let seen2 = if changed {
        look.pending
    } else {
        w.seen
    };
    let settles = synced && (quiet2 matches Some(q) && (if look.now >= q {
        look.now - q
    } else {
        0
    }) >= w.settle);
    &&& n.out.synced == synced
    &&& n.quiet_since == quiet2
    &&& n.seen == seen2
    &&& if settles {
        &&& next == Next::Stop
        &&& n.done
        &&& n.out.steps@ == steps1.push(Step::Settled)
    } else {
        &&& next == Next::Wait(wait_for(w.deadline, look.now, 100))
        &&& !n.done
        &&& n.out.steps@ == steps1
    }
}

/// A call ringing when the phone looked, as the session reports it.
#[derive(Debug, Clone, PartialEq, Eq)]
pub struct Calling {
    pub channel: [u8; 32],
    pub seq: u64,
    pub from: PubKey,
    /// What the conversation it rang in is called.
    pub label: String,
    /// This device's own call.
    pub mine: bool,
    pub answered: bool,
    /// A direct message: the caller is the conversation.
    pub direct: bool,
}

/// A call presented through the platform's call surface.
#[derive(Debug, Clone, PartialEq, Eq)]
pub struct Ring {
    pub channel: [u8; 32],
    pub seq: u64,
    pub from: PubKey,
    /// What the conversation it rang in is called.
    pub label: String,
    /// A direct message: the caller is the conversation.
    pub direct: bool,
}

pub open spec fn ring_of(c: Calling) -> Ring {
    Ring { channel: c.channel, seq: c.seq, from: c.from, label: c.label, direct: c.direct }
}

/// The calls to present, of those ringing: not this device's own, not
/// answered, and not in a conversation that `muted` marks.
pub open spec fn presented(ringing: Seq<Calling>, muted: Seq<bool>) -> Seq<Ring>
    decreases ringing.len(),
{
    if ringing.len() == 0 {
        Seq::<Ring>::empty()
    } else {
        let before = presented(ringing.drop_last(), muted.take(ringing.len() - 1));
        let c = ringing.last();
        if c.mine || c.answered || muted[ringing.len() - 1] {
            before
        } else {
            before.push(ring_of(c))
        }
    }
}

/// **A muted conversation does not ring, nor does this device's own call,
/// nor one already answered**: every ring presented comes from a call that
/// is none of these, and when every call in conversation `c` is marked, no
/// ring is in `c`.
pub proof fn what_rings(ringing: Seq<Calling>, muted: Seq<bool>, c: [u8; 32])
    requires
        muted.len() == ringing.len(),
    ensures
        forall|i: int|
            0 <= i < presented(ringing, muted).len() ==> exists|k: int|
                0 <= k < ringing.len() && !ringing[k].mine && !ringing[k].answered && !muted[k]
                    && #[trigger] presented(ringing, muted)[i] == ring_of(ringing[k]),
        (forall|k: int| 0 <= k < ringing.len() && #[trigger] ringing[k].channel == c ==> muted[k])
            ==> forall|i: int| 0 <= i < presented(ringing, muted).len() ==> (#[trigger] presented(ringing, muted)[i]).channel != c,
    decreases ringing.len(),
{
    if ringing.len() > 0 {
        let n = ringing.len() - 1;
        let r0 = ringing.drop_last();
        let m0 = muted.take(n);
        what_rings(r0, m0, c);
        let before = presented(r0, m0);
        assert forall|i: int| 0 <= i < presented(ringing, muted).len() implies exists|k: int|
            0 <= k < ringing.len() && !ringing[k].mine && !ringing[k].answered && !muted[k]
                && #[trigger] presented(ringing, muted)[i] == ring_of(ringing[k]) by {
            if i < before.len() {
                let k = choose|k: int|
                    0 <= k < r0.len() && !r0[k].mine && !r0[k].answered && !m0[k]
                        && #[trigger] before[i] == ring_of(r0[k]);
                assert(ringing[k] == r0[k]);
                assert(muted[k] == m0[k]);
                assert(presented(ringing, muted)[i] == before[i]);
            } else {
                assert(presented(ringing, muted)[i] == ring_of(ringing[n]));
            }
        }
        if forall|k: int| 0 <= k < ringing.len() && #[trigger] ringing[k].channel == c ==> muted[k] {
            assert forall|k: int| 0 <= k < r0.len() && #[trigger] r0[k].channel == c implies m0[k] by {
                assert(ringing[k] == r0[k]);
            }
            assert forall|i: int| 0 <= i < presented(ringing, muted).len() implies (#[trigger] presented(ringing, muted)[i]).channel != c by {
                if i < before.len() {
                    assert(presented(ringing, muted)[i] == before[i]);
                } else {
                    assert(presented(ringing, muted)[i] == ring_of(ringing[n]));
                }
            }
        }
    }
}

/// A call rings: somebody else's, not answered, in a conversation not marked.
pub open spec fn rings_for(c: Calling, muted: bool) -> bool {
    !c.mine && !c.answered && !muted
}

/// How many of the first `k` calls ring.
pub open spec fn ringing_before(ringing: Seq<Calling>, muted: Seq<bool>, k: int) -> nat
    decreases k,
{
    if k <= 0 {
        0
    } else {
        ringing_before(ringing, muted, k - 1) + if rings_for(ringing[k - 1], muted[k - 1]) {
            1nat
        } else {
            0nat
        }
    }
}

proof fn lemma_ringing_before_grows(ringing: Seq<Calling>, muted: Seq<bool>, j: int, k: int)
    requires
        0 <= j <= k,
    ensures
        ringing_before(ringing, muted, j) <= ringing_before(ringing, muted, k),
    decreases k - j,
{
    if j < k {
        lemma_ringing_before_grows(ringing, muted, j, k - 1);
    }
}

proof fn lemma_ringing_before_prefix(ringing: Seq<Calling>, muted: Seq<bool>, n: int, k: int)
    requires
        0 <= k <= n <= ringing.len(),
        n <= muted.len(),
    ensures
        ringing_before(ringing.take(n), muted.take(n), k) == ringing_before(ringing, muted, k),
    decreases k,
{
    if k > 0 {
        lemma_ringing_before_prefix(ringing, muted, n, k - 1);
        assert(ringing.take(n)[k - 1] == ringing[k - 1]);
        assert(muted.take(n)[k - 1] == muted[k - 1]);
    }
}

/// **Every call that should ring does, in order**: as many rings are
/// presented as there are calls that are somebody else's, unanswered and
/// unmarked, and each such call is presented as its ring, after the ones
/// before it.
pub proof fn every_live_call_rings(ringing: Seq<Calling>, muted: Seq<bool>)
    requires
        muted.len() == ringing.len(),
    ensures
        presented(ringing, muted).len() == ringing_before(ringing, muted, ringing.len() as int),
        forall|k: int|
            0 <= k < ringing.len() && rings_for(ringing[k], muted[k]) ==> presented(ringing, muted)[ringing_before(
                ringing,
                muted,
                k,
            ) as int] == ring_of(#[trigger] ringing[k]),
    decreases ringing.len(),
{
    if ringing.len() > 0 {
        let n = ringing.len() - 1;
        let r0 = ringing.drop_last();
        let m0 = muted.take(n);
        every_live_call_rings(r0, m0);
        assert(r0 == ringing.take(n));
        let before = presented(r0, m0);
        let c = ringing.last();
        assert(c == ringing[n]);
        lemma_ringing_before_prefix(ringing, muted, n, n);
        assert forall|k: int|
            0 <= k < ringing.len() && rings_for(ringing[k], muted[k]) implies presented(ringing, muted)[ringing_before(
                ringing,
                muted,
                k,
            ) as int] == ring_of(#[trigger] ringing[k]) by {
            if k < n {
                lemma_ringing_before_prefix(ringing, muted, n, k);
                assert(r0[k] == ringing[k] && m0[k] == muted[k]);
                lemma_ringing_before_grows(ringing, muted, k + 1, n);
                assert(presented(ringing, muted)[ringing_before(ringing, muted, k) as int] == before[ringing_before(
                    r0,
                    m0,
                    k,
                ) as int]);
            }
        }
    }
}

/// Which calls ringing to present: a muted conversation does not ring,
/// nor does this device's own call, nor one already answered.
pub fn rings_to_present<F: Fn(&[u8; 32]) -> bool>(ringing: &[Calling], silenced: F) -> (r: Vec<Ring>)
    requires
        forall|c: [u8; 32]| silenced.requires((&c,)),
    ensures
        exists|muted: Seq<bool>|
            {
                &&& muted.len() == ringing@.len()
                &&& forall|k: int|
                    0 <= k < ringing@.len() && !ringing@[k].mine && !ringing@[k].answered
                        ==> silenced.ensures((&ringing@[k].channel,), #[trigger] muted[k])
                &&& r@ == presented(ringing@, muted)
            },
{
    let mut out: Vec<Ring> = Vec::new();
    let ghost mut muted: Seq<bool> = Seq::empty();
    let mut k: usize = 0;
    while k < ringing.len()
        invariant
            k <= ringing@.len(),
            forall|c: [u8; 32]| silenced.requires((&c,)),
            muted.len() == k,
            forall|q: int|
                0 <= q < k && !ringing@[q].mine && !ringing@[q].answered ==> silenced.ensures(
                    (&ringing@[q].channel,),
                    #[trigger] muted[q],
                ),
            out@ == presented(ringing@.take(k as int), muted),
        decreases ringing@.len() - k,
    {
        let c = &ringing[k];
        let quiet = if c.mine || c.answered {
            true
        } else {
            silenced(&c.channel)
        };
        proof {
            let next = muted.push(quiet);
            assert(ringing@.take(k + 1).drop_last() == ringing@.take(k as int));
            assert(next.take(k as int) == muted);
            muted = next;
        }
        if !quiet {
            out.push(
                Ring {
                    channel: c.channel,
                    seq: c.seq,
                    from: c.from,
                    label: c.label.clone(),
                    direct: c.direct,
                },
            );
        }
        k = k + 1;
    }
    assert(ringing@.take(ringing@.len() as int) == ringing@);
    out
}

/// What the phone can do for the window: show a notification, present a
/// call, take a ring down -- the first two answering whether they did.
/// Everything platform-shaped is behind this.
pub trait Phone: Send + Sync {
    /// Show a notification. Returns whether it was shown.
    fn notify(&self, notification: &Notification) -> bool;

    /// Present a call that is ringing. Returns whether it was.
    fn ring(&self, ring: &Ring) -> bool;

    /// Take a ring down: it was declined, answered, cancelled, or the
    /// caller gave up.
    fn unring(&self, channel: &[u8; 32]);
}

/// How many of `answers` are yes.
pub open spec fn count_true(answers: Seq<bool>) -> nat
    decreases answers.len(),
{
    if answers.len() == 0 {
        0
    } else {
        count_true(answers.drop_last()) + if answers.last() {
            1nat
        } else {
            0nat
        }
    }
}

/// The window says what it has to: every notification to `notify`, then
/// every ring to `ring`, each handed over once and in order. Returns how
/// many of each the phone took: the number of those calls that answered
/// yes.
pub fn tell<N: Fn(&Notification) -> bool, R: Fn(&Ring) -> bool>(
    notify: N,
    ring: R,
    notes: &[Notification],
    rings: &[Ring],
) -> (r: (usize, usize))
    requires
        forall|n: Notification| notify.requires((&n,)),
        forall|g: Ring| ring.requires((&g,)),
    ensures
        exists|took: Seq<bool>|
            {
                &&& took.len() == notes@.len()
                &&& forall|k: int| 0 <= k < notes@.len() ==> notify.ensures((&notes@[k],), #[trigger] took[k])
                &&& r.0 == count_true(took)
            },
        exists|took: Seq<bool>|
            {
                &&& took.len() == rings@.len()
                &&& forall|k: int| 0 <= k < rings@.len() ==> ring.ensures((&rings@[k],), #[trigger] took[k])
                &&& r.1 == count_true(took)
            },
        r.0 <= notes@.len(),
        r.1 <= rings@.len(),
{
    let mut notified: usize = 0;
    let ghost mut shown: Seq<bool> = Seq::empty();
    let mut k: usize = 0;
    while k < notes.len()
        invariant
            k <= notes@.len(),
            forall|n: Notification| notify.requires((&n,)),
            shown.len() == k,
            forall|q: int| 0 <= q < k ==> notify.ensures((&notes@[q],), #[trigger] shown[q]),
            notified == count_true(shown),
            notified <= k,
        decreases notes@.len() - k,
    {
        let yes = notify(&notes[k]);
        proof {
            let next = shown.push(yes);
            assert(next.drop_last() == shown);
            shown = next;
        }
        if yes {
            notified = notified + 1;
        }
        k = k + 1;
    }
    let mut rang: usize = 0;
    let ghost mut presented: Seq<bool> = Seq::empty();
    let mut j: usize = 0;
    while j < rings.len()
        invariant
            j <= rings@.len(),
            forall|g: Ring| ring.requires((&g,)),
            presented.len() == j,
            forall|q: int| 0 <= q < j ==> ring.ensures((&rings@[q],), #[trigger] presented[q]),
            rang == count_true(presented),
            rang <= j,
        decreases rings@.len() - j,
    {
        let yes = ring(&rings[j]);
        proof {
            let next = presented.push(yes);
            assert(next.drop_last() == presented);
            presented = next;
        }
        if yes {
            rang = rang + 1;
        }
        j = j + 1;
    }
    (notified, rang)
}

/// What the session last reported, for a window that refuses a ring.
pub struct Heard {
    /// Milliseconds since the window opened.
    pub now: u64,
    pub trouble: Option<String>,
    pub link_up: bool,
    /// The calls ringing.
    pub ringing: Vec<Calling>,
}

/// The ring to refuse when the caller did not say which: the newest live
/// one in the conversation that is not this device's own.
pub open spec fn newest_live(ringing: Seq<Calling>, channel: [u8; 32]) -> Option<u64>
    decreases ringing.len(),
{
    if ringing.len() == 0 {
        None
    } else {
        let before = newest_live(ringing.drop_last(), channel);
        let c = ringing.last();
        if c.channel == channel && !c.mine {
            match before {
                Some(s) => Some(if c.seq > s {
                    c.seq
                } else {
                    s
                }),
                None => Some(c.seq),
            }
        } else {
            before
        }
    }
}

/// **The ring refused is the newest live one**: when a conversation has
/// calls ringing that are not this device's own, the one refused has the
/// greatest sequence number of them and is one of them; when it has none,
/// none is refused.
pub proof fn the_ring_refused_is_the_newest(ringing: Seq<Calling>, channel: [u8; 32])
    ensures
        match newest_live(ringing, channel) {
            Some(s) => {
                &&& exists|k: int|
                    0 <= k < ringing.len() && ringing[k].channel == channel && !ringing[k].mine && #[trigger] ringing[k].seq
                        == s
                &&& forall|k: int|
                    0 <= k < ringing.len() && ringing[k].channel == channel && !ringing[k].mine ==> #[trigger] ringing[k].seq
                        <= s
            },
            None => forall|k: int|
                0 <= k < ringing.len() ==> !((#[trigger] ringing[k]).channel == channel && !ringing[k].mine),
        },
    decreases ringing.len(),
{
    if ringing.len() > 0 {
        let r0 = ringing.drop_last();
        let n = ringing.len() - 1;
        the_ring_refused_is_the_newest(r0, channel);
        let c = ringing[n];
        assert(ringing.last() == c);
        let live = c.channel == channel && !c.mine;
        match newest_live(r0, channel) {
            Some(s0) => {
                let k0 = choose|k: int|
                    0 <= k < r0.len() && r0[k].channel == channel && !r0[k].mine && #[trigger] r0[k].seq == s0;
                assert(ringing[k0] == r0[k0]);
                let s = if live && c.seq > s0 {
                    c.seq
                } else {
                    s0
                };
                assert(newest_live(ringing, channel) == Some(s));
                assert forall|k: int|
                    0 <= k < ringing.len() && ringing[k].channel == channel && !ringing[k].mine implies #[trigger] ringing[k].seq
                        <= s by {
                    if k < n {
                        assert(ringing[k] == r0[k]);
                        assert(r0[k].seq <= s0);
                    }
                }
                if live && c.seq > s0 {
                    assert(ringing[n].seq == s);
                } else {
                    assert(ringing[k0].seq == s);
                }
            },
            None => {
                if live {
                    assert(newest_live(ringing, channel) == Some(c.seq));
                    assert(ringing[n].seq == c.seq);
                    assert forall|k: int|
                        0 <= k < ringing.len() && ringing[k].channel == channel && !ringing[k].mine implies #[trigger] ringing[k].seq
                            <= c.seq by {
                        if k < n {
                            assert(ringing[k] == r0[k]);
                            assert(!(r0[k].channel == channel && !r0[k].mine));
                        }
                    }
                } else {
                    assert(newest_live(ringing, channel) is None);
                    assert forall|k: int| 0 <= k < ringing.len() implies !((#[trigger] ringing[k]).channel == channel
                        && !ringing[k].mine) by {
                        if k < n {
                            assert(ringing[k] == r0[k]);
                            assert(!(r0[k].channel == channel && !r0[k].mine));
                        }
                    }
                }
            },
        }
    }
}

pub fn newest_ringing(ringing: &[Calling], channel: &[u8; 32]) -> (r: Option<u64>)
    ensures
        r == newest_live(ringing@, *channel),
{
    let mut best: Option<u64> = None;
    let mut k: usize = 0;
    while k < ringing.len()
        invariant
            k <= ringing@.len(),
            best == newest_live(ringing@.take(k as int), *channel),
        decreases ringing@.len() - k,
    {
        assert(ringing@.take(k + 1).drop_last() == ringing@.take(k as int));
        let c = &ringing[k];
        if same_channel(&c.channel, channel) && !c.mine {
            best = match best {
                Some(s) => Some(if c.seq > s {
                    c.seq
                } else {
                    s
                }),
                None => Some(c.seq),
            };
        }
        k = k + 1;
    }
    assert(ringing@.take(ringing@.len() as int) == ringing@);
    best
}

/// The refused ring is gone from the session's own list.
pub fn gone(ringing: &[Calling], channel: &[u8; 32]) -> (r: bool)
    ensures
        r == (newest_live(ringing@, *channel) is None),
{
    newest_ringing(ringing, channel).is_none()
}

/// One refusal of a ring, watching for the link and then for the ring to go.
pub struct Refusal {
    pub deadline: u64,
    /// How long to wait, once the refusal is sent, for the ring to go.
    pub settle: u64,
    pub channel: [u8; 32],
    /// The ring's sequence number, when the notification knew it.
    pub seq: Option<u64>,
    /// When the refusal went out.
    pub said_at: Option<u64>,
    pub done: bool,
    pub out: Outcome,
}

impl Refusal {
    pub open spec fn wf(&self) -> bool {
        &&& well_ordered(self.out)
        &&& (self.said_at is Some <==> self.out.declined)
        &&& first(self.out.steps@, kind_synced()) is None
        &&& first(self.out.steps@, kind_registered()) is None
        &&& first(self.out.steps@, kind_settled()) is None
        &&& first(self.out.steps@, kind_said()) is None
        &&& (first(self.out.steps@, kind_closed()) is Some ==> self.done)
        &&& (self.said_at matches Some(at) ==> at < self.deadline)
    }

    pub fn new(budget: u64, settle: u64, channel: [u8; 32], seq: Option<u64>) -> (r: Refusal)
        ensures
            r.wf(),
            r.deadline == budget,
            r.settle == settle,
            r.channel == channel,
            r.seq == seq,
            r.said_at is None,
            !r.done,
            r.out.fresh(),
    {
        Refusal { deadline: budget, settle, channel, seq, said_at: None, done: false, out: Outcome::new() }
    }

    /// What to do, given what the session reports now: out of time or in
    /// trouble, stop; the link up for the first time, connected; connected
    /// and nothing refused yet, refuse the ring the caller named, or else
    /// the newest live one here, if there is one; once refused, stop when
    /// the ring has gone or `settle` has passed.
    pub fn observe(&mut self, heard: &Heard) -> (next: Next)
        requires
            old(self).wf(),
        ensures
            final(self).wf(),
            final(self).deadline == old(self).deadline,
            final(self).channel == old(self).channel,
            final(self).seq == old(self).seq,
            old(self).done ==> next == Next::Stop && *final(self) == *old(self),
            !old(self).done && heard.now >= old(self).deadline ==> {
                &&& next == Next::Stop
                &&& *final(self) == (Refusal {
                    done: true,
                    out: Outcome { ran_out: true, ..old(self).out },
                    ..*old(self)
                })
            },
            !old(self).done && heard.now < old(self).deadline && heard.trouble is Some ==> {
                &&& next == Next::Stop
                &&& *final(self) == (Refusal {
                    done: true,
                    out: Outcome { trouble: heard.trouble, ..old(self).out },
                    ..*old(self)
                })
            },
            !old(self).done && heard.now < old(self).deadline && heard.trouble is None ==> {
                let connected = old(self).out.connected || heard.link_up;
                let steps = if heard.link_up && !old(self).out.connected {
                    old(self).out.steps@.push(Step::Connected)
                } else {
                    old(self).out.steps@
                };
                let refuse = match old(self).seq {
                    Some(s) => Some(s),
                    None => newest_live(heard.ringing@, old(self).channel),
                };
                if connected && old(self).said_at is None && refuse is Some {
                    &&& next == Next::Decline(refuse->0)
                    &&& final(self).out.steps@ == steps.push(Step::Declined)
                    &&& *final(self) == (Refusal {
                        said_at: Some(heard.now),
                        out: Outcome {
                            connected,
                            declined: true,
                            steps: final(self).out.steps,
                            ..old(self).out
                        },
                        ..*old(self)
                    })
                } else {
                    &&& final(self).out.steps@ == steps
                    &&& final(self).out == (Outcome {
                        connected,
                        steps: final(self).out.steps,
                        ..old(self).out
                    })
                    &&& lingered(*old(self), *final(self), heard.now, heard.ringing@, next)
                }
            },
    {
        if self.done {
            return Next::Stop;
        }
        if heard.now >= self.deadline {
            self.out.ran_out = true;
            self.done = true;
            return Next::Stop;
        }
        match &heard.trouble {
            Some(why) => {
                self.out.trouble = Some(why.clone());
                self.done = true;
                return Next::Stop;
            },
            None => {},
        }
        if heard.link_up && !self.out.connected {
            let ghost o = self.out;
            self.out.connected = true;
            self.out.steps.push(Step::Connected);
            proof {
                lemma_first_bound(o.steps@, kind_closed());
                lemma_push_ordered(o, Step::Connected, self.out);
            }
        }
        if self.out.connected && self.said_at.is_none() {
            let refuse = match self.seq {
                Some(s) => Some(s),
                None => newest_ringing(&heard.ringing, &self.channel),
            };
            match refuse {
                Some(seq) => {
                    let ghost o = self.out;
                    self.said_at = Some(heard.now);
                    self.out.declined = true;
                    self.out.steps.push(Step::Declined);
                    proof {
                        lemma_first_bound(o.steps@, kind_closed());
                        lemma_push_ordered(o, Step::Declined, self.out);
                        lemma_push(o.steps@, Step::Declined, kind_synced());
                        lemma_push(o.steps@, Step::Declined, kind_registered());
                        lemma_push(o.steps@, Step::Declined, kind_settled());
                        lemma_push(o.steps@, Step::Declined, kind_said());
                    }
                    return Next::Decline(seq);
                },
                None => {},
            }
        }
        self.linger(heard.now, &heard.ringing)
    }

    /// The refusal went out; what the session reports of the rings now.
    pub fn sent(&mut self, ringing: &[Calling]) -> (next: Next)
        requires
            old(self).wf(),
            !old(self).done,
            old(self).said_at is Some,
        ensures
            final(self).wf(),
            final(self).out == old(self).out,
            lingered(*old(self), *final(self), old(self).said_at->0, ringing@, next),
    {
        let now = match self.said_at {
            Some(at) => at,
            None => 0,
        };
        self.linger(now, ringing)
    }

    fn linger(&mut self, now: u64, ringing: &[Calling]) -> (next: Next)
        requires
            old(self).wf(),
            !old(self).done,
            now < old(self).deadline,
        ensures
            final(self).wf(),
            final(self).out == old(self).out,
            lingered(*old(self), *final(self), now, ringing@, next),
    {
        match self.said_at {
            Some(at) => {
                let waited = if now >= at {
                    now - at
                } else {
                    0
                };
                if gone(ringing, &self.channel) || waited >= self.settle {
                    self.done = true;
                    return Next::Stop;
                }
            },
            None => {},
        }
        let left = self.deadline - now;
        Next::Wait(if left < 50 {
            left
        } else {
            50
        })
    }

    /// The stream is closed.
    pub fn closed(&mut self)
        requires
            old(self).wf(),
            old(self).done,
        ensures
            final(self).wf(),
            final(self).out.steps@.last() == Step::Closed,
            first(old(self).out.steps@, kind_closed()) is None ==> final(self).out.steps@
                == old(self).out.steps@.push(Step::Closed),
            first(old(self).out.steps@, kind_closed()) is Some ==> *final(self) == *old(self),
            *final(self) == (Refusal {
                out: Outcome { steps: final(self).out.steps, ..old(self).out },
                ..*old(self)
            }),
    {
        let ghost o = self.out;
        proof {
            lemma_first_bound(o.steps@, kind_closed());
        }
        if self.out.steps.len() > 0 {
            let k = self.out.steps.len() - 1;
            if matches!(self.out.steps[k], Step::Closed) {
                return;
            }
        }
        self.out.steps.push(Step::Closed);
        proof {
            lemma_closed_first(o);
            lemma_push_closed(o, self.out);
            lemma_push(o.steps@, Step::Closed, kind_synced());
            lemma_push(o.steps@, Step::Closed, kind_registered());
            lemma_push(o.steps@, Step::Closed, kind_settled());
            lemma_push(o.steps@, Step::Closed, kind_said());
        }
    }
}

/// The waiting part of a refusal's turn: stop once the refused ring is gone
/// or `settle` has passed since it was refused; otherwise wait, at most a
/// twentieth of a second.
pub open spec fn lingered(r: Refusal, n: Refusal, now: u64, ringing: Seq<Calling>, next: Next) -> bool {
    let stops = (r.said_at matches Some(at) && (newest_live(ringing, r.channel) is None || (if now
        >= at {
        now - at
    } else {
        0
    }) >= r.settle));
    &&& n.said_at == r.said_at
    &&& n.deadline == r.deadline
    &&& n.settle == r.settle
    &&& n.channel == r.channel
    &&& n.seq == r.seq
    &&& if stops {
        next == Next::Stop && n.done
    } else {
        next == Next::Wait(wait_for(r.deadline, now, 50)) && !n.done
    }
}

} // verus!
