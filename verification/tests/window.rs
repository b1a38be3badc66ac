use sigil_phone::key::PubKey;
use sigil_phone::wake::Registered;
use sigil_phone::window::{
    gone, newest_ringing, rings_to_present, Calling, Heard, Look, Next, Outcome, Refusal, Step, Watch,
};
use sigil_phone::notify::Notification;
use sigil_phone::window::Distributor;
use sigil_phone::window::{tell, Phone, Ring};

fn look(now: u64, link_up: bool, synced: bool, pending: usize) -> Look {
    Look { now, trouble: None, link_up, synced, pending, connection: link_up }
}

fn calling(channel: u8, seq: u64, mine: bool, answered: bool) -> Calling {
    Calling {
        channel: [channel; 32],
        seq,
        from: PubKey::new([7; 32]),
        label: "ann".to_string(),
        mine,
        answered,
        direct: true,
    }
}

#[test]
fn a_window_connects_registers_syncs_settles_says_and_closes_in_that_order() {
    let mut w = Watch::new(15_000, 500, true);
    assert_eq!(w.observe(&look(0, false, false, 0)), Next::Wait(100));
    assert_eq!(w.observe(&look(10, true, false, 0)), Next::Register);
    assert_eq!(w.registered(Registered::Kept, &look(20, true, true, 0)), Next::Wait(100));
    // Something new restarts the quiet.
    assert_eq!(w.observe(&look(300, true, true, 1)), Next::Wait(100));
    assert_eq!(w.observe(&look(700, true, true, 1)), Next::Wait(100));
    assert_eq!(w.observe(&look(800, true, true, 1)), Next::Stop);
    w.said(1, 1, 0);
    w.closed();
    assert_eq!(
        w.out.steps,
        vec![
            Step::Connected,
            Step::Registered(Registered::Kept),
            Step::Synced,
            Step::Settled,
            Step::Said { notified: 1, rang: 0 },
            Step::Closed,
        ]
    );
    assert!(w.out.connected && w.out.synced && !w.out.ran_out);
    assert_eq!(w.out.registered, Some(Registered::Kept));
    assert_eq!((w.out.arrivals, w.out.notified, w.out.rang), (1, 1, 0));
    // Once stopped, it stays stopped and says nothing twice.
    assert_eq!(w.observe(&look(900, true, true, 2)), Next::Stop);
    w.said(5, 5, 5);
    assert_eq!(w.out.notified, 1);
    w.closed();
    assert_eq!(w.out.steps.len(), 6);
}

#[test]
fn a_window_with_nothing_to_say_says_nothing() {
    let mut w = Watch::new(15_000, 100, false);
    assert_eq!(w.observe(&look(0, true, true, 0)), Next::Wait(100));
    assert_eq!(w.observe(&look(100, true, true, 0)), Next::Stop);
    w.said(0, 0, 0);
    w.closed();
    assert_eq!(w.out.steps, vec![Step::Connected, Step::Synced, Step::Settled, Step::Closed]);
    assert_eq!(w.out.registered, None);
}

#[test]
fn a_window_that_runs_out_of_time_says_so_and_only_closes() {
    let mut w = Watch::new(1_000, 500, true);
    assert_eq!(w.observe(&look(950, false, false, 0)), Next::Wait(50));
    assert_eq!(w.observe(&look(1_000, false, false, 0)), Next::Stop);
    assert!(w.out.ran_out);
    w.said(3, 3, 0);
    w.closed();
    assert_eq!(w.out.steps, vec![Step::Closed]);
    assert_eq!(w.out.notified, 0);
}

#[test]
fn a_session_in_trouble_stops_the_window_with_its_reason() {
    let mut w = Watch::new(15_000, 500, true);
    let bad = Look { now: 5, trouble: Some("the exchange hung up".to_string()), link_up: true, synced: false, pending: 0, connection: true };
    assert_eq!(w.observe(&bad), Next::Stop);
    assert_eq!(w.out.trouble, Some("the exchange hung up".to_string()));
    assert!(!w.out.connected);
}

#[test]
fn a_fresh_outcome_holds_nothing() {
    let o = Outcome::new();
    assert!(!o.connected && !o.synced && !o.ran_out && !o.declined);
    assert!(o.steps.is_empty() && o.trouble.is_none() && o.registered.is_none());
    assert_eq!((o.arrivals, o.notified, o.rang), (0, 0, 0));
}

#[test]
fn a_refusal_declines_the_newest_live_ring_and_waits_for_it_to_go() {
    let mut r = Refusal::new(3_000, 500, [9; 32], None);
    let empty = Heard { now: 0, trouble: None, link_up: false, ringing: vec![] };
    assert_eq!(r.observe(&empty), Next::Wait(50));
    let ringing = vec![calling(9, 4, false, false), calling(9, 6, false, false), calling(9, 8, true, false), calling(1, 9, false, false)];
    let up = Heard { now: 10, trouble: None, link_up: true, ringing: ringing.clone() };
    assert_eq!(r.observe(&up), Next::Decline(6));
    assert!(r.out.declined);
    assert_eq!(r.sent(&ringing), Next::Wait(50));
    let after = Heard { now: 100, trouble: None, link_up: true, ringing: vec![calling(1, 9, false, false)] };
    assert_eq!(r.observe(&after), Next::Stop);
    r.closed();
    assert_eq!(r.out.steps, vec![Step::Connected, Step::Declined, Step::Closed]);
}

#[test]
fn a_refusal_of_a_named_ring_stops_after_settle_even_if_it_lingers() {
    let mut r = Refusal::new(3_000, 200, [9; 32], Some(77));
    let ringing = vec![calling(9, 4, false, false)];
    let up = Heard { now: 0, trouble: None, link_up: true, ringing: ringing.clone() };
    assert_eq!(r.observe(&up), Next::Decline(77));
    let still = Heard { now: 150, trouble: None, link_up: true, ringing: ringing.clone() };
    assert_eq!(r.observe(&still), Next::Wait(50));
    let later = Heard { now: 200, trouble: None, link_up: true, ringing };
    assert_eq!(r.observe(&later), Next::Stop);
}

#[test]
fn a_refusal_with_nothing_ringing_refuses_nothing() {
    let mut r = Refusal::new(100, 50, [9; 32], None);
    let up = Heard { now: 0, trouble: None, link_up: true, ringing: vec![] };
    assert_eq!(r.observe(&up), Next::Wait(50));
    let end = Heard { now: 100, trouble: None, link_up: true, ringing: vec![] };
    assert_eq!(r.observe(&end), Next::Stop);
    assert!(r.out.ran_out && !r.out.declined);
}

#[test]
fn only_live_unmuted_rings_of_others_are_presented() {
    let ringing = vec![
        calling(1, 1, true, false),
        calling(2, 2, false, true),
        calling(3, 3, false, false),
        calling(4, 4, false, false),
    ];
    let rings = rings_to_present(&ringing, &|c: &[u8; 32]| *c == [3u8; 32]);
    assert_eq!(rings.len(), 1);
    assert_eq!(rings[0].channel, [4; 32]);
    assert_eq!(rings[0].seq, 4);
    assert_eq!(rings[0].label, "ann");
}

#[test]
fn the_newest_ring_not_mine_is_the_one_to_refuse() {
    let ringing = vec![calling(9, 4, false, false), calling(9, 12, true, false), calling(9, 6, false, true)];
    assert_eq!(newest_ringing(&ringing, &[9; 32]), Some(6));
    assert_eq!(newest_ringing(&ringing, &[8; 32]), None);
    assert!(gone(&ringing, &[8; 32]));
    assert!(!gone(&ringing, &[9; 32]));
}

struct Counting {
    takes: bool,
    notified: std::sync::Mutex<Vec<String>>,
    rang: std::sync::Mutex<Vec<u64>>,
}

impl sigil_phone::window::Phone for Counting {
    fn notify(&self, n: &sigil_phone::notify::Notification) -> bool {
        self.notified.lock().unwrap().push(n.body.clone());
        self.takes
    }
    fn ring(&self, r: &sigil_phone::window::Ring) -> bool {
        self.rang.lock().unwrap().push(r.seq);
        self.takes
    }
    fn unring(&self, _channel: &[u8; 32]) {}
}

#[test]
fn the_window_hands_the_phone_everything_once_and_counts_what_it_took() {
    let notes = vec![
        Notification { channel: None, title: "Sigil".to_string(), body: "A new message".to_string(), count: 1, newest: 3 },
        Notification { channel: Some([2; 32]), title: "cy".to_string(), body: "hi".to_string(), count: 1, newest: 4 },
    ];
    let rings = vec![Ring { channel: [2; 32], seq: 9, from: PubKey::new([7; 32]), label: "cy".to_string(), direct: true }];
    let phone = Counting { takes: true, notified: Default::default(), rang: Default::default() };
    assert_eq!(tell(|n: &Notification| phone.notify(n), |r: &Ring| phone.ring(r), &notes, &rings), (2, 1));
    assert_eq!(*phone.notified.lock().unwrap(), vec!["A new message".to_string(), "hi".to_string()]);
    assert_eq!(*phone.rang.lock().unwrap(), vec![9]);
    let refusing = Counting { takes: false, notified: Default::default(), rang: Default::default() };
    assert_eq!(tell(|n: &Notification| refusing.notify(n), |r: &Ring| refusing.ring(r), &notes, &rings), (0, 0));
    assert_eq!(refusing.notified.lock().unwrap().len(), 2);
}

#[test]
fn a_distributor_keeps_its_endpoint_for_the_days_chosen() {
    assert_eq!(Distributor::for_endpoint(None, 7), None);
    let d = Distributor::for_endpoint(Some("https://ntfy.sh/up/x".to_string()), 7).unwrap();
    assert_eq!(d.url, "https://ntfy.sh/up/x");
    assert_eq!(d.ttl_secs, 604_800);
    assert_eq!(Distributor::for_endpoint(Some("u".to_string()), 90).unwrap().ttl_secs, 2_592_000);
}

#[test]
fn a_window_that_never_synced_says_nothing() {
    let mut w = Watch::new(100, 10, false);
    assert_eq!(w.observe(&look(0, true, false, 0)), Next::Wait(100));
    assert_eq!(w.observe(&look(100, true, false, 0)), Next::Stop);
    assert!(w.out.connected && !w.out.synced && w.out.ran_out);
    w.said(1, 1, 0);
    w.closed();
    assert_eq!(w.out.steps, vec![Step::Connected, Step::Closed]);
    assert_eq!((w.out.arrivals, w.out.notified, w.out.rang), (0, 0, 0));
}

#[test]
fn a_phone_window_is_twenty_seconds_with_a_second_of_quiet() {
    let w = Watch::new(sigil_phone::window::WINDOW_BUDGET_MS, sigil_phone::window::WINDOW_SETTLE_MS, false);
    assert_eq!((w.deadline, w.settle), (20_000, 1_000));
}
