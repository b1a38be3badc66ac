use sigil_phone::wake::{
    answer, decline_budget, endpoint_ttl, known_seq, register_ttl, said, share_of, window_budget, Registered, DAY,
    MAX_TTL,
};
use sigil_phone::wake::exchanges_or_default;

#[test]
fn a_registration_asks_for_a_second_to_thirty_days() {
    assert_eq!(register_ttl(0), 1);
    assert_eq!(register_ttl(1), 1);
    assert_eq!(register_ttl(3600), 3600);
    assert_eq!(register_ttl(MAX_TTL), MAX_TTL);
    assert_eq!(register_ttl(MAX_TTL + 1), 2_592_000);
    assert_eq!(register_ttl(u32::MAX), MAX_TTL);
}

#[test]
fn the_endpoint_setting_is_a_day_to_a_month() {
    assert_eq!(endpoint_ttl(0), DAY);
    assert_eq!(endpoint_ttl(7), 604_800);
    assert_eq!(endpoint_ttl(30), MAX_TTL);
    assert_eq!(endpoint_ttl(365), MAX_TTL);
}

#[test]
fn a_refusal_is_told_in_the_exchanges_words_or_by_its_status() {
    assert_eq!(said(403, Some("not yours")), "not yours (403)");
    assert_eq!(said(500, None), "status 500");
    assert_eq!(said(0, None), "status 0");
}

#[test]
fn every_reply_means_one_thing() {
    assert_eq!(answer(Ok(200), None), Registered::Kept);
    assert_eq!(answer(Ok(404), Some("ignored")), Registered::Unsupported);
    assert_eq!(
        answer(Ok(429), Some("slow down")),
        Registered::Refused("slow down (429)".to_string())
    );
    assert_eq!(answer(Ok(502), None), Registered::Refused("status 502".to_string()));
    assert_eq!(
        answer(Err("reset by peer".to_string()), None),
        Registered::Failed("reset by peer".to_string())
    );
}

#[test]
fn budgets_have_floors() {
    assert_eq!(window_budget(-1), 5);
    assert_eq!(window_budget(4), 5);
    assert_eq!(window_budget(25), 25);
    assert_eq!(decline_budget(0), 3);
    assert_eq!(decline_budget(10), 10);
}

#[test]
fn exchanges_share_a_budget_in_turn() {
    assert_eq!(share_of(25, 0), 25);
    assert_eq!(share_of(25, 1), 25);
    assert_eq!(share_of(25, 2), 12);
    assert_eq!(share_of(25, 3), 8);
}

#[test]
fn an_unknown_ring_number_is_negative() {
    assert_eq!(known_seq(-1), None);
    assert_eq!(known_seq(0), Some(0));
    assert_eq!(known_seq(42), Some(42));
}

#[test]
fn with_no_exchange_on_the_roster_the_default_one_is_woken() {
    assert_eq!(exchanges_or_default(None), vec![String::new()]);
    assert_eq!(
        exchanges_or_default(Some(vec!["trunk.exchange".to_string()])),
        vec!["trunk.exchange".to_string()]
    );
    assert!(exchanges_or_default(Some(Vec::new())).is_empty());
}
