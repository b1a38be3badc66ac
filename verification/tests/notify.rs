use sigil_phone::key::PubKey;
use sigil_phone::notify::{compose, compose_kept, same_channel, Arrival, Notification, Privacy};

fn mention(channel: u8, seq: u64, from: &str, said: &str) -> Arrival {
    Arrival {
        mentions_me: true,
        ..arrival(channel, seq, from, said, false)
    }
}

fn arrival(channel: u8, seq: u64, from: &str, said: &str, direct: bool) -> Arrival {
    Arrival {
        channel: [channel; 32],
        seq,
        from: PubKey::new([from.len() as u8; 32]),
        from_label: from.to_string(),
        conversation: if direct {
            from.to_string()
        } else {
            "the group".to_string()
        },
        public: false,
        direct,
        said: said.to_string(),
        in_open: false,
        mentions_me: false,
    }
}

/// Nothing muted, and not on do-not-disturb.
fn loud(_channel: &[u8; 32]) -> bool {
    false
}

#[test]
fn nothing_new_says_nothing() {
    for privacy in Privacy::ALL {
        assert!(compose(&[], privacy, &loud).is_empty(), "{privacy:?}");
    }
}

#[test]
fn a_muted_conversation_says_nothing() {
    let arrivals = vec![
        arrival(1, 5, "ann", "in the muted room", false),
        arrival(2, 9, "cy", "in the other one", true),
    ];
    let muted_one = |c: &[u8; 32]| *c == [1u8; 32];

    let out = compose(&arrivals, Privacy::SenderAndText, &muted_one);
    assert_eq!(out.len(), 1, "only the unmuted one: {out:?}");
    assert_eq!(out[0].channel, Some([2; 32]));
    assert!(!out[0].body.contains("muted room"));

    assert_eq!(compose(&arrivals, Privacy::SenderAndText, &loud).len(), 2);
}

#[test]
fn a_muted_conversation_is_not_counted_either() {
    let arrivals = vec![
        arrival(1, 5, "ann", "one", false),
        arrival(1, 6, "ann", "two", false),
        arrival(2, 9, "cy", "three", true),
    ];
    let muted_one = |c: &[u8; 32]| *c == [1u8; 32];
    let fact = compose(&arrivals, Privacy::FactOnly, &muted_one);
    assert_eq!(fact.len(), 1);
    assert_eq!(fact[0].body, "A new message", "the muted two are not in it");
    assert_eq!(fact[0].count, 1);

    for privacy in Privacy::ALL {
        assert!(
            compose(&arrivals, privacy, &|_: &[u8; 32]| true).is_empty(),
            "{privacy:?}"
        );
    }
}

#[test]
fn a_busy_channel_is_one_notification_naming_the_newest() {
    let arrivals = vec![
        arrival(1, 5, "ann", "first", false),
        arrival(1, 7, "bob", "third", false),
        arrival(1, 6, "ann", "second", false),
        arrival(2, 9, "cy", "hello", true),
    ];
    let out = compose(&arrivals, Privacy::SenderAndText, &loud);
    assert_eq!(out.len(), 2);
    let group = out.iter().find(|n| n.channel == Some([1; 32])).unwrap();
    assert_eq!(group.title, "the group");
    assert_eq!(group.body, "bob: third · and 2 more");
    assert_eq!(group.count, 3);
    assert_eq!(group.newest, 7);
    let dm = out.iter().find(|n| n.channel == Some([2; 32])).unwrap();
    assert_eq!(dm.title, "cy");
    assert_eq!(dm.body, "hello");
    assert_eq!(dm.count, 1);
}

#[test]
fn a_mention_says_that_it_is_one() {
    let arrivals = vec![
        arrival(1, 5, "ann", "something", false),
        mention(1, 6, "bram", "has anyone seen @me"),
        arrival(1, 7, "ann", "and then this", false),
    ];
    let out = compose(&arrivals, Privacy::SenderAndText, &loud);
    assert_eq!(out.len(), 1);
    assert!(
        out[0]
            .body
            .starts_with("bram mentioned you: has anyone seen @me"),
        "{}",
        out[0].body
    );
    assert!(out[0].body.ends_with("· and 2 more"), "{}", out[0].body);
    assert_eq!(out[0].count, 3);

    let quiet = compose(&arrivals, Privacy::SenderOnly, &loud);
    assert_eq!(quiet[0].body, "bram mentioned you · and 2 more");
    assert!(!quiet[0].body.contains("anyone seen"));

    let plain = vec![
        arrival(1, 5, "ann", "something", false),
        arrival(1, 7, "ann", "and then this", false),
    ];
    let out = compose(&plain, Privacy::SenderAndText, &loud);
    assert!(!out[0].body.contains("mentioned"), "{}", out[0].body);
}

#[test]
fn the_fact_of_a_message_does_not_leak_a_mention() {
    let arrivals = vec![mention(1, 6, "bram", "@me are you there")];
    let fact = compose(&arrivals, Privacy::FactOnly, &loud);
    assert_eq!(fact.len(), 1);
    assert_eq!(fact[0].channel, None);
    assert_eq!(fact[0].body, "A new message");
    for named in ["bram", "mentioned", "are you there"] {
        assert!(!fact[0].body.contains(named), "{named}: {}", fact[0].body);
    }
}

#[test]
fn the_quieter_settings_say_less() {
    let arrivals = vec![
        arrival(1, 5, "ann", "secret", false),
        arrival(2, 9, "cy", "secret too", true),
    ];
    let sender = compose(&arrivals, Privacy::SenderOnly, &loud);
    assert_eq!(sender.len(), 2);
    for n in &sender {
        assert!(!n.body.contains("secret"), "{}", n.body);
        assert!(n.body.ends_with("sent a message"), "{}", n.body);
    }
    let fact = compose(&arrivals, Privacy::FactOnly, &loud);
    assert_eq!(fact.len(), 1);
    assert_eq!(fact[0].channel, None);
    assert_eq!(fact[0].body, "2 new messages");
    assert!(!fact[0].body.contains("ann") && !fact[0].body.contains("cy"));
    assert_eq!(fact[0].newest, 9);
    assert_eq!(
        compose(&arrivals[..1], Privacy::FactOnly, &loud)[0].body,
        "A new message"
    );
}

#[test]
fn channels_come_out_in_byte_order_whatever_order_they_arrived_in() {
    let arrivals = vec![
        arrival(3, 1, "ann", "late", false),
        arrival(1, 2, "bob", "early", true),
        arrival(2, 3, "cy", "middle", true),
    ];
    let out: Vec<Notification> = compose_kept(&arrivals, Privacy::SenderOnly);
    let order: Vec<Option<[u8; 32]>> = out.iter().map(|n| n.channel).collect();
    assert_eq!(order, vec![Some([1; 32]), Some([2; 32]), Some([3; 32])]);
    assert_eq!(out[0].body, "bob sent a message");
    assert_eq!(out[0].title, "bob");
}

#[test]
fn a_group_notification_is_titled_by_its_conversation() {
    let mut a = arrival(4, 1, "ann", "hi all", false);
    a.public = true;
    a.conversation = "lobby".to_string();
    let out = compose_kept(&[a], Privacy::SenderAndText);
    assert_eq!(out.len(), 1);
    assert_eq!(out[0].title, "lobby");
    assert_eq!(out[0].body, "ann: hi all");
    assert_eq!(out[0].newest, 1);
}

#[test]
fn each_privacy_setting_says_what_it_shows() {
    assert_eq!(Privacy::SenderAndText.describe(), "who wrote, and what they said");
    assert_eq!(Privacy::SenderOnly.describe(), "who wrote, and nothing of what");
    assert_eq!(Privacy::FactOnly.describe(), "only that something arrived");
}

#[test]
fn channels_are_the_same_only_when_every_byte_is() {
    let a = [7u8; 32];
    let mut b = [7u8; 32];
    assert!(same_channel(&a, &b));
    b[31] = 8;
    assert!(!same_channel(&a, &b));
}
