use sigil_phone::key::PubKey;
use sigil_phone::pairing::{
    device_string, is_domain, is_label, pair_string, parse_device, parse_pair, Owner, PairingError,
};

fn key(b: u8) -> PubKey {
    PubKey::new([b; 32])
}

#[test]
fn a_device_string_round_trips_and_forgives_whitespace() {
    let shown = device_string(&key(7));
    assert!(shown.starts_with("sqx-device:"));
    assert_eq!(parse_device(&shown).unwrap(), key(7));
    assert_eq!(parse_device(&format!("  {shown} \n")).unwrap(), key(7));
}

#[test]
fn a_device_string_is_refused_without_its_prefix_or_with_a_bad_key() {
    assert_eq!(parse_device(&key(1).text()), Err(PairingError::NotADevice));
    assert!(matches!(
        parse_device("sqx-device:not-a-key"),
        Err(PairingError::NotAKey(_))
    ));
    assert_eq!(
        parse_device(&format!("sqx-device:{}", "1".repeat(600))),
        Err(PairingError::TooLong)
    );
}

#[test]
fn a_pair_string_round_trips_with_its_domains_lowered_and_deduplicated() {
    let shown = pair_string(
        &key(3),
        &[
            "Squic.org".into(),
            "trunk.exchange".into(),
            "squic.org".into(),
        ],
    );
    assert_eq!(
        shown,
        format!("sqx-pair:{}@squic.org,trunk.exchange", key(3).text())
    );
    let pair = parse_pair(&shown).unwrap();
    assert_eq!(pair.owner, Owner::Key(key(3)));
    assert_eq!(pair.domains, vec!["squic.org", "trunk.exchange"]);
}

/// A person who knows their handle types that and nothing else.
#[test]
fn a_bare_name_at_a_domain_is_a_pair() {
    let pair = parse_pair("Colin@Squic.org").unwrap();
    assert_eq!(pair.owner, Owner::Name("colin@squic.org".into()));
    assert_eq!(pair.domains, vec!["squic.org"]);
    let pair = parse_pair("sqx-pair:colin@squic.org").unwrap();
    assert_eq!(pair.owner, Owner::Name("colin@squic.org".into()));
}

#[test]
fn a_pair_string_needs_a_domain_and_a_real_one() {
    assert_eq!(
        parse_pair(&format!("sqx-pair:{}@", key(1).text())),
        Err(PairingError::NoDomain)
    );
    assert_eq!(
        parse_pair(&format!("sqx-pair:{}@localhost", key(1).text())),
        Err(PairingError::NotADomain("localhost".into()))
    );
    assert_eq!(parse_pair("sqx-pair:nothing"), Err(PairingError::NotAPair));
    assert_eq!(parse_pair("@squic.org"), Err(PairingError::NotAPair));
    // A name lives at one domain.
    assert_eq!(
        parse_pair("colin@squic.org,trunk.exchange"),
        Err(PairingError::NotAPair)
    );
}

/// A key is tried first, so a key is never read as a name.
#[test]
fn a_key_is_a_key_before_it_is_a_name() {
    let k = key(9).text();
    let pair = parse_pair(&format!("{k}@squic.org")).unwrap();
    assert_eq!(pair.owner, Owner::Key(key(9)));
}

#[test]
fn a_key_reads_back_from_its_text() {
    let k = key(42);
    assert_eq!(PubKey::parse(&k.text()), Ok(k));
    // Thirty-two 0x01 bytes, as the app's mark names them.
    assert_eq!(key(1).text(), "4vJ9JU1bJJE96FWSJKvHsmmFADCg4gpZQff4P3bkLKi");
    assert!(PubKey::parse("0OIl").is_err());
    // Base58 that is not thirty-two bytes is no key.
    assert_eq!(PubKey::parse("2g"), Err("a key is 32 bytes".to_string()));
}

#[test]
fn a_pair_string_forgives_case_space_repeats_and_empty_domains() {
    let pair = parse_pair(&format!(
        "  sqx-pair: {} @ Squic.ORG , ,squic.org,Trunk.Exchange \t",
        key(5).text()
    ))
    .unwrap();
    assert_eq!(pair.owner, Owner::Key(key(5)));
    assert_eq!(pair.domains, vec!["squic.org", "trunk.exchange"]);
    // The last `@` splits; a key never holds one.
    assert_eq!(
        parse_pair("sqx-pair:a@b@squic.org"),
        Err(PairingError::NotAPair)
    );
    assert_eq!(parse_pair(&"x".repeat(513)), Err(PairingError::TooLong));
    assert_eq!(
        parse_pair("colin@-bad.org"),
        Err(PairingError::NotADomain("-bad.org".into()))
    );
}

#[test]
fn labels_and_domains_follow_the_grammar() {
    assert!(is_label("a"));
    assert!(is_label("a-1"));
    assert!(!is_label(""));
    assert!(!is_label("-a"));
    assert!(!is_label("a-"));
    assert!(!is_label("A"));
    assert!(!is_label(&"a".repeat(64)));
    assert!(is_label(&"a".repeat(63)));
    assert!(is_domain("squic.org"));
    assert!(is_domain("a.b.c"));
    assert!(!is_domain("localhost"));
    assert!(!is_domain("squic..org"));
    assert!(!is_domain("squic.org."));
    assert!(!is_domain(&format!("{}.org", "a".repeat(250))));
}

#[test]
fn a_pair_string_skips_empty_domains_and_keeps_order() {
    let shown = pair_string(&key(2), &["  ".into(), "B.org".into(), "a.org".into()]);
    assert_eq!(shown, format!("sqx-pair:{}@b.org,a.org", key(2).text()));
}

#[test]
fn each_refusal_says_what_was_wrong() {
    assert_eq!(PairingError::TooLong.message(), "longer than 512 bytes, which no pairing string is");
    assert_eq!(
        PairingError::NotADevice.message(),
        "that is not a device string: it does not start with `sqx-device:`"
    );
    assert_eq!(PairingError::NotAKey("too short".to_string()).message(), "that is not a key: too short");
    assert_eq!(
        PairingError::NotAPair.message(),
        "that is not a pairing string: neither `sqx-pair:…` nor a name@domain"
    );
    assert_eq!(PairingError::NoDomain.message(), "a pairing string names at least one domain, after the `@`");
    assert_eq!(PairingError::NotADomain("localhost".to_string()).message(), "`localhost` is not a domain name");
}

#[test]
fn a_character_outside_the_alphabet_is_never_a_key() {
    assert!(PubKey::parse("0OIl").is_err());
    assert!(PubKey::parse(&format!("{}0", key(1).text())).is_err());
    assert!(key(0).text().len() <= 44 && key(255).text().len() <= 44);
    assert_eq!(key(255).text().len(), 44);
}

#[test]
fn a_name_is_never_read_as_a_key() {
    assert!(matches!(parse_device("sqx-device:not-a-key"), Err(PairingError::NotAKey(_))));
    let p = parse_pair("Colin@Squic.org").unwrap();
    assert_eq!(p.owner, Owner::Name("colin@squic.org".to_string()));
    let k = key(9);
    let bare = parse_pair(&format!("{}@squic.org", k.text())).unwrap();
    assert_eq!(bare.owner, Owner::Key(k));
}
