use sigil_phone::identity::{did_not_open, fresh_passphrase, plan, Plan, Unsealed, Vault, Where};
use sigil_phone::notify::Privacy;
use sigil_phone::settings::{join, Settings};
use sigil_phone::identity::{passphrase_from, roster_refused};

#[test]
fn paths_join_with_one_separator() {
    assert_eq!(join("/data", "phone.json"), "/data/phone.json");
    assert_eq!(join("/data/", "phone.json"), "/data/phone.json");
    assert_eq!(join("", "phone.json"), "phone.json");
    assert_eq!(Settings::path_under("/data/sigil"), "/data/sigil/phone.json");
}

#[test]
fn settings_that_cannot_be_read_are_the_default() {
    let d = Settings::or_default(None);
    assert_eq!(d, Settings::default());
    assert_eq!(d.endpoint_days, 30);
    assert!(!d.stay_reachable);
    assert_eq!(d.privacy, None);
    let kept = Settings { privacy: None, endpoint_days: 7, stay_reachable: true };
    assert_eq!(Settings::or_default(Some(kept)), kept);
}

#[test]
fn an_older_files_privacy_is_carried_once() {
    let mut s = Settings { privacy: Some(Privacy::FactOnly), endpoint_days: 7, stay_reachable: false };
    assert_eq!(s.carry_privacy(), Some(Privacy::FactOnly));
    assert_eq!(s.privacy, None);
    assert_eq!(s.endpoint_days, 7);
    assert_eq!(s.carry_privacy(), None);
}

#[test]
fn the_identity_lives_where_sqnr_looks() {
    let at = Where::under("/home/me");
    assert_eq!(at.identity, "/home/me/.sqnr/identity");
    assert_eq!(at.sealed, "/home/me/.local/share/sigil/passphrase.sealed");
}

#[test]
fn an_identity_is_opened_made_or_refused_and_never_replaced() {
    let at = Where::under("/home/me");
    assert_eq!(plan(&at, true, true), Plan::Open);
    assert_eq!(plan(&at, false, true), Plan::Make);
    assert_eq!(plan(&at, false, false), Plan::Make);
    match plan(&at, true, false) {
        Plan::Refuse(why) => {
            assert!(why.starts_with("/home/me/.sqnr/identity exists but nothing here can open it"));
            assert!(why.contains("Move it aside"));
        }
        other => panic!("an identity without its passphrase was {other:?}"),
    }
    assert_eq!(
        did_not_open(&at),
        "/home/me/.sqnr/identity did not open with the passphrase the key store holds"
    );
}

#[test]
fn a_fresh_passphrase_is_sixty_four_hex_characters_and_new_each_time() {
    let a = fresh_passphrase().expect("the operating system gives random bytes");
    let b = fresh_passphrase().expect("the operating system gives random bytes");
    assert_eq!(a.len(), 64);
    assert!(a.chars().all(|c| c.is_ascii_hexdigit() && !c.is_ascii_uppercase()));
    assert_ne!(a, b);
}

#[test]
fn the_unsealed_vault_keeps_bytes_as_they_are_and_says_so() {
    let v = Unsealed;
    assert_eq!(v.seal(b"secret"), Ok(b"secret".to_vec()));
    assert_eq!(v.open(b"secret"), Ok(b"secret".to_vec()));
    assert!(v.describe().starts_with("no key store"));
}

#[test]
fn a_passphrase_reads_back_as_text_or_is_refused() {
    let p = fresh_passphrase().expect("the operating system gives random bytes");
    assert_eq!(passphrase_from(p.as_bytes().to_vec()), Ok(p.clone()));
    assert_eq!(passphrase_from(vec![0xff, 0xfe]), Err("the sealed passphrase is not text".to_string()));
    let at = Where::under("/home/me");
    assert_eq!(
        roster_refused(&at),
        "/home/me/.sqnr/identity did not open in the roster with the passphrase the key store holds"
    );
}
