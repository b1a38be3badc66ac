use sigil_phone::phone_app::{brief, capabilities, key_store_row, merged, Capability, PhoneReport, Support};
use sigil_phone::phone_app::being_woken;
use sigil_phone::phone_app::endpoint_choices;
use sigil_phone::phone_app::row_reads;

#[test]
fn a_capability_the_phone_answers_for_itself_is_not_listed_twice() {
    let desktop = vec![
        Capability::new("Notifications", "the desktop's answer", Support::no("not here")),
        Capability::new("Tray icon", "a tray", Support::no("no tray on a phone")),
    ];
    let phone = vec![
        Capability::new("Notifications", "the phone's answer", Support::Yes),
        Capability::new("Being woken", "SIP-45", Support::no("no distributor")),
    ];
    let rows = merged(desktop, phone);
    let names: Vec<&str> = rows.iter().map(|c| c.name).collect();
    assert_eq!(
        names.iter().filter(|n| **n == "Notifications").count(),
        1,
        "Notifications is listed twice: {names:?}"
    );
    assert!(
        rows.iter()
            .any(|c| c.name == "Notifications" && c.support.is_yes()),
        "the row that survived is the desktop's, which is the one that \
         does not know: {names:?}"
    );
    assert!(
        names.contains(&"Tray icon") && names.contains(&"Being woken"),
        "a row only one list has must still be there: {names:?}"
    );
}

#[test]
fn an_endpoint_is_shown_as_its_host_and_a_tail() {
    assert_eq!(brief("https://ntfy.sh/up/abcdefghijklmnop"), "ntfy.sh/…ijklmnop");
    assert_eq!(brief("https://ntfy.sh"), "ntfy.sh");
}

#[test]
fn a_short_path_is_shown_whole_and_a_bare_host_as_it_is() {
    assert_eq!(brief("https://push.example/abc"), "push.example/…abc");
    assert_eq!(brief("push.example/abc"), "push.example/…abc");
    assert_eq!(brief("push.example/"), "push.example");
    assert_eq!(brief("push.example"), "push.example");
}

#[test]
fn merged_rows_keep_the_platform_order_then_the_phone_order() {
    let platform = vec![
        Capability::new("A", "a", Support::Yes),
        Capability::new("B", "b", Support::Yes),
        Capability::new("C", "c", Support::Yes),
    ];
    let phone = vec![Capability::new("B", "mine", Support::no("off"))];
    let rows = merged(platform, phone);
    let names: Vec<&str> = rows.iter().map(|c| c.name).collect();
    assert_eq!(names, vec!["A", "C", "B"]);
    assert_eq!(rows[2].what, "mine");
    assert_eq!(rows[2].support.reason(), Some("off"));
}

#[test]
fn the_phone_adds_its_two_rows_after_the_platforms() {
    let platform = vec![Capability::new("Tray icon", "a tray", Support::Yes)];
    let report = PhoneReport::default();
    let rows = capabilities(&report, platform);
    assert_eq!(rows.len(), 3);
    assert_eq!(rows[0].name, "Tray icon");
    assert_eq!(rows[1].name, "Notifications");
    assert_eq!(rows[1].support.reason(), Some("not asked yet"));
    assert_eq!(rows[2].name, "Being woken");
    assert_eq!(
        rows[2].support.reason(),
        Some("no push distributor is installed and no FCM bridge is configured")
    );
}

#[test]
fn a_distributor_without_an_endpoint_says_so() {
    let report = PhoneReport {
        endpoint: None,
        distributor: Some("ntfy".to_string()),
        last_window: None,
        notifications: Some(false),
    };
    let rows = capabilities(&report, Vec::new());
    assert_eq!(
        rows[0].support.reason(),
        Some("turned off for sigil in the phone's settings")
    );
    assert_eq!(rows[1].support.reason(), Some("ntfy has given no endpoint yet"));

    let ready = PhoneReport {
        endpoint: Some("https://ntfy.sh/up/x".to_string()),
        distributor: Some("ntfy".to_string()),
        last_window: None,
        notifications: Some(true),
    };
    let rows = capabilities(&ready, Vec::new());
    assert!(rows[0].support.is_yes());
    assert!(rows[1].support.is_yes());
}

#[test]
fn the_key_store_row_is_absent_only_when_the_vault_says_so() {
    let none = key_store_row("no key store on this platform: the passphrase is written as it is");
    assert_eq!(none.name, "Key store");
    assert!(!none.support.is_yes());
    assert_eq!(
        none.support.reason(),
        Some("no key store on this platform: the passphrase is written as it is")
    );
    let some = key_store_row("the Android keystore");
    assert!(some.support.is_yes());
    assert_eq!(some.support.reason(), None);
}

#[test]
fn the_endpoint_choices_are_a_day_a_week_a_month_and_whatever_else_was_set() {
    let plain = endpoint_choices(7);
    assert_eq!(
        plain,
        vec![("a day".to_string(), 1), ("a week".to_string(), 7), ("a month".to_string(), 30)]
    );
    let odd = endpoint_choices(12);
    assert_eq!(odd.len(), 4);
    assert_eq!(odd[3], ("12 days".to_string(), 12));
    assert_eq!(endpoint_choices(0)[3], ("0 days".to_string(), 0));
}

#[test]
fn a_phone_kept_awake_is_not_said_to_be_unreachable() {
    let woken = Capability::new("Being woken", "SIP-45", Support::no("no distributor"));
    assert_eq!(row_reads(&woken, false), (false, Some("no distributor".to_string())));
    assert_eq!(
        row_reads(&woken, true),
        (true, Some("not woken: kept awake instead, by your choice above".to_string()))
    );
    let tray = Capability::new("Tray icon", "a tray", Support::no("no tray on a phone"));
    assert_eq!(row_reads(&tray, true), (false, Some("no tray on a phone".to_string())));
    let yes = Capability::new("Being woken", "SIP-45", Support::Yes);
    assert_eq!(row_reads(&yes, true), (true, None));
}

#[test]
fn being_woken_names_the_distributor_or_says_what_its_absence_means() {
    let both = PhoneReport {
        endpoint: Some("https://ntfy.sh/up/abcdefghijklmnop".to_string()),
        distributor: Some("ntfy".to_string()),
        last_window: None,
        notifications: None,
    };
    assert_eq!(
        being_woken(&both, false),
        ("Distributor: ntfy".to_string(), Some("endpoint ntfy.sh/…ijklmnop".to_string()))
    );
    let waiting = PhoneReport { endpoint: None, ..both.clone() };
    assert_eq!(being_woken(&waiting, false), ("Distributor: ntfy, no endpoint yet".to_string(), None));
    let none = PhoneReport::default();
    assert!(being_woken(&none, true).0.starts_with("No push distributor. sigil stays running instead"));
    assert!(being_woken(&none, false).0.contains("a message waits until the app is opened"));
}

#[test]
fn at_launch_an_endpoint_means_a_unifiedpush_distributor() {
    let with = PhoneReport::at_launch(Some("https://ntfy.sh/up/x".to_string()), true);
    assert_eq!(with.distributor, Some("UnifiedPush".to_string()));
    assert_eq!(with.notifications, Some(true));
    assert_eq!(with.last_window, None);
    let without = PhoneReport::at_launch(None, false);
    assert_eq!(without.distributor, None);
    assert_eq!(without.endpoint, None);
    assert_eq!(without.notifications, Some(false));
}
