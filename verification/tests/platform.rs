use sigil_phone::platform::{
    begin_call, call_vault, enabled, end_call, end_ring, java_int, notifications_enabled, pick_files, post_message,
    post_ring, routed, save_target, set_reach, set_speaker, store_endpoint, stored_endpoint, vault_answer, Arg,
    Picking, Shade, CONTEXT_STRING_4, CONTEXT_STRING_5_INT_BOOL,
};
use sigil_phone::key::PubKey;
use sigil_phone::notify::Notification;
use sigil_phone::platform::AndroidPhone;
use sigil_phone::platform::call_service;
use sigil_phone::platform::Returns;
use sigil_phone::platform::{endpoint_given, endpoint_held, save_answer};
use sigil_phone::platform::{notice, Sound, Target};
use sigil_phone::window::Ring;

const HEX_OF_ONES: &str = "0101010101010101010101010101010101010101010101010101010101010101";

#[test]
fn a_message_notification_carries_its_conversation_as_hex() {
    let call = post_message("me", "squic.org", Some(&[1; 32]), "ann", "hello", 3, true);
    assert_eq!(call.class, "Notifier");
    assert_eq!(call.method, "message");
    assert_eq!(call.signature, CONTEXT_STRING_5_INT_BOOL);
    assert_eq!(
        call.args,
        vec![
            Arg::Context,
            Arg::Text("me".to_string()),
            Arg::Text("squic.org".to_string()),
            Arg::Text(HEX_OF_ONES.to_string()),
            Arg::Text("ann".to_string()),
            Arg::Text("hello".to_string()),
            Arg::Int(3),
            Arg::Flag(true),
        ]
    );
    let nameless = post_message("me", "squic.org", None, "Sigil", "A new message", 1, false);
    assert_eq!(nameless.args[3], Arg::Null);
    assert_eq!(nameless.args[7], Arg::Flag(false));
}

#[test]
fn a_count_past_what_java_holds_is_its_largest_int() {
    assert_eq!(java_int(0), 0);
    assert_eq!(java_int(2_147_483_647), i32::MAX);
    assert_eq!(java_int(usize::MAX), i32::MAX);
    let call = post_message("me", "x", None, "t", "b", usize::MAX, false);
    assert_eq!(call.args[6], Arg::Int(i32::MAX));
}

#[test]
fn a_ring_is_presented_and_taken_off_by_its_conversation() {
    let ring = post_ring("me", "squic.org", &[1; 32], "ann");
    assert_eq!((ring.class, ring.method, ring.signature), ("Notifier", "ring", CONTEXT_STRING_4));
    assert_eq!(ring.args[3], Arg::Text(HEX_OF_ONES.to_string()));
    assert_eq!(ring.args[4], Arg::Text("ann".to_string()));
    let end = end_ring(&[1; 32]);
    assert_eq!(end.method, "endRing");
    assert_eq!(end.args, vec![Arg::Context, Arg::Text(HEX_OF_ONES.to_string())]);
}

#[test]
fn calls_speaker_and_reach_name_their_classes() {
    let begin = begin_call("ann", "me");
    assert_eq!((begin.class, begin.method), ("CallService", "begin"));
    assert_eq!(begin.args, vec![Arg::Context, Arg::Text("ann".to_string()), Arg::Text("me".to_string())]);
    assert_eq!(end_call().args, vec![Arg::Context]);
    let speaker = set_speaker(true);
    assert_eq!((speaker.class, speaker.method, speaker.signature), ("Audio", "setSpeaker", "(Landroid/content/Context;Z)Z"));
    assert_eq!(speaker.args, vec![Arg::Context, Arg::Flag(true)]);
    assert_eq!(set_reach(true).method, "begin");
    assert_eq!(set_reach(false).method, "end");
    assert_eq!(set_reach(false).class, "ReachService");
}

#[test]
fn the_sound_goes_where_the_platform_says_or_stays_where_it_was() {
    assert!(routed(true, Ok(true)));
    assert!(!routed(true, Ok(false)));
    assert!(!routed(true, Err("no audio manager".to_string())));
    assert!(routed(false, Err("no audio manager".to_string())));
}

#[test]
fn no_answer_about_notifications_is_a_no() {
    assert_eq!(notifications_enabled().method, "enabled");
    assert!(enabled(Ok(true)));
    assert!(!enabled(Ok(false)));
    assert!(!enabled(Err("no context".to_string())));
}

#[test]
fn the_endpoint_is_kept_and_forgotten_through_the_glue() {
    assert_eq!(stored_endpoint().method, "get");
    let set = store_endpoint(Some("https://ntfy.sh/up/x"));
    assert_eq!(set.args, vec![Arg::Context, Arg::Text("https://ntfy.sh/up/x".to_string())]);
    assert_eq!(store_endpoint(None).args, vec![Arg::Context, Arg::Null]);
}

#[test]
fn the_vault_is_handed_bytes_and_a_null_is_a_refusal() {
    let seal = call_vault(true, &[1, 2, 3]);
    assert_eq!((seal.class, seal.method, seal.signature), ("Vault", "seal", "([B)[B"));
    assert_eq!(seal.args, vec![Arg::Bytes(vec![1, 2, 3])]);
    assert_eq!(call_vault(false, &[]).method, "open");
    assert_eq!(vault_answer(true, Ok(Some(vec![9]))), Ok(vec![9]));
    assert_eq!(vault_answer(true, Ok(None)), Err("the key store sealed nothing".to_string()));
    assert_eq!(
        vault_answer(false, Ok(None)),
        Err("the key store would not open the passphrase".to_string())
    );
    assert_eq!(vault_answer(false, Err("locked".to_string())), Err("locked".to_string()));
}

#[test]
fn files_are_picked_and_saved_through_the_glue() {
    let pick = pick_files();
    assert_eq!((pick.class, pick.method, pick.signature), ("Files", "pick", "()V"));
    assert!(pick.args.is_empty());
    let save = save_target("notes.txt");
    assert_eq!(save.method, "saveTarget");
    assert_eq!(save.args[1], Arg::Text("notes.txt".to_string()));
}

#[test]
fn a_theme_is_taken_once() {
    let mut shade = Shade::new();
    assert_eq!(shade.insets_px(), [0; 4]);
    shade.set_insets([10, 20, 0, 0]);
    shade.set_theme(true);
    assert_eq!(shade.take_theme(), Some(true));
    assert_eq!(shade.take_theme(), None);
    assert_eq!(shade.insets_px(), [10, 20, 0, 0]);
}

#[test]
fn a_change_asks_for_a_repaint_once_the_window_gave_a_way() {
    let mut shade = Shade::new();
    assert!(!shade.set_insets([1, 2, 3, 4]));
    assert!(!shade.set_theme(false));
    assert!(shade.repaint_with());
    assert!(!shade.repaint_with(), "the first way given is kept");
    assert!(shade.set_insets([5, 6, 7, 8]));
    assert!(shade.set_theme(true));
    assert_eq!(shade.insets_px(), [5, 6, 7, 8]);
    assert_eq!(shade.take_theme(), Some(true));
}

#[test]
fn a_new_pick_hands_back_the_one_it_replaces() {
    let mut picking: Picking<u32> = Picking::new();
    assert_eq!(picking.start(1), None);
    assert_eq!(picking.start(2), Some(1));
    assert_eq!(picking.picked(), Some(2));
    assert_eq!(picking.picked(), None);
}

#[test]
fn a_ring_notice_is_named_by_its_body_and_anything_else_is_a_message() {
    let target = Target { identity: "me".to_string(), exchange: "squic.org".to_string(), channel: [1; 32] };
    let ring = notice(Some(&target), Sound::Ring, "Incoming call", "ann in the group");
    assert_eq!(ring.method, "ring");
    assert_eq!(ring.args[4], Arg::Text("ann in the group".to_string()));
    let message = notice(Some(&target), Sound::Message, "ann", "hello");
    assert_eq!(message.method, "message");
    assert_eq!(message.args[4], Arg::Text("ann".to_string()));
    assert_eq!(message.args[6], Arg::Int(1));
    assert_eq!(message.args[7], Arg::Flag(true));
    let silent = notice(Some(&target), Sound::Silent, "ann", "hello");
    assert_eq!(silent.args[7], Arg::Flag(false));
    let nowhere = notice(None, Sound::Ring, "Incoming call", "ann");
    assert_eq!(nowhere.method, "message");
    assert_eq!(nowhere.args[1], Arg::Text(String::new()));
    assert_eq!(nowhere.args[3], Arg::Null);
}

#[test]
fn the_wake_windows_phone_posts_for_its_identity_and_exchange() {
    let phone = AndroidPhone { identity: "me".to_string(), exchange: "squic.org".to_string() };
    let n = Notification { channel: Some([1; 32]), title: "ann".to_string(), body: "hi".to_string(), count: 2, newest: 5 };
    let call = phone.notify_call(&n);
    assert_eq!(call.args[1], Arg::Text("me".to_string()));
    assert_eq!(call.args[2], Arg::Text("squic.org".to_string()));
    assert_eq!(call.args[3], Arg::Text(HEX_OF_ONES.to_string()));
    assert_eq!(call.args[6], Arg::Int(2));
    assert_eq!(call.args[7], Arg::Flag(true));
    let r = Ring { channel: [1; 32], seq: 3, from: PubKey::new([2; 32]), label: "the group".to_string(), direct: false };
    assert_eq!(phone.ring_call(&r).args[4], Arg::Text("the group".to_string()));
    assert_eq!(phone.unring_call(&[1; 32]).method, "endRing");
}

#[test]
fn a_call_starts_the_service_and_its_end_stops_it() {
    let up = call_service(Some(("ann", "me")));
    assert_eq!((up.class, up.method), ("CallService", "begin"));
    assert_eq!(up.args[1], Arg::Text("ann".to_string()));
    let down = call_service(None);
    assert_eq!((down.class, down.method), ("CallService", "end"));
}

#[test]
fn a_class_is_found_under_the_glues_package() {
    assert_eq!(end_call().class_path(), "org/squic/sigil/CallService");
    assert_eq!(pick_files().class_path(), "org/squic/sigil/Files");
}

#[test]
fn what_a_call_answers_is_read_from_its_signature() {
    assert_eq!(set_speaker(true).answers(), Returns::Flag);
    assert_eq!(notifications_enabled().answers(), Returns::Flag);
    assert_eq!(stored_endpoint().answers(), Returns::Text);
    assert_eq!(save_target("a").answers(), Returns::Text);
    assert_eq!(call_vault(true, &[1]).answers(), Returns::Bytes);
    assert_eq!(end_call().answers(), Returns::Nothing);
    assert_eq!(pick_files().answers(), Returns::Nothing);
}

#[test]
fn an_empty_or_unanswered_save_target_is_nowhere() {
    assert_eq!(save_answer(Ok(Some("/sdcard/notes.txt".to_string()))), Some("/sdcard/notes.txt".to_string()));
    assert_eq!(save_answer(Ok(Some(String::new()))), None);
    assert_eq!(save_answer(Ok(None)), None);
    assert_eq!(save_answer(Err("no context".to_string())), None);
}

#[test]
fn an_empty_endpoint_is_none_and_an_unreadable_one_is_none_too() {
    assert_eq!(endpoint_given(Some("https://ntfy.sh/up/x".to_string())), Some("https://ntfy.sh/up/x".to_string()));
    assert_eq!(endpoint_given(Some(String::new())), None);
    assert_eq!(endpoint_given(None), None);
    assert_eq!(endpoint_held(Ok(Some("u".to_string()))), Some("u".to_string()));
    assert_eq!(endpoint_held(Ok(None)), None);
    assert_eq!(endpoint_held(Err("no vm".to_string())), None);
}
