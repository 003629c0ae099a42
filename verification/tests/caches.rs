use whatsapp_esp32::caches::{
    composite_key, AppStateMutationMAC, Caches, LidPnMappingEntry, MsgSecretEntry, MsgSecretKey,
    MsgSecretValue, TcTokenEntry,
};
use whatsapp_rust::wacore::appstate::hash::HashState;
use whatsapp_rust::wacore::store::traits::DeviceListRecord;

fn mac(index: &[u8], value: &[u8]) -> AppStateMutationMAC {
    AppStateMutationMAC {
        index_mac: index.to_vec(),
        value_mac: value.to_vec(),
    }
}

#[test]
fn versions_are_kept_by_collection() {
    let mut caches = Caches::new();
    let mut state = HashState::default();
    state.version = 7;
    caches.set_version("critical", state);
    assert_eq!(caches.get_version("critical").unwrap().version, 7);
    assert!(caches.get_version("regular").is_none());
    caches.delete_version("critical");
    assert!(caches.get_version("critical").is_none());
}

#[test]
fn later_macs_replace_earlier_ones() {
    let mut caches = Caches::new();
    caches.put_mutation_macs("c", &vec![mac(b"i", b"1"), mac(b"j", b"2"), mac(b"i", b"3")]);
    assert_eq!(caches.get_mutation_mac("c", b"i").unwrap(), b"3");
    assert_eq!(caches.get_mutation_mac("c", b"j").unwrap(), b"2");
    assert!(caches.get_mutation_mac("d", b"i").is_none());
    caches.delete_mutation_macs("c", &vec![b"i".to_vec(), b"k".to_vec()]);
    caches.delete_mutation_macs("d", &vec![b"i".to_vec()]);
    assert!(caches.get_mutation_mac("c", b"i").is_none());
    assert_eq!(caches.get_mutation_mac("c", b"j").unwrap(), b"2");
    caches.clear_mutation_macs("c");
    assert!(caches.get_mutation_mac("c", b"j").is_none());
}

fn status(jid: &str, has: bool) -> (String, bool) {
    (jid.to_string(), has)
}

#[test]
fn sender_key_devices_are_updated_in_place() {
    let mut caches = Caches::new();
    assert!(caches.get_sender_key_devices("g").is_empty());
    caches.set_sender_key_status("g", &vec![status("a", false), status("b", true)]);
    caches.set_sender_key_status("g", &vec![status("a", true), status("c", false)]);
    assert_eq!(
        caches.get_sender_key_devices("g"),
        [status("a", true), status("b", true), status("c", false)]
    );
    caches.set_sender_key_status("h", &vec![status("b", true)]);
    caches.delete_sender_key_device_rows(&vec!["b".to_string(), "x".to_string()]);
    assert_eq!(
        caches.get_sender_key_devices("g"),
        [status("a", true), status("c", false)]
    );
    assert!(caches.get_sender_key_devices("h").is_empty());
    caches.clear_sender_key_devices("g");
    assert!(caches.get_sender_key_devices("g").is_empty());
    caches.set_sender_key_status("g", &vec![status("a", true)]);
    caches.clear_all_sender_key_devices();
    assert!(caches.get_sender_key_devices("g").is_empty());
}

fn mapping(lid: &str, pn: &str) -> LidPnMappingEntry {
    LidPnMappingEntry {
        lid: lid.to_string(),
        phone_number: pn.to_string(),
        created_at: 1,
        updated_at: 2,
        learning_source: "usync".to_string(),
    }
}

#[test]
fn mappings_are_found_from_either_side() {
    let mut caches = Caches::new();
    caches.put_lid_mapping(&mapping("l1", "p1"));
    caches.put_lid_mapping(&mapping("l2", "p1"));
    assert_eq!(caches.get_pn_mapping("p1").unwrap().lid, "l2");
    assert_eq!(caches.get_lid_mapping("l1").unwrap().phone_number, "p1");
    assert_eq!(caches.get_lid_mapping("l1").unwrap().updated_at, 2);
    assert!(caches.get_pn_mapping("p2").is_none());
    assert!(caches.get_lid_mapping("p1").is_none());
    let mut all: Vec<String> = caches
        .get_all_lid_mappings()
        .into_iter()
        .map(|entry| entry.lid)
        .collect();
    all.sort();
    assert_eq!(all, ["l1", "l2"]);
}

#[test]
fn base_keys_are_compared_whole() {
    let mut caches = Caches::new();
    assert_eq!(composite_key("a", "b"), "a:b");
    caches.save_base_key("a", "m", b"key");
    assert!(caches.has_same_base_key("a", "m", b"key"));
    assert!(!caches.has_same_base_key("a", "m", b"ke"));
    assert!(!caches.has_same_base_key("a", "n", b"key"));
    caches.delete_base_key("a", "m");
    assert!(!caches.has_same_base_key("a", "m", b"key"));
}

#[test]
fn device_lists_are_kept_by_user() {
    let mut caches = Caches::new();
    let record = DeviceListRecord {
        user: "u".to_string(),
        devices: Vec::new(),
        timestamp: 5,
        phash: None,
        raw_id: Some(3),
    };
    caches.update_device_list("u".to_string(), record);
    assert_eq!(caches.get_devices("u").unwrap().raw_id, Some(3));
    assert!(caches.get_devices("v").is_none());
    caches.delete_devices("u");
    assert!(caches.get_devices("u").is_none());
}

fn token(bytes: &[u8], at: i64, sent: Option<i64>) -> TcTokenEntry {
    TcTokenEntry {
        token: bytes.to_vec(),
        token_timestamp: at,
        sender_timestamp: sent,
    }
}

#[test]
fn issue_times_only_move_forward() {
    let mut caches = Caches::new();
    caches.touch_tc_token_sender_timestamp("j", 50);
    caches.touch_tc_token_sender_timestamp("j", 40);
    let row = caches.get_tc_token("j").unwrap();
    assert!(row.token.is_empty());
    assert_eq!(row.token_timestamp, 50);
    assert_eq!(row.sender_timestamp, Some(50));
    caches.touch_tc_token_sender_timestamp("j", 60);
    assert_eq!(caches.get_tc_token("j").unwrap().sender_timestamp, Some(60));
    caches.put_tc_token("k", token(b"t", 9, None));
    caches.touch_tc_token_sender_timestamp("k", 3);
    assert_eq!(caches.get_tc_token("k").unwrap().sender_timestamp, Some(3));
    assert_eq!(caches.get_tc_token("k").unwrap().token, b"t");
}

#[test]
fn a_stale_token_never_replaces_a_fresher_one() {
    let mut caches = Caches::new();
    caches.touch_tc_token_sender_timestamp("j", 100);
    caches.store_received_tc_token("j", b"first", 10);
    let row = caches.get_tc_token("j").unwrap();
    assert_eq!((&row.token[..], row.token_timestamp), (&b"first"[..], 10));
    assert_eq!(row.sender_timestamp, Some(100));
    caches.store_received_tc_token("j", b"stale", 9);
    assert_eq!(caches.get_tc_token("j").unwrap().token, b"first");
    caches.store_received_tc_token("j", b"same", 10);
    assert_eq!(caches.get_tc_token("j").unwrap().token, b"same");
    caches.store_received_tc_token("n", b"new", 1);
    assert_eq!(caches.get_tc_token("n").unwrap().sender_timestamp, None);
    caches.delete_tc_token("n");
    assert_eq!(caches.get_all_tc_token_jids(), ["j"]);
}

#[test]
fn tokens_expire_once_both_sides_are_stale() {
    let mut caches = Caches::new();
    caches.put_tc_token("live token", token(b"t", 10, Some(1)));
    caches.put_tc_token("live sender", token(b"t", 9, Some(20)));
    caches.put_tc_token("stale", token(b"t", 9, Some(19)));
    caches.put_tc_token("placeholder", token(b"", 99, None));
    assert_eq!(caches.delete_expired_tc_tokens(10, 20), 2);
    let mut left = caches.get_all_tc_token_jids();
    left.sort();
    assert_eq!(left, ["live sender", "live token"]);
}

#[test]
fn sent_messages_are_taken_once_and_expire() {
    let mut caches = Caches::new();
    caches.store_sent_message("c", "m", b"payload", 100);
    assert_eq!(caches.take_sent_message("c", "m").unwrap(), b"payload");
    assert!(caches.take_sent_message("c", "m").is_none());
    caches.store_sent_message("c", "1", b"a", 99);
    caches.store_sent_message("c", "2", b"b", 100);
    assert_eq!(caches.delete_expired_sent_messages(100), 1);
    assert!(caches.take_sent_message("c", "1").is_none());
    assert!(caches.take_sent_message("c", "2").is_some());
}

fn secret_key(id: &str) -> MsgSecretKey {
    MsgSecretKey {
        chat: "chat".to_string(),
        sender: "sender".to_string(),
        msg_id: id.to_string(),
    }
}

fn secret(id: &str, fill: u8, expires_at: i64, message_ts: i64) -> MsgSecretEntry {
    MsgSecretEntry {
        key: secret_key(id),
        value: MsgSecretValue {
            secret: [fill; 32],
            expires_at,
            message_ts,
        },
    }
}

#[test]
fn message_secrets_are_never_kept_for_less_long() {
    let mut caches = Caches::new();
    let given = vec![
        secret("m", 1, 50, 7),
        secret("m", 2, 40, 0),
        secret("n", 3, 0, 1),
    ];
    assert_eq!(caches.put_msg_secrets(given), 3);
    assert_eq!(
        caches.get_msg_secret_with_ts(&secret_key("m")),
        Some(([2; 32], 7))
    );
    assert_eq!(caches.get_msg_secret(&secret_key("n")), Some([3; 32]));
    assert_eq!(caches.get_msg_secret(&secret_key("o")), None);
    caches.put_msg_secrets(vec![secret("n", 4, 10, 9)]);
    assert_eq!(caches.delete_expired_msg_secrets(49), 0);
    assert_eq!(caches.delete_expired_msg_secrets(50), 1);
    assert_eq!(caches.get_msg_secret(&secret_key("m")), None);
    assert_eq!(
        caches.get_msg_secret_with_ts(&secret_key("n")),
        Some(([4; 32], 9)),
        "never stays never"
    );
}
