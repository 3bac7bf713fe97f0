use netcom::commands::{
    join, join_at, leave, leave_at, message, message_at, verify, verify_at,
    SaltCache, SALT_LIFETIME_NANOS,
};
use netcom::crypt::{get_public, sign, verify as verify_signature};
use netcom::network::NetCommand;
use netcom::utils::key_to_string;

fn keys() -> ([u8; 32], [u8; 32]) {
    let private_key = [11u8; 32];
    (get_public(&private_key), private_key)
}

#[test]
fn join_at_signs_its_text() {
    let (public_key, private_key) = keys();
    let cmd = join_at("alice", public_key, private_key, "join1", 1000);
    let text = format!("JOIN\0alice\0{}\01000\0join1\0", key_to_string(&public_key));
    assert_eq!(cmd.signed_text(), text);
    match &cmd {
        NetCommand::Join { username, timestamp, salt, evidence, .. } => {
            assert_eq!(username, "alice");
            assert_eq!(*timestamp, 1000);
            assert_eq!(salt, "join1");
            assert_eq!(evidence, &sign(&private_key, &text));
            assert!(verify_signature(&public_key, evidence, &text));
        },
        _ => panic!("not a join"),
    }
}

#[test]
fn message_at_signs_content_and_tags() {
    let (public_key, private_key) = keys();
    let tags = vec!["a".to_string(), "b".to_string()];
    let cmd = message_at("bob", public_key, private_key, "hi", tags.clone(), "5", 7);
    let text = format!("MSG\0bob\0{}\07\0hi\0a b\05\0", key_to_string(&public_key));
    assert_eq!(cmd.signed_text(), text);
    match &cmd {
        NetCommand::Message { evidence, tags: t, .. } => {
            assert_eq!(t, &tags);
            assert_eq!(evidence, &sign(&private_key, &text));
        },
        _ => panic!("not a message"),
    }
}

#[test]
fn leave_at_signs_its_text() {
    let (public_key, private_key) = keys();
    let cmd = leave_at("carol", public_key, private_key, "9", 55);
    let text = format!("LEAVE\0carol\0{}\055\09\0", key_to_string(&public_key));
    assert_eq!(cmd.signed_text(), text);
}

#[test]
fn fresh_commands_are_accepted_once() {
    let (public_key, private_key) = keys();
    let mut cache = SaltCache::new();
    let cmd = join_at("alice", public_key, private_key, "join1", 1000);
    assert!(verify_at(&cmd, &mut cache, 1050, 10, 11));
    assert!(!verify_at(&cmd, &mut cache, 1060, 20, 21));
    let msg = message_at("alice", public_key, private_key, "x", vec!["t".to_string()], "2", 1000);
    assert!(verify_at(&msg, &mut cache, 1000, 30, 31));
    assert!(!verify_at(&msg, &mut cache, 1000, 40, 41));
}

#[test]
fn a_salt_is_forgotten_after_its_lifetime() {
    let (public_key, private_key) = keys();
    let mut cache = SaltCache::new();
    let cmd = leave_at("alice", public_key, private_key, "s", 1000);
    assert!(verify_at(&cmd, &mut cache, 1000, 0, 0));
    assert!(!verify_at(&cmd, &mut cache, 1000, SALT_LIFETIME_NANOS - 1, SALT_LIFETIME_NANOS - 1));
    assert!(verify_at(&cmd, &mut cache, 1000, SALT_LIFETIME_NANOS, SALT_LIFETIME_NANOS));
}

#[test]
fn old_commands_are_refused() {
    let (public_key, private_key) = keys();
    let mut cache = SaltCache::new();
    let cmd = join_at("alice", public_key, private_key, "j", 1000);
    assert!(!verify_at(&cmd, &mut cache, 1121, 0, 0));
    assert!(verify_at(&cmd, &mut cache, 1120, 0, 0));
    let early = join_at("alice", public_key, private_key, "k", 0);
    assert!(verify_at(&early, &mut cache, 50, 0, 0));
}

#[test]
fn commands_from_the_future_are_refused() {
    let (public_key, private_key) = keys();
    let mut cache = SaltCache::new();
    let cmd = join_at("alice", public_key, private_key, "f", 1000);
    assert!(!verify_at(&cmd, &mut cache, 879, 0, 0));
    assert!(verify_at(&cmd, &mut cache, 880, 0, 0));
    let far = join_at("alice", public_key, private_key, "g", u64::MAX);
    assert!(!verify_at(&far, &mut cache, 0, 0, 0));
}

#[test]
fn a_join_with_bad_evidence_is_refused_and_its_salt_not_entered() {
    let (public_key, private_key) = keys();
    let mut cache = SaltCache::new();
    let good = join_at("alice", public_key, private_key, "j", 1000);
    let forged = match good.clone() {
        NetCommand::Join { public_key, timestamp, salt, evidence, .. } => {
            NetCommand::Join { username: "mallory".to_string(), public_key, timestamp, salt, evidence }
        },
        _ => unreachable!(),
    };
    assert!(!verify_at(&forged, &mut cache, 1000, 0, 0));
    assert!(verify_at(&good, &mut cache, 1000, 1, 1));
}

#[test]
fn a_leave_with_bad_evidence_is_refused_and_its_salt_not_entered() {
    let (public_key, private_key) = keys();
    let mut cache = SaltCache::new();
    let good = leave_at("alice", public_key, private_key, "l", 1000);
    let forged = good.clone().with_evidence(sign(&[99u8; 32], "other"));
    assert!(!verify_at(&forged, &mut cache, 1000, 0, 0));
    assert!(verify_at(&good, &mut cache, 1000, 1, 1));
    let msg = message_at("alice", public_key, private_key, "m", vec!["t".to_string()], "q", 1000);
    let forged_msg = msg.clone().with_evidence(sign(&[99u8; 32], "other"));
    assert!(!verify_at(&forged_msg, &mut cache, 1000, 2, 2));
    assert!(verify_at(&msg, &mut cache, 1000, 3, 3));
}

#[test]
fn empty_evidence_is_refused() {
    let (public_key, private_key) = keys();
    let mut cache = SaltCache::new();
    let cmd = join_at("a", public_key, private_key, "s", 5).with_evidence(String::new());
    assert!(!verify_at(&cmd, &mut cache, 5, 0, 0));
}

#[test]
fn unreadable_evidence_or_key_is_refused() {
    let (public_key, private_key) = keys();
    let mut cache = SaltCache::new();
    let cmd = join_at("a", public_key, private_key, "s", 10).with_evidence("XYZ".to_string());
    assert!(!verify_at(&cmd, &mut cache, 10, 0, 0));
    let bad_key = match join_at("a", public_key, private_key, "s", 10) {
        NetCommand::Join { username, timestamp, salt, evidence, .. } => {
            NetCommand::Join { username, public_key: [2u8; 32], timestamp, salt, evidence }
        },
        _ => unreachable!(),
    };
    assert!(!verify_at(&bad_key, &mut cache, 10, 0, 0));
    let good = join_at("a", public_key, private_key, "s", 10);
    assert!(verify_at(&good, &mut cache, 10, 1, 1));
    let now = std::time::SystemTime::now()
        .duration_since(std::time::UNIX_EPOCH)
        .unwrap()
        .as_secs();
    let unreadable = join_at("a", public_key, private_key, "u", now).with_evidence("XYZ".to_string());
    assert!(!verify(&unreadable, &mut cache));
}

#[test]
fn commands_made_now_verify_now() {
    let (public_key, private_key) = keys();
    let mut cache = SaltCache::new();
    let j = join("alice", public_key, private_key, "join3");
    let m = message("alice", public_key, private_key, "hi", vec!["x".to_string()], "4");
    let l = leave("alice", public_key, private_key, "5");
    assert!(verify(&j, &mut cache));
    assert!(verify(&m, &mut cache));
    assert!(verify(&l, &mut cache));
    assert!(!verify(&j, &mut cache));
}

#[test]
fn salts_count_up_modulo_one_hundred_million() {
    let mut cache = SaltCache::new();
    let first: u64 = cache.get_salt().parse().unwrap();
    let second: u64 = cache.get_salt().parse().unwrap();
    assert!(first >= 1 && first <= 65536);
    assert_eq!(second, (first + 1) % 100_000_000);
}

#[test]
fn salts_entered_are_found_while_alive() {
    let mut cache = SaltCache::new();
    assert!(!cache.check_salt_at("k", "s", 0));
    cache.enter_salt_at("k", "s", 100);
    assert!(cache.check_salt_at("k", "s", 100 + SALT_LIFETIME_NANOS - 1));
    assert!(!cache.check_salt_at("k", "t", 100));
    assert!(!cache.check_salt_at("j", "s", 100));
    assert!(!cache.check_salt_at("k", "s", 100 + SALT_LIFETIME_NANOS));
}

#[test]
fn entering_a_salt_again_renews_it() {
    let mut cache = SaltCache::new();
    cache.enter_salt_at("k", "s", 0);
    cache.enter_salt_at("k", "s", SALT_LIFETIME_NANOS - 1);
    assert!(cache.check_salt_at("k", "s", SALT_LIFETIME_NANOS + 5));
}

#[test]
fn salts_entered_now_are_found_now() {
    let mut cache = SaltCache::new();
    cache.enter_salt("key", "salt");
    assert!(cache.check_salt("key", "salt"));
    assert!(!cache.check_salt("key", "other"));
}

#[test]
fn salts_are_remembered_per_key_over_a_history() {
    let mut cache = SaltCache::new();
    cache.enter_salt_at("k1", "s", 0);
    assert!(!cache.check_salt_at("k2", "s", 10));
    cache.enter_salt_at("k2", "s", 20);
    assert!(cache.check_salt_at("k1", "s", SALT_LIFETIME_NANOS - 1));
    assert!(!cache.check_salt_at("k1", "s", SALT_LIFETIME_NANOS));
    assert!(cache.check_salt_at("k2", "s", SALT_LIFETIME_NANOS));
    assert!(!cache.check_salt_at("k2", "s", SALT_LIFETIME_NANOS + 20));
}

#[test]
fn a_run_of_salts_counts_up_without_repeats() {
    let mut cache = SaltCache::new();
    let salts: Vec<String> = (0..6).map(|_| cache.get_salt()).collect();
    for i in 0..salts.len() {
        for j in 0..i {
            assert_ne!(salts[i], salts[j]);
        }
    }
    for k in 0..salts.len() - 1 {
        let here: u64 = salts[k].parse().unwrap();
        assert_eq!(salts[k + 1], ((here + 1) % 100_000_000).to_string());
    }
}
