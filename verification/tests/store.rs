use gossip::config::{UpdateExpirationMode, UpdateExpirationValue};
use gossip::digest::{compute_digest, to_hex};
use gossip::update::{SubmitError, UpdateDecorator, MAX_EXPIRED_MARGIN, MAX_EXPIRED_SIZE};
use gossip::Update;

fn update(text: &str) -> Update {
    Update::new(text.as_bytes().to_vec())
}

fn digest(text: &str) -> String {
    blake3::hash(text.as_bytes()).to_hex().to_string()
}

#[test]
fn digest_is_blake3_in_lower_case_hex() {
    let hello = update("hello");
    assert_eq!(hello.digest(), "ea8f163db38682925e4491c5e58d4bb3506ef8c14eb78a86e908c5624a67200f");
    assert_eq!(hello.content(), &b"hello".to_vec());
    for text in ["", "a", "Some random message", "{{ \"id\": \"toto\", \"name\": \"John Doe\" }}"] {
        assert_eq!(*update(text).digest(), digest(text));
        assert_eq!(compute_digest(&text.as_bytes().to_vec()), digest(text));
    }
}

#[test]
fn digest_depends_on_the_content_alone() {
    assert_eq!(update("same").digest(), update("same").digest());
    assert_ne!(update("same").digest(), update("other").digest());
    let copy = update("same").clone();
    assert_eq!(copy.digest(), update("same").digest());
    assert_eq!(copy.content(), &b"same".to_vec());
}

#[test]
fn hex_writes_high_half_first() {
    assert_eq!(to_hex(&vec![]), "");
    assert_eq!(to_hex(&vec![0x00, 0x0f, 0xa0, 0xff, 0x19, 0x9a]), "000fa0ff199a");
    let all: Vec<u8> = (0..=255).collect();
    let expected: String = all.iter().map(|b| format!("{:02x}", b)).collect();
    assert_eq!(to_hex(&all), expected);
}

#[test]
fn expiration_value_for_each_mode() {
    assert_eq!(UpdateExpirationValue::new(UpdateExpirationMode::Never, 7), UpdateExpirationValue::Never);
    assert_eq!(UpdateExpirationValue::new(UpdateExpirationMode::PushCount(5), 7), UpdateExpirationValue::PushCount(5));
    assert_eq!(
        UpdateExpirationValue::new(UpdateExpirationMode::DurationMillis(1500), 7),
        UpdateExpirationValue::DurationMillis(7, 1500)
    );
    assert_eq!(UpdateExpirationValue::new(UpdateExpirationMode::MostRecent(3, 0), 7), UpdateExpirationValue::MostRecent(7));
}

#[test]
fn push_count_goes_down_to_zero_and_stays() {
    let mut value = UpdateExpirationValue::PushCount(2);
    assert!(!value.has_expired(0));
    value.increase_push_count();
    assert_eq!(value, UpdateExpirationValue::PushCount(1));
    assert!(!value.has_expired(0));
    value.increase_push_count();
    assert_eq!(value, UpdateExpirationValue::PushCount(0));
    assert!(value.has_expired(0));
    value.increase_push_count();
    assert_eq!(value, UpdateExpirationValue::PushCount(0));

    let mut other = UpdateExpirationValue::DurationMillis(1, 2);
    other.increase_push_count();
    assert_eq!(other, UpdateExpirationValue::DurationMillis(1, 2));
}

#[test]
fn duration_expires_when_the_time_to_live_has_passed() {
    let value = UpdateExpirationValue::DurationMillis(1000, 1500);
    assert!(!value.has_expired(1000));
    assert!(!value.has_expired(2499));
    assert!(value.has_expired(2500));
    assert!(value.has_expired(11000));
    // a clock that runs backwards counts as no time at all
    assert!(!value.has_expired(10));
    assert!(UpdateExpirationValue::DurationMillis(1000, 0).has_expired(10));
    assert_eq!(value.created(), 1000);
}

#[test]
fn never_and_most_recent_do_not_expire_alone() {
    assert!(!UpdateExpirationValue::Never.has_expired(u128::MAX));
    assert!(!UpdateExpirationValue::MostRecent(0).has_expired(u128::MAX));
    assert_eq!(UpdateExpirationValue::MostRecent(12).created(), 12);
    assert_eq!(UpdateExpirationValue::Never.created(), 0);
}

#[test]
fn insert_and_look_up() {
    let mut store = UpdateDecorator::new(UpdateExpirationMode::Never);
    assert_eq!(store.active_count(), 0);
    assert!(store.is_new(&digest("x")));
    assert_eq!(store.insert_update(update("x"), 0), Ok(()));
    assert_eq!(store.insert_update(update("y"), 0), Ok(()));
    assert_eq!(store.active_count(), 2);
    assert!(store.is_active(&digest("x")));
    assert!(!store.is_expired(&digest("x")));
    assert!(!store.is_new(&digest("x")));
    assert!(store.is_new(&digest("z")));
    assert_eq!(store.active_headers(), vec![digest("x"), digest("y")]);
    assert_eq!(store.get_update(&digest("y")).unwrap().content(), &b"y".to_vec());
    assert!(store.get_update(&digest("z")).is_none());
}

#[test]
fn inserting_twice_is_refused_and_changes_nothing() {
    let mut store = UpdateDecorator::new(UpdateExpirationMode::PushCount(1));
    assert_eq!(store.insert_update(update("x"), 0), Ok(()));
    assert_eq!(store.insert_update(update("x"), 5), Err(SubmitError::AlreadyActive));
    assert_eq!(store.active_count(), 1);
    store.active_headers_for_push();
    store.clear_expired(0);
    assert!(store.is_expired(&digest("x")));
    assert_eq!(store.insert_update(update("x"), 9), Err(SubmitError::AlreadyExpired));
    assert_eq!(store.active_count(), 0);
    assert!(!store.is_active(&digest("x")));
}

#[test]
fn no_digest_is_active_and_expired_at_once() {
    let mut store = UpdateDecorator::new(UpdateExpirationMode::DurationMillis(10));
    let names: Vec<String> = (0..40).map(|i| format!("m{}", i)).collect();
    for (i, name) in names.iter().enumerate() {
        assert_eq!(store.insert_update(update(name), i as u128), Ok(()));
        store.clear_expired(i as u128);
        for known in &names {
            assert!(!(store.is_active(&digest(known)) && store.is_expired(&digest(known))));
        }
    }
    assert_eq!(store.active_count(), 10);
}

#[test]
fn sweep_under_never_removes_nothing() {
    let mut store = UpdateDecorator::new(UpdateExpirationMode::Never);
    store.insert_update(update("x"), 0).unwrap();
    store.active_headers_for_push();
    store.clear_expired(u128::MAX);
    assert!(store.is_active(&digest("x")));
}

#[test]
fn sweep_under_push_count() {
    let mut store = UpdateDecorator::new(UpdateExpirationMode::PushCount(2));
    store.insert_update(update("a"), 0).unwrap();
    assert_eq!(store.active_headers_for_push(), vec![digest("a")]);
    store.clear_expired(0);
    store.insert_update(update("b"), 0).unwrap();
    assert_eq!(store.active_headers_for_push(), vec![digest("a"), digest("b")]);
    store.clear_expired(0);
    assert!(store.is_expired(&digest("a")));
    assert!(!store.is_active(&digest("a")));
    assert!(store.is_active(&digest("b")));
    assert_eq!(store.active_headers(), vec![digest("b")]);
    // reading the headers counts no advertisement
    store.active_headers();
    store.clear_expired(0);
    assert!(store.is_active(&digest("b")));
}

#[test]
fn sweep_under_duration() {
    let mut store = UpdateDecorator::new(UpdateExpirationMode::DurationMillis(1500));
    store.insert_update(update("a"), 0).unwrap();
    store.insert_update(update("b"), 1000).unwrap();
    store.insert_update(update("c"), 100).unwrap();
    store.clear_expired(1499);
    assert_eq!(store.active_count(), 3);
    store.clear_expired(1600);
    assert_eq!(store.active_headers(), vec![digest("b")]);
    assert!(store.is_expired(&digest("a")));
    assert!(store.is_expired(&digest("c")));
    store.clear_expired(2500);
    assert_eq!(store.active_count(), 0);
    assert!(store.is_expired(&digest("b")));
}

#[test]
fn sweep_under_most_recent_evicts_the_oldest() {
    let mut store = UpdateDecorator::new(UpdateExpirationMode::MostRecent(3, 0));
    for (i, name) in ["m0", "m1", "m2"].iter().enumerate() {
        store.insert_update(update(name), i as u128).unwrap();
    }
    store.clear_expired(10);
    assert_eq!(store.active_count(), 3);
    for (i, name) in ["m3", "m4", "m5"].iter().enumerate() {
        store.insert_update(update(name), 3 + i as u128).unwrap();
    }
    store.clear_expired(10);
    for name in ["m0", "m1", "m2"] {
        assert!(store.is_expired(&digest(name)));
        assert!(!store.is_active(&digest(name)));
    }
    assert_eq!(store.active_headers(), vec![digest("m3"), digest("m4"), digest("m5")]);
}

#[test]
fn most_recent_goes_by_creation_time_not_by_place() {
    let mut store = UpdateDecorator::new(UpdateExpirationMode::MostRecent(2, 0));
    store.insert_update(update("late"), 50).unwrap();
    store.insert_update(update("early"), 10).unwrap();
    store.insert_update(update("also early"), 10).unwrap();
    store.insert_update(update("middle"), 30).unwrap();
    store.clear_expired(60);
    assert_eq!(store.active_headers(), vec![digest("late"), digest("middle")]);
    assert!(store.is_expired(&digest("early")));
    assert!(store.is_expired(&digest("also early")));
}

#[test]
fn most_recent_waits_for_the_slack_to_fill() {
    let mut store = UpdateDecorator::new(UpdateExpirationMode::MostRecent(2, 2));
    for i in 0..4u128 {
        store.insert_update(update(&format!("m{}", i)), i).unwrap();
        store.clear_expired(i);
    }
    assert_eq!(store.active_count(), 4);
    store.insert_update(update("m4"), 4).unwrap();
    store.clear_expired(4);
    assert_eq!(store.active_headers(), vec![digest("m3"), digest("m4")]);
    assert!(store.is_expired(&digest("m0")));
    assert!(store.is_expired(&digest("m1")));
    assert!(store.is_expired(&digest("m2")));
}

#[test]
fn clear_forgets_everything() {
    let mut store = UpdateDecorator::new(UpdateExpirationMode::PushCount(0));
    store.insert_update(update("a"), 0).unwrap();
    store.clear_expired(0);
    store.insert_update(update("b"), 0).unwrap();
    store.clear();
    assert_eq!(store.active_count(), 0);
    assert!(store.is_new(&digest("a")));
    assert!(store.is_new(&digest("b")));
}

#[test]
fn the_list_of_expired_digests_is_cut_past_size_and_margin() {
    assert_eq!(MAX_EXPIRED_SIZE, 10000);
    assert_eq!(MAX_EXPIRED_MARGIN, 5000);
    let mut store = UpdateDecorator::new(UpdateExpirationMode::PushCount(0));
    let limit = MAX_EXPIRED_SIZE + MAX_EXPIRED_MARGIN;
    for i in 0..limit {
        store.insert_update(update(&format!("m{}", i)), 0).unwrap();
        if i % 500 == 499 {
            store.clear_expired(0);
        }
    }
    // the list holds exactly size and margin together: nothing is cut
    assert!(store.is_expired(&digest("m0")));
    assert!(store.is_expired(&digest(&format!("m{}", limit - 1))));
    // one more fires the cut: the first margin's worth is forgotten
    store.insert_update(update("one more"), 0).unwrap();
    store.clear_expired(0);
    assert!(store.is_new(&digest("m0")));
    assert!(store.is_new(&digest(&format!("m{}", MAX_EXPIRED_MARGIN - 1))));
    assert!(store.is_expired(&digest(&format!("m{}", MAX_EXPIRED_MARGIN))));
    assert!(store.is_expired(&digest("one more")));
    // what was forgotten is taken again
    assert_eq!(store.insert_update(update("m0"), 0), Ok(()));
}
