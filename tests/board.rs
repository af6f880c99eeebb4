use board::api::{list_threads, post_reply, post_thread, thread_messages, ApiError, DEFAULT_LIMIT};
use board::events::{trim, validate_message, validate_thread, NewMessage, NewThread};
use board::limits::{Limits, MSG_NAME_LEN, MSG_SUBJECT_LEN, MSG_TEXT_LEN};
use board::store::{Db, StoreError};

fn msg(text: &str) -> NewMessage {
    NewMessage { text: text.to_string(), name: None, trip: None, secret: None, password: None }
}

fn msg_with_secret(text: &str, secret: &str) -> NewMessage {
    NewMessage {
        text: text.to_string(),
        name: None,
        trip: None,
        secret: Some(secret.to_string()),
        password: None,
    }
}

fn code<T>(r: Result<T, (&'static str, &'static str)>) -> &'static str {
    match r {
        Ok(_) => "ok",
        Err((_, c)) => c,
    }
}

#[test]
fn default_limits() {
    let l = Limits::default();
    assert_eq!(l.msg_text_len, 4096);
    assert_eq!(l.msg_name_len, 32);
    assert_eq!(l.msg_subject_len, MSG_SUBJECT_LEN);
    assert_eq!(MSG_TEXT_LEN, 4096);
    assert_eq!(MSG_NAME_LEN, 32);
}

#[test]
fn empty_text_rejected() {
    let l = Limits::default();
    let r = validate_message(msg(""), &l);
    assert_eq!(r.err(), Some(("Text should not be empty.", "message.text_empty")));
}

#[test]
fn blank_text_rejected_after_trim() {
    let l = Limits::default();
    assert_eq!(code(validate_message(msg("  \t\n "), &l)), "message.text_empty");
}

#[test]
fn text_one_over_limit_rejected() {
    let l = Limits::default();
    let long = "a".repeat(4097);
    let r = validate_message(msg(&long), &l);
    assert_eq!(
        r.err(),
        Some(("Text should be no more than 4096 characters long.", "message.text_long"))
    );
}

#[test]
fn text_at_limit_accepted() {
    let l = Limits::default();
    let text = "a".repeat(4096);
    let r = validate_message(msg(&text), &l).ok().unwrap();
    assert_eq!(r.text.len(), 4096);
}

#[test]
fn text_limit_counts_after_trim() {
    let l = Limits::default();
    let text = format!("  {}  ", "a".repeat(4096));
    let r = validate_message(msg(&text), &l).ok().unwrap();
    assert_eq!(r.text, "a".repeat(4096));
}

#[test]
fn text_limit_counts_characters() {
    let l = Limits::default();
    let text = "\u{e9}".repeat(4096);
    assert_eq!(code(validate_message(msg(&text), &l)), "ok");
}

#[test]
fn name_over_limit_rejected() {
    let l = Limits::default();
    let mut m = msg("hi");
    m.name = Some("n".repeat(33));
    let r = validate_message(m, &l);
    assert_eq!(
        r.err(),
        Some(("Name should be no more than 32 characters long.", "message.name_long"))
    );
}

#[test]
fn name_at_limit_after_trim_accepted() {
    let l = Limits::default();
    let mut m = msg("hi");
    m.name = Some(format!(" {} ", "n".repeat(32)));
    let r = validate_message(m, &l).ok().unwrap();
    assert_eq!(r.name, Some("n".repeat(32)));
}

#[test]
fn fields_are_trimmed() {
    let l = Limits::default();
    let m = NewMessage {
        text: "  hello \n".to_string(),
        name: Some("  bob ".to_string()),
        trip: Some(" !x ".to_string()),
        secret: Some("   ".to_string()),
        password: Some(" pw ".to_string()),
    };
    let r = validate_message(m, &l).ok().unwrap();
    assert_eq!(r.text, "hello");
    assert_eq!(r.name, Some("bob".to_string()));
    assert_eq!(r.trip, Some(" !x ".to_string()));
    assert_eq!(r.secret, None);
    assert_eq!(r.password, Some("pw".to_string()));
}

#[test]
fn trim_drops_blank_and_keeps_inner_space() {
    assert_eq!(trim(None), None);
    assert_eq!(trim(Some(" ".to_string())), None);
    assert_eq!(trim(Some(" a b ".to_string())), Some("a b".to_string()));
}

#[test]
fn empty_text_reported_before_long_name() {
    let l = Limits::default();
    let mut m = msg(" ");
    m.name = Some("n".repeat(40));
    assert_eq!(code(validate_message(m, &l)), "message.text_empty");
}

#[test]
fn subject_over_limit_rejected() {
    let l = Limits::default();
    let t = NewThread { msg: msg("hi"), subject: Some("s".repeat(MSG_SUBJECT_LEN + 1)) };
    let r = validate_thread(t, &l);
    assert_eq!(r.err(), Some(("Subject is too long.", "message.subject_long")));
}

#[test]
fn thread_message_checked_before_subject() {
    let l = Limits::default();
    let t = NewThread { msg: msg(""), subject: Some("s".repeat(MSG_SUBJECT_LEN + 1)) };
    assert_eq!(code(validate_thread(t, &l)), "message.text_empty");
}

#[test]
fn valid_thread_is_trimmed() {
    let l = Limits::default();
    let t = NewThread { msg: msg(" hi "), subject: Some(" topic ".to_string()) };
    let r = validate_thread(t, &l).ok().unwrap();
    assert_eq!(r.msg.text, "hi");
    assert_eq!(r.subject, Some("topic".to_string()));
}

#[test]
fn create_then_reply() {
    let mut db = Db::new();
    let id = db.new_thread(msg("hello"), None, 100).unwrap();
    assert_eq!(db.threads[0].last_reply_no, 0);
    assert_eq!(db.threads[0].bump, 100);
    let no = db.reply_thread(id, msg("world"), 105).unwrap();
    assert_eq!(no, 1);
    assert_eq!(db.threads[0].last_reply_no, 1);
    assert_eq!(db.threads[0].bump, 105);
    let all = db.get_thread_messages(id).unwrap();
    assert_eq!(all.len(), 2);
    assert_eq!(all[0].no, 0);
    assert_eq!(all[0].text, "hello");
    assert_eq!(all[1].no, 1);
    assert_eq!(all[1].text, "world");
}

#[test]
fn replies_number_consecutively() {
    let mut db = Db::new();
    let id = db.new_thread(msg("op"), None, 1).unwrap();
    for k in 1..=5u32 {
        assert_eq!(db.reply_thread(id, msg("r"), 1).unwrap(), k);
    }
    let nos: Vec<u32> = db.get_thread_messages(id).unwrap().iter().map(|m| m.no).collect();
    assert_eq!(nos, vec![0, 1, 2, 3, 4, 5]);
}

#[test]
fn reply_to_missing_thread_is_not_found() {
    let mut db = Db::new();
    assert_eq!(db.reply_thread(7, msg("x"), 1), Err(StoreError::NotFound));
    assert!(db.get_thread_messages(7).is_none());
}

#[test]
fn trip_passes_through_to_readers() {
    let mut db = Db::new();
    let mut m = msg("t");
    m.trip = Some("!abc".to_string());
    m.name = Some("bob".to_string());
    let id = db.new_thread(m, Some("s".to_string()), 1).unwrap();
    let op = &db.get_threads_before(0, 1)[0].op;
    assert_eq!(op.trip, "!abc");
    assert_eq!(op.name, "bob");
    assert_eq!(db.get_thread_messages(id).unwrap()[0].trip, "!abc");
}

#[test]
fn identifiers_exhausted() {
    let mut db = Db::new();
    db.next_id = u32::MAX;
    assert_eq!(db.new_thread(msg("x"), None, 1), Err(StoreError::StorageFailure));
    assert!(db.threads.is_empty());
}

#[test]
fn list_three_threads_ascending() {
    let mut db = Db::new();
    let a = db.new_thread(msg("a"), None, 30).unwrap();
    let b = db.new_thread(msg("b"), None, 10).unwrap();
    let c = db.new_thread(msg("c"), None, 20).unwrap();
    let page = db.get_threads_before(0, 100);
    let ids: Vec<u32> = page.iter().map(|t| t.id).collect();
    assert_eq!(ids, vec![b, c, a]);
    assert_eq!(page[0].op.text, "b");
    assert_eq!(page[0].op.name, "Anonymous");
    assert_eq!(page[0].op.trip, "");
    assert!(page[0].last.is_empty());
}

#[test]
fn list_excludes_bump_equal_to_cursor() {
    let mut db = Db::new();
    let a = db.new_thread(msg("a"), None, 10).unwrap();
    let b = db.new_thread(msg("b"), None, 11).unwrap();
    let page = db.get_threads_before(10, 100);
    let ids: Vec<u32> = page.iter().map(|t| t.id).collect();
    assert_eq!(ids, vec![b]);
    assert_ne!(a, b);
}

#[test]
fn list_respects_limit_and_ties() {
    let mut db = Db::new();
    let a = db.new_thread(msg("a"), None, 5).unwrap();
    let b = db.new_thread(msg("b"), None, 5).unwrap();
    let c = db.new_thread(msg("c"), None, 5).unwrap();
    let ids: Vec<u32> = db.get_threads_before(0, 2).iter().map(|t| t.id).collect();
    assert_eq!(ids, vec![a, b]);
    assert_eq!(db.get_threads_before(0, 0).len(), 0);
    assert_eq!(db.get_threads_before(5, 10).len(), 0);
    assert_ne!(b, c);
}

#[test]
fn reply_bumps_thread_to_end() {
    let mut db = Db::new();
    let a = db.new_thread(msg("a"), None, 1).unwrap();
    let b = db.new_thread(msg("b"), None, 2).unwrap();
    db.reply_thread(a, msg("up"), 3).unwrap();
    let ids: Vec<u32> = db.get_threads_before(0, 100).iter().map(|t| t.id).collect();
    assert_eq!(ids, vec![b, a]);
}

#[test]
fn delete_thread_with_matching_secret() {
    let mut db = Db::new();
    let id = db.new_thread(msg_with_secret("t", "abc"), None, 1).unwrap();
    assert_eq!(db.delete_thread(id, "abc".to_string()), Ok(()));
    assert!(db.get_thread_messages(id).is_none());
}

#[test]
fn delete_thread_with_wrong_password() {
    let mut db = Db::new();
    let id = db.new_thread(msg_with_secret("t", "abc"), None, 1).unwrap();
    assert_eq!(db.delete_thread(id, "xyz".to_string()), Err(StoreError::NotAuthorized));
    assert!(db.get_thread_messages(id).is_some());
}

#[test]
fn delete_without_stored_credential_fails_closed() {
    let mut db = Db::new();
    let id = db.new_thread(msg("t"), None, 1).unwrap();
    assert_eq!(db.delete_thread(id, "".to_string()), Err(StoreError::NotAuthorized));
    assert_eq!(db.delete_thread(id + 1, "".to_string()), Err(StoreError::NotFound));
}

#[test]
fn post_without_secret_cannot_be_deleted() {
    let mut db = Db::new();
    let mut m = msg("t");
    m.password = Some("pw".to_string());
    let id = db.new_thread(m, None, 1).unwrap();
    assert_eq!(db.delete_thread(id, "pw".to_string()), Err(StoreError::NotAuthorized));
    assert!(db.get_thread_messages(id).is_some());
}

#[test]
fn delete_reply_keeps_numbers() {
    let mut db = Db::new();
    let id = db.new_thread(msg("op"), None, 1).unwrap();
    db.reply_thread(id, msg_with_secret("one", "s1"), 2).unwrap();
    db.reply_thread(id, msg_with_secret("two", "s2"), 3).unwrap();
    assert_eq!(db.delete_message(id, 1, "s2".to_string()), Err(StoreError::NotAuthorized));
    assert_eq!(db.delete_message(id, 9, "s2".to_string()), Err(StoreError::NotFound));
    assert_eq!(db.delete_message(id, 1, "s1".to_string()), Ok(()));
    let nos: Vec<u32> = db.get_thread_messages(id).unwrap().iter().map(|m| m.no).collect();
    assert_eq!(nos, vec![0, 2]);
    assert_eq!(db.threads[0].last_reply_no, 2);
    assert_eq!(db.reply_thread(id, msg("three"), 4).unwrap(), 3);
}

#[test]
fn delete_opening_message_removes_thread() {
    let mut db = Db::new();
    let id = db.new_thread(msg_with_secret("op", "k"), None, 1).unwrap();
    db.reply_thread(id, msg("r"), 2).unwrap();
    assert_eq!(db.delete_message(id, 0, "k".to_string()), Ok(()));
    assert!(db.get_thread_messages(id).is_none());
    assert!(db.get_threads_before(0, 10).is_empty());
}

#[test]
fn list_defaults_and_unsupported_modes() {
    let mut db = Db::new();
    for k in 0..3u64 {
        db.new_thread(msg("t"), None, 10 + k).unwrap();
    }
    assert_eq!(DEFAULT_LIMIT, 100);
    assert_eq!(list_threads(&db, None, None, None).ok().unwrap().len(), 3);
    assert_eq!(list_threads(&db, Some(11), None, None).ok().unwrap().len(), 1);
    assert_eq!(list_threads(&db, None, None, Some(2)).ok().unwrap().len(), 2);
    assert!(matches!(list_threads(&db, None, Some(1), None), Err(ApiError::Unsupported)));
    assert!(matches!(list_threads(&db, Some(1), Some(2), None), Err(ApiError::Unsupported)));
}

#[test]
fn thread_messages_modes() {
    let mut db = Db::new();
    let id = db.new_thread(msg("t"), None, 1).unwrap();
    assert_eq!(thread_messages(&db, id, None, None).ok().unwrap().len(), 1);
    assert!(matches!(thread_messages(&db, id, Some(0), None), Err(ApiError::Unsupported)));
    assert!(matches!(thread_messages(&db, id, None, Some(0)), Err(ApiError::Unsupported)));
    assert!(matches!(
        thread_messages(&db, id + 1, None, None),
        Err(ApiError::Store(StoreError::NotFound))
    ));
}

#[test]
fn post_thread_validates_then_stores() {
    let l = Limits::default();
    let mut db = Db::new();
    let bad = NewThread { msg: msg("   "), subject: None };
    assert!(matches!(
        post_thread(&mut db, bad, &l, 5),
        Err(ApiError::Invalid("Text should not be empty.", "message.text_empty"))
    ));
    assert!(db.threads.is_empty());
    let good = NewThread { msg: msg("  hello  "), subject: None };
    let id = post_thread(&mut db, good, &l, 5).ok().unwrap();
    let all = thread_messages(&db, id, None, None).ok().unwrap();
    assert_eq!(all[0].text, "hello");
}

#[test]
fn post_reply_validates_then_stores() {
    let l = Limits::default();
    let mut db = Db::new();
    let id = db.new_thread(msg("op"), None, 1).unwrap();
    let mut long_name = msg("hi");
    long_name.name = Some("x".repeat(33));
    assert!(matches!(
        post_reply(&mut db, id, long_name, &l, 5),
        Err(ApiError::Invalid(_, "message.name_long"))
    ));
    assert!(matches!(
        post_reply(&mut db, id + 1, msg("hi"), &l, 5),
        Err(ApiError::Store(StoreError::NotFound))
    ));
    assert_eq!(post_reply(&mut db, id, msg(" world "), &l, 5).ok(), Some(1));
    let all = thread_messages(&db, id, None, None).ok().unwrap();
    assert_eq!(all[1].text, "world");
}

#[test]
fn padded_subject_at_limit_accepted() {
    let l = Limits::default();
    let subject = format!("  {}\t", "a".repeat(MSG_SUBJECT_LEN));
    let t = NewThread { msg: msg("hi"), subject: Some(subject) };
    let r = validate_thread(t, &l).ok().unwrap();
    assert_eq!(r.subject, Some("a".repeat(MSG_SUBJECT_LEN)));
}

#[test]
fn unicode_whitespace_trimmed() {
    assert_eq!(trim(Some("\u{3000}\u{a0}x\u{2028}".to_string())), Some("x".to_string()));
}

#[test]
fn post_thread_bumps_at_given_time() {
    let l = Limits::default();
    let mut db = Db::new();
    let id = post_thread(&mut db, NewThread { msg: msg("a"), subject: None }, &l, 42).ok().unwrap();
    assert_eq!(db.threads[0].id, id);
    assert_eq!(db.threads[0].bump, 42);
    post_reply(&mut db, id, msg("b"), &l, 50).ok().unwrap();
    assert_eq!(db.threads[0].bump, 50);
}
