use question_desk::model::{Draft, Question};
use question_desk::store::{add, damaged_store_message, find, list, load_from, question_text, remove, set_draft};

fn draft(text: &str) -> Draft {
    Draft { draft: text.into(), verify: vec!["a".into()], model: "m".into(), created_at: "t".into() }
}

fn record(id: &str, asked_at: &str) -> Question {
    Question {
        id: id.into(),
        asked_at: asked_at.into(),
        asker: String::new(),
        context: String::new(),
        question: "Q?".into(),
        tags: vec![],
        draft: None,
    }
}

fn now() -> i64 {
    chrono::Utc::now().timestamp()
}

fn no_file(_: &str) -> Result<Vec<Question>, String> {
    Err("unreadable".to_string())
}

#[test]
fn missing_file_is_empty() {
    assert!(list(load_from(None, no_file).unwrap()).is_empty());
}

#[test]
fn blank_file_is_empty() {
    assert!(load_from(Some("  \n\t "), no_file).unwrap().is_empty());
}

#[test]
fn add_list_delete_roundtrip() {
    let mut p: Vec<Question> = Vec::new();
    let a = add(&mut p, "youth group", "after session", "Why suffering?", vec![" suffering ".into(), "".into()], now()).unwrap();
    let b = add(&mut p, "", "", "Is the Bible reliable?", vec![], now()).unwrap();
    assert_ne!(a.id, b.id, "ids must be unique even within one second");
    assert_eq!(a.tags, vec!["suffering"]);
    assert_eq!(list(p.clone()).len(), 2);
    remove(&mut p, &a.id).unwrap();
    assert_eq!(list(p.clone()).len(), 1);
    assert!(remove(&mut p, &a.id).is_err());
}

#[test]
fn empty_question_rejected() {
    let mut p: Vec<Question> = Vec::new();
    assert!(add(&mut p, "x", "y", "   ", vec![], now()).is_err());
    assert!(p.is_empty());
}

#[test]
fn draft_persists() {
    let mut p: Vec<Question> = Vec::new();
    let q = add(&mut p, "", "", "Q?", vec![], now()).unwrap();
    let d = Draft { draft: "hi".into(), verify: vec!["a".into()], model: "m".into(), created_at: "t".into() };
    let updated = set_draft(&mut p, &q.id, d.clone()).unwrap();
    assert_eq!(updated.draft, Some(d.clone()));
    assert_eq!(find(p.clone(), &q.id).unwrap().draft, Some(d));
}

/// Reads a store file's contents as JSON; these tests only need to tell valid
/// JSON from invalid.
fn json_store(raw: &str) -> Result<Vec<Question>, String> {
    serde_json::from_str::<serde_json::Value>(raw)
        .map(|_| Vec::new())
        .map_err(|e| damaged_store_message("questions.json", &e.to_string()))
}

#[test]
fn corrupt_file_is_not_overwritten() {
    let mut file = String::from("{ not json");
    // the same read-modify-write as the app: nothing is written unless the file was read
    let result = load_from(Some(file.as_str()), json_store).and_then(|mut items| {
        add(&mut items, "", "", "Q?", vec![], now())?;
        Ok(items)
    });
    match result {
        Ok(items) => file = format!("{} records", items.len()),
        Err(e) => assert!(e.starts_with("The saved questions file (questions.json) is damaged and was left untouched: ")),
    }
    assert_eq!(file, "{ not json");
}

#[test]
fn valid_store_file_is_read() {
    assert_eq!(load_from(Some("[]"), json_store), Ok(vec![]));
}

#[test]
fn damaged_store_message_text() {
    assert_eq!(
        damaged_store_message("/tmp/q.json", "EOF"),
        "The saved questions file (/tmp/q.json) is damaged and was left untouched: EOF"
    );
}

#[test]
fn ids_at_the_same_second_get_suffixes() {
    let mut p: Vec<Question> = Vec::new();
    let a = add(&mut p, "", "", "one", vec![], 0).unwrap();
    let b = add(&mut p, "", "", "two", vec![], 0).unwrap();
    let c = add(&mut p, "", "", "three", vec![], 0).unwrap();
    assert_eq!(a.id, "q_19700101_000000");
    assert_eq!(b.id, "q_19700101_000000_2");
    assert_eq!(c.id, "q_19700101_000000_3");
    assert_eq!(a.asked_at, "1970-01-01T00:00:00Z");
}

#[test]
fn add_trims_fields_and_tags() {
    let mut p: Vec<Question> = Vec::new();
    let q = add(&mut p, "  Ann ", "\tafter class\n", "  Why?  ", vec!["  a ".into(), " \u{3000} ".into(), "b".into()], 1_714_555_800).unwrap();
    assert_eq!(q.asker, "Ann");
    assert_eq!(q.context, "after class");
    assert_eq!(q.question, "Why?");
    assert_eq!(q.tags, vec!["a".to_string(), "b".to_string()]);
    assert_eq!(q.id, "q_20240501_093000");
    assert_eq!(q.asked_at, "2024-05-01T09:30:00Z");
    assert_eq!(q.draft, None);
    assert_eq!(p, vec![q]);
}

#[test]
fn blank_question_message() {
    assert_eq!(question_text(" \n "), Err("Please type the question before saving.".to_string()));
    assert_eq!(question_text(" Why? "), Ok("Why?".to_string()));
}

#[test]
fn list_is_newest_first() {
    let items = vec![
        record("q_2", "2024-01-01T00:00:00Z"),
        record("q_3", "2024-03-01T00:00:00Z"),
        record("q_1", "2024-01-01T00:00:00Z"),
        record("q_4", "2023-12-31T23:59:59Z"),
    ];
    let ids: Vec<String> = list(items).into_iter().map(|q| q.id).collect();
    assert_eq!(ids, vec!["q_3", "q_2", "q_1", "q_4"]);
}

#[test]
fn list_keeps_equal_keys_in_order() {
    let mut first = record("q_1", "2024-01-01T00:00:00Z");
    first.asker = "first".into();
    let mut second = record("q_1", "2024-01-01T00:00:00Z");
    second.asker = "second".into();
    let out = list(vec![first.clone(), record("q_0", "2025-01-01T00:00:00Z"), second.clone()]);
    assert_eq!(out[1], first);
    assert_eq!(out[2], second);
}

#[test]
fn find_gives_first_match_or_error() {
    let mut a = record("q_1", "t");
    a.asker = "first".into();
    let mut b = record("q_1", "t");
    b.asker = "second".into();
    assert_eq!(find(vec![record("q_0", "t"), a.clone(), b], "q_1"), Ok(a));
    assert_eq!(find(vec![record("q_0", "t")], "q_9"), Err("That question no longer exists.".to_string()));
}

#[test]
fn remove_drops_every_match_and_keeps_order() {
    let mut items = vec![record("q_1", "t"), record("q_2", "t"), record("q_1", "t"), record("q_3", "t")];
    assert_eq!(remove(&mut items, "q_1"), Ok(()));
    let ids: Vec<String> = items.iter().map(|q| q.id.clone()).collect();
    assert_eq!(ids, vec!["q_2", "q_3"]);
    assert_eq!(remove(&mut items, "q_1"), Err("That question no longer exists.".to_string()));
    assert_eq!(items.len(), 2);
}

#[test]
fn set_draft_on_missing_question() {
    let mut items = vec![record("q_1", "t")];
    assert_eq!(
        set_draft(&mut items, "q_2", draft("hi")),
        Err("That question was deleted while the draft was being written.".to_string())
    );
    assert_eq!(items, vec![record("q_1", "t")]);
}

#[test]
fn set_draft_then_find_gives_the_draft_back() {
    let mut items = vec![record("q_1", "t"), record("q_2", "t")];
    let updated = set_draft(&mut items, "q_2", draft("hello")).unwrap();
    assert_eq!(updated.draft, Some(draft("hello")));
    assert_eq!(items[0].draft, None);
    assert_eq!(find(items, "q_2").unwrap().draft, Some(draft("hello")));
}

#[test]
fn remove_after_add_restores_the_store() {
    let mut items = vec![record("q_19700101_000000", "t")];
    let before = items.clone();
    let q = add(&mut items, "", "", "again?", vec![], 0).unwrap();
    assert_eq!(q.id, "q_19700101_000000_2");
    remove(&mut items, &q.id).unwrap();
    assert_eq!(items, before);
}

#[test]
fn find_after_add_gives_the_record() {
    let mut items = vec![record("q_0", "t")];
    let q = add(&mut items, "Ann", "", "Is it true?", vec!["faith".into()], 86_399).unwrap();
    assert_eq!(q.asked_at, "1970-01-01T23:59:59Z");
    assert_eq!(items.last(), Some(&q));
    assert_eq!(find(items.clone(), &q.id), Ok(q.clone()));
    assert!(list(items).contains(&q));
}
