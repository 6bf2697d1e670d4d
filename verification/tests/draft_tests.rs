use question_desk::draft::{api_error_message, api_key, choose_model, reply_text, json_object_text, parse_draft, parse_err, user_message};
use question_desk::model::{Draft, RawDraft};

/// Reads a JSON object with a string `draft` and a list of strings `verify`.
fn decode(s: &str) -> Option<RawDraft> {
    let v: serde_json::Value = serde_json::from_str(s).ok()?;
    let draft = v.get("draft")?.as_str()?.to_string();
    let verify = v
        .get("verify")?
        .as_array()?
        .iter()
        .map(|x| x.as_str().map(|t| t.to_string()))
        .collect::<Option<Vec<String>>>()?;
    Some(RawDraft { draft, verify })
}

#[test]
fn parses_plain_json() {
    let d = parse_draft(r#"{"draft":"Hello","verify":["a","b"]}"#, "m", "t", decode).unwrap();
    assert_eq!(d.draft, "Hello");
    assert_eq!(d.verify.len(), 2);
}

#[test]
fn parses_fenced_json() {
    let t = "```json\n{\"draft\":\"Hi\",\"verify\":[\"x\"]}\n```";
    assert!(parse_draft(t, "m", "t", decode).is_ok());
}

#[test]
fn caps_verify_at_four() {
    let t = r#"{"draft":"Hi","verify":["1","2","3","4","5","6"]}"#;
    assert_eq!(parse_draft(t, "m", "t", decode).unwrap().verify.len(), 4);
}

#[test]
fn rejects_garbage_and_empty() {
    assert!(parse_draft("sorry, I can't", "m", "t", decode).is_err());
    assert!(parse_draft(r#"{"draft":"","verify":["a"]}"#, "m", "t", decode).is_err());
    assert!(parse_draft(r#"{"draft":"a","verify":[]}"#, "m", "t", decode).is_err());
    assert!(parse_draft(r#"{"draft":"a"}"#, "m", "t", decode).is_err());
}

#[test]
fn trims_and_drops_blank_checklist_items() {
    let t = "Sure! {\"draft\":\"  An answer. \",\"verify\":[\" one \",\"  \",\"two\",\"\",\"three\",\"four\",\"five\"]} Hope it helps.";
    let d = parse_draft(t, "model-x", "2024-05-01T09:30:00Z", decode).unwrap();
    assert_eq!(
        d,
        Draft {
            draft: "An answer.".into(),
            verify: vec!["one".into(), "two".into(), "three".into(), "four".into()],
            model: "model-x".into(),
            created_at: "2024-05-01T09:30:00Z".into(),
        }
    );
}

#[test]
fn unreadable_reply_message() {
    assert_eq!(
        parse_draft("} no object {", "m", "t", decode),
        Err("The AI's reply wasn't in the expected format. Nothing was saved — please try Draft again.".to_string())
    );
    assert_eq!(parse_err(), "The AI's reply wasn't in the expected format. Nothing was saved — please try Draft again.");
}

#[test]
fn json_object_is_cut_from_first_brace_to_last() {
    assert_eq!(json_object_text("a {b} c {d} e"), Some("{b} c {d}"));
    assert_eq!(json_object_text("é{x}"), Some("{x}"));
    assert_eq!(json_object_text("}{"), None);
    assert_eq!(json_object_text("{"), None);
    assert_eq!(json_object_text(""), None);
}

#[test]
fn decoder_sees_only_the_object() {
    let seen = std::cell::RefCell::new(String::new());
    let _ = parse_draft("```json\n{\"draft\":\"Hi\"}\n```", "m", "t", |s: &str| {
        *seen.borrow_mut() = s.to_string();
        None
    });
    assert_eq!(seen.into_inner(), "{\"draft\":\"Hi\"}");
}

#[test]
fn model_choice() {
    assert_eq!(choose_model(None, "fallback-1"), Ok("fallback-1".to_string()));
    assert_eq!(choose_model(Some("   ".into()), "fallback-1"), Ok("fallback-1".to_string()));
    assert_eq!(choose_model(Some("".into()), "fallback-1"), Ok("fallback-1".to_string()));
    assert_eq!(choose_model(Some(" other ".into()), "fallback-1"), Ok(" other ".to_string()));
    let none = Err("No AI model is set. Set ANTHROPIC_MODEL in your .env file.".to_string());
    assert_eq!(choose_model(None, ""), none);
    assert_eq!(choose_model(Some(" ".into()), " "), none);
}

#[test]
fn user_message_lists_what_is_given() {
    assert_eq!(user_message("Why?", "", ""), "Question: Why?");
    assert_eq!(user_message("Why?", "after class", "Ann"), "Question: Why?\nAsked by: Ann\nContext: after class");
    assert_eq!(user_message("Why?", "c", ""), "Question: Why?\nContext: c");
}

#[test]
fn api_error_messages() {
    let key = "The AI service rejected the API key. Check ANTHROPIC_API_KEY in your .env file.";
    assert_eq!(api_error_message(401, Some("x")), key);
    assert_eq!(api_error_message(403, None), key);
    assert_eq!(
        api_error_message(404, Some("model: foo")),
        "The AI model was not found (model: foo). Set ANTHROPIC_MODEL to a current model name."
    );
    assert_eq!(
        api_error_message(429, None),
        "The AI service is busy or your usage limit was reached. Wait a moment and try again."
    );
    assert_eq!(api_error_message(500, None), "The AI service returned an error (HTTP 500): no details");
    assert_eq!(api_error_message(529, Some("Overloaded")), "The AI service returned an error (HTTP 529): Overloaded");
}

#[test]
fn api_key_is_required() {
    let missing = Err("No API key found. Add ANTHROPIC_API_KEY to your .env file and restart the app.".to_string());
    assert_eq!(api_key(None), missing);
    assert_eq!(api_key(Some(" \n".into())), missing);
    assert_eq!(api_key(Some("k-1".into())), Ok("k-1".to_string()));
}

#[test]
fn reply_text_takes_first_text_block() {
    let blocks = Some(vec![None, Some("first".to_string()), Some("second".to_string())]);
    assert_eq!(reply_text(200, None, blocks), Ok("first".to_string()));
    let no_text = Err("The AI service returned no text.".to_string());
    assert_eq!(reply_text(200, None, Some(vec![None])), no_text);
    assert_eq!(reply_text(201, None, Some(vec![])), no_text);
    assert_eq!(reply_text(299, None, None), no_text);
}

#[test]
fn reply_text_reports_refusals() {
    assert_eq!(
        reply_text(429, None, Some(vec![Some("x".to_string())])),
        Err("The AI service is busy or your usage limit was reached. Wait a moment and try again.".to_string())
    );
    assert_eq!(
        reply_text(500, Some("boom"), None),
        Err("The AI service returned an error (HTTP 500): boom".to_string())
    );
    assert_eq!(
        reply_text(300, None, Some(vec![Some("x".to_string())])),
        Err("The AI service returned an error (HTTP 300): no details".to_string())
    );
}

#[test]
fn fences_and_chatter_do_not_change_the_draft() {
    let j = r#"{"draft":" Hi ","verify":["a", " b "]}"#;
    let alone = parse_draft(j, "m", "t", decode);
    for (p, q) in [("```json\n", "\n```"), ("Sure! Here it is: ", " Hope this helps."), ("", "")] {
        assert_eq!(parse_draft(&format!("{p}{j}{q}"), "m", "t", decode), alone);
    }
    assert_eq!(alone.unwrap().verify, vec!["a".to_string(), "b".to_string()]);
}
