//! Drafting a first answer: the request sent to the model, the reading of its
//! reply and the messages for a refused request.

use vstd::prelude::*;
use crate::model::{Draft, DraftView, RawDraft};
use crate::text::{lemma_trimmed_is_trimmed, lemma_trimmed_nonempty_items, decimal, decimal_text, texts, trim_all, trim_text, trimmed, trimmed_nonempty};

verus! {

/// The answer when the model's reply cannot be read as a draft.
pub open spec fn unreadable_reply_text() -> Seq<char> {
    "The AI's reply wasn't in the expected format. Nothing was saved — please try Draft again."@
}

/// The message that tells the user the model's reply could not be read.
pub fn parse_err() -> (r: String)
    ensures
        r@ == unreadable_reply_text(),
{
    String::from_str(
        "The AI's reply wasn't in the expected format. Nothing was saved — please try Draft again.",
    )
}

/// `i` is the position of the first `c` in `s`.
pub open spec fn first_at(s: Seq<char>, c: char, i: int) -> bool {
    &&& 0 <= i < s.len()
    &&& s[i] == c
    &&& forall|j: int| 0 <= j < i ==> s[j] != c
}

/// `i` is the position of the last `c` in `s`.
pub open spec fn last_at(s: Seq<char>, c: char, i: int) -> bool {
    &&& 0 <= i < s.len()
    &&& s[i] == c
    &&& forall|j: int| i < j < s.len() ==> s[j] != c
}

/// The part of a reply from its first `{` to its last `}`, when that `}` comes after
/// that `{`: code fences and words around a JSON object are left out.
#[verifier::opaque]
pub open spec fn json_span(s: Seq<char>) -> Option<Seq<char>> {
    if exists|a: int, b: int| first_at(s, '{', a) && last_at(s, '}', b) && a < b {
        let (a, b) = choose|a: int, b: int| first_at(s, '{', a) && last_at(s, '}', b) && a < b;
        Some(s.subrange(a, b + 1))
    } else {
        None
    }
}

/// The reply's text from its first `{` to its last `}`.
pub fn json_object_text<'a>(text: &'a str) -> (r: Option<&'a str>)
    ensures
        match r {
            Some(t) => json_span(text@) == Some(t@),
            None => json_span(text@) is None,
        },
{
    let n = text.unicode_len();
    let mut a: usize = 0;
    while a < n && text.get_char(a) != '{'
        invariant
            n == text@.len(),
            a <= n,
            forall|j: int| 0 <= j < a ==> text@[j] != '{',
        decreases n - a,
    {
        a = a + 1;
    }
    let mut b: usize = n;
    while b > 0 && text.get_char(b - 1) != '}'
        invariant
            n == text@.len(),
            b <= n,
            forall|j: int| b <= j < n ==> text@[j] != '}',
        decreases b,
    {
        b = b - 1;
    }
    let ghost s = text@;
    proof {
        reveal(json_span);
    }
    if a < n && b > 0 && b - 1 > a {
        let e = b - 1;
        assert(first_at(s, '{', a as int) && last_at(s, '}', e as int) && a < e);
        proof {
            let (x, y) = choose|x: int, y: int| first_at(s, '{', x) && last_at(s, '}', y) && x < y;
            if x < a {
            } else if a < x {
            }
            assert(x == a);
            if y < e {
            } else if e < y {
            }
            assert(y == e);
        }
        Some(text.substring_char(a, b))
    } else {
        proof {
            if exists|x: int, y: int| first_at(s, '{', x) && last_at(s, '}', y) && x < y {
                let (x, y) = choose|x: int, y: int| first_at(s, '{', x) && last_at(s, '}', y) && x < y;
                if a < x {
                    assert(s[a as int] == '{');
                }
                if y < b - 1 {
                    assert(s[b - 1] == '}');
                }
                assert(false);
            }
        }
        None
    }
}

proof fn lemma_span_of(s: Seq<char>, a: int, b: int)
    requires
        first_at(s, '{', a),
        last_at(s, '}', b),
        a < b,
    ensures
        json_span(s) == Some(s.subrange(a, b + 1)),
{
    reveal(json_span);
    let (x, y) = choose|x: int, y: int| first_at(s, '{', x) && last_at(s, '}', y) && x < y;
    if x < a {
    } else if a < x {
    }
    if y < b {
    } else if b < y {
    }
}

/// Code fences and words around a JSON object do not change what is read: when
/// `j` starts with `{` and ends with `}`, and `p` and `q` hold no brace, the reply
/// `p + j + q` gives the decoder exactly `j`, as `j` alone does.
pub proof fn lemma_json_span_ignores_surroundings(p: Seq<char>, j: Seq<char>, q: Seq<char>)
    requires
        j.len() >= 2,
        j[0] == '{',
        j.last() == '}',
        forall|i: int| 0 <= i < p.len() ==> p[i] != '{' && p[i] != '}',
        forall|i: int| 0 <= i < q.len() ==> q[i] != '{' && q[i] != '}',
    ensures
        json_span(p + j + q) == Some(j),
        json_span(j) == Some(j),
{
    let s = p + j + q;
    let a = p.len() as int;
    let b = p.len() + j.len() - 1;
    assert(s[a] == j[0]);
    assert(s[b] == j[j.len() - 1]);
    assert forall|k: int| 0 <= k < a implies s[k] != '{' by {
        assert(s[k] == p[k]);
    }
    assert forall|k: int| b < k < s.len() implies s[k] != '}' by {
        assert(s[k] == q[k - a - j.len()]);
    }
    lemma_span_of(s, a, b);
    assert(s.subrange(a, b + 1) =~= j);
    lemma_span_of(j, 0, j.len() - 1);
    assert(j.subrange(0, j.len() as int) =~= j);
}

/// What is handed to the decoder is a piece of the reply that starts at its first
/// `{` and ends at its last `}`; a reply without a `{` hands over nothing.
pub proof fn lemma_json_span_is_outer_braces(s: Seq<char>)
    ensures
        (forall|k: int| 0 <= k < s.len() ==> s[k] != '{') ==> json_span(s) is None,
        json_span(s) matches Some(t) ==> t.len() >= 2 && t[0] == '{' && t.last() == '}' && exists|
            a: int,
            b: int,
        |
            #![trigger s.subrange(a, b + 1)]
            {
                &&& 0 <= a < b < s.len()
                &&& t == s.subrange(a, b + 1)
                &&& forall|k: int| 0 <= k < a ==> s[k] != '{'
                &&& forall|k: int| b < k < s.len() ==> s[k] != '}'
            },
{
    reveal(json_span);
    if exists|a: int, b: int| first_at(s, '{', a) && last_at(s, '}', b) && a < b {
        let (a, b) = choose|a: int, b: int| first_at(s, '{', a) && last_at(s, '}', b) && a < b;
        let t = s.subrange(a, b + 1);
        assert(t[0] == s[a]);
        assert(t.last() == s[b]);
    }
}

/// `s` cut to its first `n` items when it is longer.
pub open spec fn at_most(s: Seq<Seq<char>>, n: nat) -> Seq<Seq<char>> {
    if s.len() <= n {
        s
    } else {
        s.take(n as int)
    }
}

/// The draft made from what was decoded of the reply (`None` when it could not be
/// decoded): the answer trimmed, at most four checklist items, each trimmed and not
/// empty, and an error when the answer or the checklist is empty.
pub open spec fn finished(raw: Option<RawDraft>, model: Seq<char>, created_at: Seq<char>) -> Result<
    DraftView,
    Seq<char>,
> {
    match raw {
        None => Err(unreadable_reply_text()),
        Some(r) => {
            let d = trimmed(r.draft@);
            let v = at_most(trimmed_nonempty(texts(r.verify@)), 4);
            if d.len() == 0 || v.len() == 0 {
                Err(unreadable_reply_text())
            } else {
                Ok(DraftView { draft: d, verify: v, model, created_at })
            }
        },
    }
}

/// What reading a decoded reply gives, in terms of the decoded fields: it succeeds
/// exactly when something was decoded whose answer is more than white space and whose
/// checklist has an item that is; then the answer is the whole decoded answer trimmed,
/// the checklist the first four such items trimmed, in their order, and the model and
/// time are those given. Otherwise it is the unreadable-reply message.
pub proof fn lemma_finished_exact(raw: Option<RawDraft>, model: Seq<char>, created_at: Seq<char>)
    ensures
        finished(raw, model, created_at) is Ok == (raw matches Some(rd) && trimmed(rd.draft@).len()
            > 0 && trimmed_nonempty(texts(rd.verify@)).len() > 0),
        finished(raw, model, created_at) matches Err(e) ==> e == unreadable_reply_text(),
        finished(raw, model, created_at) matches Ok(d) ==> raw matches Some(rd) && {
            let kept = trimmed_nonempty(texts(rd.verify@));
            &&& d.draft == trimmed(rd.draft@)
            &&& d.verify.len() == (if kept.len() <= 4 { kept.len() } else { 4 })
            &&& forall|i: int| 0 <= i < d.verify.len() ==> #[trigger] d.verify[i] == kept[i]
            &&& d.model == model
            &&& d.created_at == created_at
        },
{
    if let Some(rd) = raw {
        let kept = trimmed_nonempty(texts(rd.verify@));
        let v = at_most(kept, 4);
        if kept.len() > 4 {
            assert(v.len() == 4);
        }
        assert forall|i: int| 0 <= i < v.len() implies #[trigger] v[i] == kept[i] by {}
    }
}

/// A drafting result as text.
pub open spec fn result_view(r: Result<Draft, String>) -> Result<DraftView, Seq<char>> {
    match r {
        Ok(d) => Ok(d@),
        Err(e) => Err(e@),
    }
}

/// Makes the draft from what was decoded of the model's reply.
pub fn finish_draft(raw: Option<RawDraft>, model: &str, created_at: &str) -> (r: Result<
    Draft,
    String,
>)
    ensures
        result_view(r) == finished(raw, model@, created_at@),
        r is Ok == (raw matches Some(rd) && trimmed(rd.draft@).len() > 0
            && trimmed_nonempty(texts(rd.verify@)).len() > 0),
        r matches Ok(d) ==> raw matches Some(rd) && d.draft@ == trimmed(rd.draft@)
            && d.model@ == model@ && d.created_at@ == created_at@,
        r matches Err(e) ==> e@ == unreadable_reply_text(),
{
    proof {
        lemma_finished_exact(raw, model@, created_at@);
    }
    match raw {
        None => Err(parse_err()),
        Some(raw) => {
            let draft = trim_text(raw.draft.as_str());
            let mut verify = trim_all(&raw.verify);
            let ghost all = verify@;
            verify.truncate(4);
            proof {
                if all.len() > 4 {
                    assert(texts(verify@) =~= texts(all).take(4));
                } else {
                    assert(verify@ == all);
                }
            }
            if draft.as_str().unicode_len() == 0 || verify.len() == 0 {
                Err(parse_err())
            } else {
                Ok(
                    Draft {
                        draft,
                        verify,
                        model: String::from_str(model),
                        created_at: String::from_str(created_at),
                    },
                )
            }
        },
    }
}

/// Reads the model's reply `text` as a draft. `decode` reads the JSON object
/// found in the reply; `None` stands for JSON it could not read as a draft.
pub fn parse_draft<F: Fn(&str) -> Option<RawDraft>>(
    text: &str,
    model: &str,
    created_at: &str,
    decode: F,
) -> (r: Result<Draft, String>)
    requires
        forall|s: &str| #[trigger] decode.requires((s,)),
    ensures
        json_span(text@) is None ==> result_view(r) == Err::<DraftView, Seq<char>>(
            unreadable_reply_text(),
        ),
        json_span(text@) matches Some(span) ==> exists|s: &str, raw: Option<RawDraft>|
            s@ == span && #[trigger] decode.ensures((s,), raw) && result_view(r) == finished(
                raw,
                model@,
                created_at@,
            ),
{
    match json_object_text(text) {
        None => Err(parse_err()),
        Some(object) => {
            let raw = decode(object);
            finish_draft(raw, model, created_at)
        },
    }
}

/// The answer when no model name is configured.
pub open spec fn missing_model_text() -> Seq<char> {
    "No AI model is set. Set ANTHROPIC_MODEL in your .env file."@
}

/// The model asked: the one configured when it is set to more than white space,
/// else `fallback`; an error when that is blank too.
pub open spec fn model_choice(configured: Option<Seq<char>>, fallback: Seq<char>) -> Result<
    Seq<char>,
    Seq<char>,
> {
    match configured {
        Some(m) if trimmed(m).len() > 0 => Ok(m),
        _ => if trimmed(fallback).len() > 0 {
            Ok(fallback)
        } else {
            Err(missing_model_text())
        },
    }
}

/// A configured model that is more than white space is always the one asked,
/// whatever the fallback.
pub proof fn lemma_configured_model_wins(m: Seq<char>, fallback: Seq<char>)
    requires
        trimmed(m).len() > 0,
    ensures
        model_choice(Some(m), fallback) == Ok::<Seq<char>, Seq<char>>(m),
{
}

/// Without a configured model that is more than white space, the fallback is asked
/// when it is more than white space; otherwise there is no model and that is an error.
pub proof fn lemma_fallback_model(configured: Option<Seq<char>>, fallback: Seq<char>)
    requires
        !(configured matches Some(m) && trimmed(m).len() > 0),
    ensures
        trimmed(fallback).len() > 0 ==> model_choice(configured, fallback) == Ok::<
            Seq<char>,
            Seq<char>,
        >(fallback),
        trimmed(fallback).len() == 0 ==> model_choice(configured, fallback) == Err::<
            Seq<char>,
            Seq<char>,
        >(missing_model_text()),
{
}

/// Picks the model to ask.
pub fn choose_model(configured: Option<String>, fallback: &str) -> (r: Result<String, String>)
    ensures
        text_result(r) == model_choice(
            match configured {
                Some(m) => Some(m@),
                None => None,
            },
            fallback@,
        ),
        configured is Some && trimmed(configured->0@).len() > 0 ==> r is Ok && (r matches Ok(v)
            ==> v@ == configured->0@),
{
    proof {
        if configured is Some && trimmed(configured->0@).len() > 0 {
            lemma_configured_model_wins(configured->0@, fallback@);
        }
    }
    if let Some(m) = configured {
        let t = trim_text(m.as_str());
        if t.as_str().unicode_len() > 0 {
            return Ok(m);
        }
    }
    let f = trim_text(fallback);
    if f.as_str().unicode_len() > 0 {
        Ok(String::from_str(fallback))
    } else {
        Err(String::from_str("No AI model is set. Set ANTHROPIC_MODEL in your .env file."))
    }
}

/// The user's message to the model: the question, then who asked and the context
/// when they are given.
pub open spec fn user_message_text(question: Seq<char>, context: Seq<char>, asker: Seq<char>) -> Seq<
    char,
> {
    let q = "Question: "@ + question;
    let a = if asker.len() > 0 {
        q + "\nAsked by: "@ + asker
    } else {
        q
    };
    if context.len() > 0 {
        a + "\nContext: "@ + context
    } else {
        a
    }
}

/// The user's message is the question line, then an "Asked by" line only when an
/// asker is given, then a "Context" line only when a context is given; each is kept
/// whatever the others are.
pub proof fn lemma_user_message_lines(question: Seq<char>, context: Seq<char>, asker: Seq<char>)
    ensures
        asker.len() == 0 && context.len() == 0 ==> user_message_text(question, context, asker)
            == "Question: "@ + question,
        asker.len() > 0 && context.len() == 0 ==> user_message_text(question, context, asker)
            == "Question: "@ + question + "\nAsked by: "@ + asker,
        asker.len() == 0 && context.len() > 0 ==> user_message_text(question, context, asker)
            == "Question: "@ + question + "\nContext: "@ + context,
        asker.len() > 0 && context.len() > 0 ==> user_message_text(question, context, asker)
            == "Question: "@ + question + "\nAsked by: "@ + asker + "\nContext: "@ + context,
{
}

/// Writes the user's message to the model.
pub fn user_message(question: &str, context: &str, asker: &str) -> (r: String)
    ensures
        r@ == user_message_text(question@, context@, asker@),
{
    let mut m = String::from_str("Question: ");
    m.append(question);
    if asker.unicode_len() > 0 {
        m.append("\nAsked by: ");
        m.append(asker);
    }
    if context.unicode_len() > 0 {
        m.append("\nContext: ");
        m.append(context);
    }
    m
}

/// The answer when no API key is configured.
pub open spec fn missing_key_text() -> Seq<char> {
    "No API key found. Add ANTHROPIC_API_KEY to your .env file and restart the app."@
}

/// The API key configured, when it is set to more than white space; otherwise the
/// message that asks for one.
pub fn api_key(configured: Option<String>) -> (r: Result<String, String>)
    ensures
        match configured {
            Some(k) => if trimmed(k@).len() > 0 {
                r matches Ok(v) && v@ == k@
            } else {
                r matches Err(e) && e@ == missing_key_text()
            },
            None => r matches Err(e) && e@ == missing_key_text(),
        },
{
    match configured {
        Some(k) => {
            let t = trim_text(k.as_str());
            if t.as_str().unicode_len() > 0 {
                Ok(k)
            } else {
                Err(String::from_str("No API key found. Add ANTHROPIC_API_KEY to your .env file and restart the app."))
            }
        },
        None => Err(String::from_str("No API key found. Add ANTHROPIC_API_KEY to your .env file and restart the app.")),
    }
}

/// The message for a refused request with the HTTP status `status`; `detail` is the
/// service's own explanation.
pub open spec fn error_message_text(status: u16, detail: Seq<char>) -> Seq<char> {
    if status == 401 || status == 403 {
        "The AI service rejected the API key. Check ANTHROPIC_API_KEY in your .env file."@
    } else if status == 404 {
        "The AI model was not found ("@ + detail
            + "). Set ANTHROPIC_MODEL to a current model name."@
    } else if status == 429 {
        "The AI service is busy or your usage limit was reached. Wait a moment and try again."@
    } else {
        "The AI service returned an error (HTTP "@ + decimal(status as nat) + "): "@ + detail
    }
}

/// The service's explanation, or "no details" when it gave none.
pub open spec fn detail_text(detail: Option<Seq<char>>) -> Seq<char> {
    match detail {
        Some(d) => d,
        None => "no details"@,
    }
}

/// The message for a refused request.
pub fn api_error_message(status: u16, detail: Option<&str>) -> (r: String)
    ensures
        r@ == error_message_text(
            status,
            detail_text(
                match detail {
                    Some(d) => Some(d@),
                    None => None,
                },
            ),
        ),
{
    let detail = match detail {
        Some(d) => d,
        None => "no details",
    };
    if status == 401 || status == 403 {
        String::from_str(
            "The AI service rejected the API key. Check ANTHROPIC_API_KEY in your .env file.",
        )
    } else if status == 404 {
        let mut m = String::from_str("The AI model was not found (");
        m.append(detail);
        m.append("). Set ANTHROPIC_MODEL to a current model name.");
        m
    } else if status == 429 {
        String::from_str(
            "The AI service is busy or your usage limit was reached. Wait a moment and try again.",
        )
    } else {
        let mut m = String::from_str("The AI service returned an error (HTTP ");
        let code = decimal_text(status as u128);
        m.append(code.as_str());
        m.append("): ");
        m.append(detail);
        m
    }
}


/// A draft that is made has a non-empty trimmed answer and a checklist of one to
/// four items, each trimmed and not empty.
pub proof fn lemma_draft_shape(raw: Option<RawDraft>, model: Seq<char>, created_at: Seq<char>)
    ensures
        finished(raw, model, created_at) matches Ok(d) ==> {
            &&& d.draft.len() > 0
            &&& trimmed(d.draft) == d.draft
            &&& 1 <= d.verify.len() <= 4
            &&& forall|i: int|
                0 <= i < d.verify.len() ==> (#[trigger] d.verify[i]).len() > 0 && trimmed(
                    d.verify[i],
                ) == d.verify[i]
            &&& d.model == model
            &&& d.created_at == created_at
        },
{
    if let Some(r) = raw {
        lemma_trimmed_is_trimmed(r.draft@);
        let all = trimmed_nonempty(texts(r.verify@));
        lemma_trimmed_nonempty_items(texts(r.verify@));
        let v = at_most(all, 4);
        assert forall|i: int| 0 <= i < v.len() implies (#[trigger] v[i]).len() > 0 && trimmed(v[i])
            == v[i] by {
            assert(v[i] == all[i]);
        }
    }
}


/// The answer when the service's reply holds no text block.
pub open spec fn no_text_text() -> Seq<char> {
    "The AI service returned no text."@
}

/// The text of the first block of a reply that has one.
pub open spec fn first_text(blocks: Seq<Option<String>>) -> Option<Seq<char>>
    decreases blocks.len(),
{
    if blocks.len() == 0 {
        None
    } else {
        match blocks[0] {
            Some(t) => Some(t@),
            None => first_text(blocks.drop_first()),
        }
    }
}

proof fn lemma_first_text_skip(blocks: Seq<Option<String>>, i: int)
    requires
        0 <= i <= blocks.len(),
        forall|j: int| 0 <= j < i ==> (#[trigger] blocks[j]) is None,
    ensures
        first_text(blocks) == first_text(blocks.subrange(i, blocks.len() as int)),
    decreases i,
{
    if i > 0 {
        let t = blocks.drop_first();
        assert(blocks[0] is None);
        assert forall|j: int| 0 <= j < i - 1 implies (#[trigger] t[j]) is None by {
            assert(t[j] == blocks[j + 1]);
        }
        lemma_first_text_skip(t, i - 1);
        assert(t.subrange(i - 1, t.len() as int) =~= blocks.subrange(i, blocks.len() as int));
    } else {
        assert(blocks.subrange(0, blocks.len() as int) =~= blocks);
    }
}

/// What a reply from the service comes to: for a status outside 200-299 the message
/// for a refused request, else the text of its first text block (`blocks` is `None`
/// when the reply has no list of content blocks), or an error when there is none.
pub open spec fn reply_outcome(
    status: u16,
    detail: Option<Seq<char>>,
    blocks: Option<Seq<Option<String>>>,
) -> Result<Seq<char>, Seq<char>> {
    if !(200 <= status <= 299) {
        Err(error_message_text(status, detail_text(detail)))
    } else {
        match blocks {
            None => Err(no_text_text()),
            Some(b) => match first_text(b) {
                Some(t) => Ok(t),
                None => Err(no_text_text()),
            },
        }
    }
}

/// A result carrying texts, as text.
pub open spec fn text_result(r: Result<String, String>) -> Result<Seq<char>, Seq<char>> {
    match r {
        Ok(t) => Ok(t@),
        Err(e) => Err(e@),
    }
}

/// A successful reply gives the text of its first block that has one, whatever
/// blocks come after it.
pub proof fn lemma_reply_takes_first_text(
    status: u16,
    detail: Option<Seq<char>>,
    blocks: Seq<Option<String>>,
    k: int,
)
    requires
        200 <= status <= 299,
        0 <= k < blocks.len(),
        blocks[k] is Some,
        forall|j: int| 0 <= j < k ==> (#[trigger] blocks[j]) is None,
    ensures
        reply_outcome(status, detail, Some(blocks)) == Ok::<Seq<char>, Seq<char>>(
            blocks[k]->0@,
        ),
{
    lemma_first_text_skip(blocks, k);
    let rest = blocks.subrange(k, blocks.len() as int);
    assert(rest[0] == blocks[k]);
}

/// A successful reply without any text block, or without a list of blocks, is the
/// no-text error.
pub proof fn lemma_reply_without_text(status: u16, detail: Option<Seq<char>>, blocks: Option<Seq<Option<String>>>)
    requires
        200 <= status <= 299,
        blocks matches Some(b) ==> forall|j: int| 0 <= j < b.len() ==> (#[trigger] b[j]) is None,
    ensures
        reply_outcome(status, detail, blocks) == Err::<Seq<char>, Seq<char>>(no_text_text()),
{
    if let Some(b) = blocks {
        lemma_first_text_skip(b, b.len() as int);
        assert(b.subrange(b.len() as int, b.len() as int).len() == 0);
    }
}

/// A reply with a status outside 200-299 is the refusal message for that status,
/// whatever its blocks hold.
pub proof fn lemma_reply_refused(status: u16, detail: Option<Seq<char>>, blocks: Option<Seq<Option<String>>>)
    requires
        !(200 <= status <= 299),
    ensures
        reply_outcome(status, detail, blocks) == Err::<Seq<char>, Seq<char>>(
            error_message_text(status, detail_text(detail)),
        ),
{
}

/// Reads a reply from the service: its HTTP status, the explanation it gave of an
/// error, and the texts of its content blocks (`None` for a block without text).
pub fn reply_text(status: u16, detail: Option<&str>, blocks: Option<Vec<Option<String>>>) -> (r:
    Result<String, String>)
    ensures
        text_result(r) == reply_outcome(
            status,
            match detail {
                Some(d) => Some(d@),
                None => None,
            },
            match blocks {
                Some(b) => Some(b@),
                None => None,
            },
        ),
        200 <= status <= 299 ==> forall|k: int|
            #![trigger blocks->0@[k]]
            blocks is Some && 0 <= k < blocks->0@.len() && blocks->0@[k] is Some && (forall|j: int|
                0 <= j < k ==> (#[trigger] blocks->0@[j]) is None) ==> r is Ok && (r matches Ok(t)
                ==> t@ == blocks->0@[k]->0@),
{
    proof {
        if 200 <= status <= 299 {
            if blocks is Some {
                let b = blocks->0;
                assert forall|k: int|
                    0 <= k < b@.len() && b@[k] is Some && (forall|j: int|
                        0 <= j < k ==> (#[trigger] b@[j]) is None) implies reply_outcome(
                    status,
                    match detail {
                        Some(d) => Some(d@),
                        None => None,
                    },
                    Some(b@),
                ) == Ok::<Seq<char>, Seq<char>>(b@[k]->0@) by {
                    lemma_reply_takes_first_text(
                        status,
                        match detail {
                            Some(d) => Some(d@),
                            None => None,
                        },
                        b@,
                        k,
                    );
                }
            }
        }
    }
    if !(200 <= status && status <= 299) {
        return Err(api_error_message(status, detail));
    }
    match blocks {
        None => Err(String::from_str("The AI service returned no text.")),
        Some(list) => {
            let ghost all = list@;
            let mut rest = list;
            let n = rest.len();
            let mut i: usize = 0;
            let mut found: Option<String> = None;
            while i < n && found.is_none()
                invariant
                    n == all.len(),
                    i <= n,
                    rest@ == all.subrange(i as int, n as int),
                    found is None ==> forall|j: int| 0 <= j < i ==> (#[trigger] all[j]) is None,
                    found matches Some(t) ==> first_text(all) == Some(t@),
                decreases n - i,
            {
                let b = rest.remove(0);
                assert(b == all[i as int]);
                match b {
                    Some(t) => {
                        proof {
                            lemma_first_text_skip(all, i as int);
                            let tail = all.subrange(i as int, n as int);
                            assert(tail[0] == all[i as int]);
                        }
                        found = Some(t);
                    },
                    None => {},
                }
                i = i + 1;
                assert(rest@ =~= all.subrange(i as int, n as int));
            }
            match found {
                Some(t) => Ok(t),
                None => {
                    proof {
                        lemma_first_text_skip(all, n as int);
                        assert(all.subrange(n as int, n as int).len() == 0);
                    }
                    Err(String::from_str("The AI service returned no text."))
                },
            }
        },
    }
}


/// What reading the reply `text` gives when the decoder reads the object text `o`
/// as `decoded(o)`.
pub open spec fn reading(
    text: Seq<char>,
    model: Seq<char>,
    created_at: Seq<char>,
    decoded: spec_fn(Seq<char>) -> Option<RawDraft>,
) -> Result<DraftView, Seq<char>> {
    match json_span(text) {
        None => Err(unreadable_reply_text()),
        Some(span) => finished(decoded(span), model, created_at),
    }
}

/// For a decoder that reads equal texts alike, a reply read with code fences or
/// words around its JSON object gives the same draft, or the same error, as the
/// object alone.
pub proof fn lemma_reading_ignores_surroundings(
    p: Seq<char>,
    j: Seq<char>,
    q: Seq<char>,
    model: Seq<char>,
    created_at: Seq<char>,
    decoded: spec_fn(Seq<char>) -> Option<RawDraft>,
)
    requires
        j.len() >= 2,
        j[0] == '{',
        j.last() == '}',
        forall|i: int| 0 <= i < p.len() ==> p[i] != '{' && p[i] != '}',
        forall|i: int| 0 <= i < q.len() ==> q[i] != '{' && q[i] != '}',
    ensures
        reading(p + j + q, model, created_at, decoded) == reading(j, model, created_at, decoded),
{
    lemma_json_span_ignores_surroundings(p, j, q);
}

} // verus!
