//! The question store: listing newest first, finding, removing, attaching a
//! draft and adding a question, on the records that the store file holds.

use vstd::prelude::*;
use vstd::multiset::Multiset;
use crate::clock::{compact_pattern, format_utc, iso_pattern, utc_text, LAST_UTC_SECOND};
use crate::model::{Draft, Question, QuestionView};
use crate::text::{decimal, decimal_text, lemma_decimal_injective, lemma_decimal_single, texts, trim_all, trim_text, trimmed, trimmed_nonempty, compare_text, same_text, lemma_text_less_irreflexive, lemma_text_less_transitive, text_less, Order};

verus! {

broadcast use vstd::seq_lib::group_to_multiset_ensures;

/// `a` is listed before `b`: it was asked later, or at the same time with a
/// greater id (both compared as text; ISO-8601 UTC stamps sort correctly as text).
pub open spec fn precedes(a: Question, b: Question) -> bool {
    ||| text_less(b.asked_at@, a.asked_at@)
    ||| (a.asked_at@ == b.asked_at@ && text_less(b.id@, a.id@))
}

/// No question in `s` is listed after one that it should precede.
pub open spec fn newest_first(s: Seq<Question>) -> bool {
    forall|i: int, j: int| 0 <= i < j < s.len() ==> !precedes(#[trigger] s[j], #[trigger] s[i])
}

/// In a newest-first listing no question comes before one asked later (stamps
/// compared as text), and of two asked at the same time the greater id comes first.
pub proof fn lemma_listing_order(s: Seq<Question>, i: int, j: int)
    requires
        newest_first(s),
        0 <= i < j < s.len(),
    ensures
        !text_less(s[i].asked_at@, s[j].asked_at@),
        s[i].asked_at@ == s[j].asked_at@ ==> !text_less(s[i].id@, s[j].id@),
{
    assert(!precedes(s[j], s[i]));
}

/// `precedes` never relates a question to itself.
pub proof fn lemma_precedes_irreflexive(a: Question)
    ensures
        !precedes(a, a),
{
    lemma_text_less_irreflexive(a.asked_at@);
    lemma_text_less_irreflexive(a.id@);
}

/// `precedes` is transitive.
pub proof fn lemma_precedes_transitive(a: Question, b: Question, c: Question)
    requires
        precedes(a, b),
        precedes(b, c),
    ensures
        precedes(a, c),
{
    if text_less(b.asked_at@, a.asked_at@) && text_less(c.asked_at@, b.asked_at@) {
        lemma_text_less_transitive(c.asked_at@, b.asked_at@, a.asked_at@);
    } else if text_less(c.id@, b.id@) && text_less(b.id@, a.id@) && a.asked_at@ == b.asked_at@
        && b.asked_at@ == c.asked_at@ {
        lemma_text_less_transitive(c.id@, b.id@, a.id@);
    }
}

/// `precedes` never holds both ways.
pub proof fn lemma_precedes_asymmetric(a: Question, b: Question)
    requires
        precedes(a, b),
    ensures
        !precedes(b, a),
{
    if precedes(b, a) {
        lemma_precedes_transitive(a, b, a);
        lemma_precedes_irreflexive(a);
    }
}

/// Decides `precedes`.
pub fn comes_before(a: &Question, b: &Question) -> (r: bool)
    ensures
        r == precedes(*a, *b),
{
    match compare_text(b.asked_at.as_str(), a.asked_at.as_str()) {
        Order::Less => true,
        Order::Greater => false,
        Order::Equal => {
            match compare_text(b.id.as_str(), a.id.as_str()) {
                Order::Less => true,
                _ => false,
            }
        },
    }
}

/// `a` and `b` were asked at the same time and have the same id, so neither is
/// listed before the other.
pub open spec fn same_key(a: Question, b: Question) -> bool {
    a.asked_at@ == b.asked_at@ && a.id@ == b.id@
}

/// The questions of `s` with the time and id of `k`, in the order of `s`.
pub open spec fn with_key(s: Seq<Question>, k: Question) -> Seq<Question>
    decreases s.len(),
{
    if s.len() == 0 {
        Seq::empty()
    } else {
        let r = with_key(s.drop_last(), k);
        if same_key(s.last(), k) {
            r.push(s.last())
        } else {
            r
        }
    }
}

proof fn lemma_with_key_concat(a: Seq<Question>, b: Seq<Question>, k: Question)
    ensures
        with_key(a + b, k) == with_key(a, k) + with_key(b, k),
    decreases b.len(),
{
    if b.len() == 0 {
        assert(a + b =~= a);
        assert(with_key(a, k) + with_key(b, k) =~= with_key(a, k));
    } else {
        lemma_with_key_concat(a, b.drop_last(), k);
        assert((a + b).drop_last() =~= a + b.drop_last());
        assert((a + b).last() == b.last());
        if same_key(b.last(), k) {
            assert(with_key(a, k) + with_key(b.drop_last(), k).push(b.last()) =~= (with_key(a, k)
                + with_key(b.drop_last(), k)).push(b.last()));
        }
    }
}

proof fn lemma_with_key_none(s: Seq<Question>, k: Question)
    requires
        forall|i: int| 0 <= i < s.len() ==> !same_key(#[trigger] s[i], k),
    ensures
        with_key(s, k) == Seq::<Question>::empty(),
    decreases s.len(),
{
    if s.len() > 0 {
        lemma_with_key_none(s.drop_last(), k);
        assert(!same_key(s[s.len() - 1], k));
    }
}

proof fn lemma_with_key_single(x: Question, k: Question)
    ensures
        with_key(seq![x], k) == (if same_key(x, k) { seq![x] } else { Seq::<Question>::empty() }),
{
    assert(seq![x].drop_last() =~= Seq::<Question>::empty());
    assert(with_key(Seq::<Question>::empty(), k) == Seq::<Question>::empty());
    if same_key(x, k) {
        assert(Seq::<Question>::empty().push(x) =~= seq![x]);
    }
}

proof fn lemma_insert_multiset(s: Seq<Question>, p: int, x: Question)
    requires
        0 <= p <= s.len(),
    ensures
        s.insert(p, x).to_multiset() =~= s.to_multiset().insert(x),
{
    let t = s.insert(p, x);
    s.insert_ensures(p, x);
    assert(t.remove(p) =~= s);
    assert(t[p] == x);
    assert(t.contains(x));
    assert(t.to_multiset().remove(x) =~= s.to_multiset());
}

/// Orders `items` newest first, keeping every record.
pub fn sort_newest_first(items: &mut Vec<Question>)
    ensures
        newest_first(final(items)@),
        forall|i: int, j: int|
            0 <= i < j < final(items)@.len() ==> !text_less(
                #[trigger] final(items)@[i].asked_at@,
                #[trigger] final(items)@[j].asked_at@,
            ) && (final(items)@[i].asked_at@ == final(items)@[j].asked_at@ ==> !text_less(final(items)@[i].id@, final(items)@[j].id@)),
        final(items)@.to_multiset() == old(items)@.to_multiset(),
        forall|k: Question| #[trigger] with_key(final(items)@, k) == with_key(old(items)@, k),
{
    let ghost all = old(items)@.to_multiset();
    let ghost orig = old(items)@;
    assert forall|k: Question| #[trigger] with_key(orig, k) == with_key(Seq::<Question>::empty(), k)
        + with_key(orig, k) by {
        assert(with_key(Seq::<Question>::empty(), k) + with_key(orig, k) =~= with_key(orig, k));
    }
    let mut sorted: Vec<Question> = Vec::new();
    while items.len() > 0
        invariant
            newest_first(sorted@),
            sorted@.to_multiset().add(items@.to_multiset()) == all,
            forall|k: Question| #[trigger] with_key(orig, k) == with_key(sorted@, k) + with_key(
                items@,
                k,
            ),
        decreases items.len(),
    {
        let ghost before = items@;
        let x = items.remove(0);
        assert(before.remove(0) == items@);
        let mut p: usize = 0;
        while p < sorted.len() && !comes_before(&x, &sorted[p])
            invariant
                p <= sorted.len(),
                forall|k: int| 0 <= k < p ==> !precedes(x, #[trigger] sorted@[k]),
            decreases sorted.len() - p,
        {
            p = p + 1;
        }
        let ghost s = sorted@;
        sorted.insert(p, x);
        proof {
            s.insert_ensures(p as int, x);
            assert(sorted@ =~= s.insert(p as int, x));
            lemma_insert_multiset(s, p as int, x);
            assert(sorted@.to_multiset().add(items@.to_multiset()) =~= all);
            assert(before =~= seq![x] + items@);
            assert(s =~= s.subrange(0, p as int) + s.subrange(p as int, s.len() as int));
            assert(sorted@ =~= s.subrange(0, p as int).push(x) + s.subrange(
                p as int,
                s.len() as int,
            ));
            assert forall|k: Question| #[trigger] with_key(orig, k) == with_key(sorted@, k)
                + with_key(items@, k) by {
                let lo = s.subrange(0, p as int);
                let hi = s.subrange(p as int, s.len() as int);
                lemma_with_key_concat(seq![x], items@, k);
                lemma_with_key_single(x, k);
                lemma_with_key_concat(lo, hi, k);
                lemma_with_key_concat(lo.push(x), hi, k);
                if same_key(x, k) {
                    assert forall|i: int| 0 <= i < hi.len() implies !same_key(#[trigger] hi[i], k) by {
                        if same_key(hi[i], k) {
                            assert(hi[i] == s[p + i]);
                            assert(precedes(x, s[p as int]));
                            if i == 0 {
                                lemma_precedes_irreflexive(s[p as int]);
                            } else {
                                assert(!precedes(s[p + i], s[p as int]));
                            }
                        }
                    }
                    lemma_with_key_none(hi, k);
                    assert(lo.push(x).drop_last() =~= lo);
                    assert(with_key(lo.push(x), k) == with_key(lo, k).push(x));
                    assert(with_key(lo, k) + with_key(hi, k) =~= with_key(lo, k));
                    assert(with_key(lo.push(x), k) + with_key(hi, k) =~= with_key(lo, k).push(x));
                    assert(with_key(s, k).push(x) + with_key(items@, k) =~= with_key(s, k) + (seq![x]
                        + with_key(items@, k)));
                } else {
                    assert(lo.push(x).drop_last() =~= lo);
                    assert(with_key(lo.push(x), k) == with_key(lo, k));
                    assert(Seq::<Question>::empty() + with_key(items@, k) =~= with_key(items@, k));
                }
            }
            assert forall|i: int, j: int| 0 <= i < j < sorted@.len() implies !precedes(
                #[trigger] sorted@[j],
                #[trigger] sorted@[i],
            ) by {
                if j < p {
                    assert(sorted@[i] == s[i] && sorted@[j] == s[j]);
                } else if j == p {
                    assert(sorted@[i] == s[i]);
                } else if i == p {
                    // sorted@[j] == s[j - 1]; p < s.len() and x precedes s[p]
                    assert(sorted@[j] == s[j - 1]);
                    assert(precedes(x, s[p as int]));
                    if precedes(s[j - 1], x) {
                        if j - 1 == p {
                            lemma_precedes_asymmetric(x, s[p as int]);
                        } else {
                            lemma_precedes_transitive(s[j - 1], x, s[p as int]);
                        }
                    }
                } else if i < p {
                    assert(sorted@[i] == s[i] && sorted@[j] == s[j - 1]);
                } else {
                    assert(sorted@[i] == s[i - 1] && sorted@[j] == s[j - 1]);
                }
            }
        }
    }
    assert(items@.to_multiset() =~= Multiset::empty());
    assert(sorted@.to_multiset() =~= all);
    assert forall|k: Question| #[trigger] with_key(sorted@, k) == with_key(orig, k) by {
        assert(with_key(items@, k) == Seq::<Question>::empty());
        assert(with_key(sorted@, k) + with_key(items@, k) =~= with_key(sorted@, k));
    }
    proof {
        assert forall|i: int, j: int| 0 <= i < j < sorted@.len() implies !text_less(
            #[trigger] sorted@[i].asked_at@,
            #[trigger] sorted@[j].asked_at@,
        ) && (sorted@[i].asked_at@ == sorted@[j].asked_at@ ==> !text_less(sorted@[i].id@, sorted@[j].id@)) by {
            lemma_listing_order(sorted@, i, j);
        }
    }
    *items = sorted;
}

/// All stored questions, newest first.
pub fn list(items: Vec<Question>) -> (r: Vec<Question>)
    ensures
        newest_first(r@),
        forall|i: int, j: int|
            0 <= i < j < r@.len() ==> !text_less(
                #[trigger] r@[i].asked_at@,
                #[trigger] r@[j].asked_at@,
            ) && (r@[i].asked_at@ == r@[j].asked_at@ ==> !text_less(r@[i].id@, r@[j].id@)),
        r@.to_multiset() == items@.to_multiset(),
        forall|k: Question| #[trigger] with_key(r@, k) == with_key(items@, k),
{
    let mut items = items;
    sort_newest_first(&mut items);
    items
}


/// Some question in `s` has the id `id`.
pub open spec fn holds_id(s: Seq<Question>, id: Seq<char>) -> bool {
    exists|i: int| 0 <= i < s.len() && (#[trigger] s[i]).id@ == id
}

/// `i` is the position of the first question in `s` with the id `id`.
pub open spec fn first_with_id(s: Seq<Question>, id: Seq<char>, i: int) -> bool {
    &&& 0 <= i < s.len()
    &&& s[i].id@ == id
    &&& forall|j: int| 0 <= j < i ==> (#[trigger] s[j]).id@ != id
}

/// The questions of `s` whose id is not `id`, in the order of `s`.
pub open spec fn without_id(s: Seq<Question>, id: Seq<char>) -> Seq<Question>
    decreases s.len(),
{
    if s.len() == 0 {
        Seq::empty()
    } else {
        let r = without_id(s.drop_last(), id);
        if s.last().id@ == id {
            r
        } else {
            r.push(s.last())
        }
    }
}

/// `q` with `d` as its draft.
pub open spec fn with_draft(q: Question, d: Draft) -> Question {
    Question { draft: Some(d), ..q }
}

/// The answer when the question asked for is not in the store.
pub open spec fn missing_text() -> Seq<char> {
    "That question no longer exists."@
}

/// The answer when a draft arrives for a question that is no longer stored.
pub open spec fn deleted_text() -> Seq<char> {
    "That question was deleted while the draft was being written."@
}

/// The position of the first question with the id `id`.
pub fn position_of(items: &Vec<Question>, id: &str) -> (r: Option<usize>)
    ensures
        match r {
            Some(i) => first_with_id(items@, id@, i as int),
            None => !holds_id(items@, id@),
        },
{
    let n = items.len();
    for i in 0..n
        invariant
            n == items@.len(),
            forall|j: int| 0 <= j < i ==> (#[trigger] items@[j]).id@ != id@,
    {
        if same_text(items[i].id.as_str(), id) {
            return Some(i);
        }
    }
    None
}

/// The first stored question with the id `id`.
pub fn find(items: Vec<Question>, id: &str) -> (r: Result<Question, String>)
    ensures
        r is Ok == holds_id(items@, id@),
        r matches Ok(q) ==> exists|i: int| first_with_id(items@, id@, i) && q == items@[i],
        r matches Err(e) ==> e@ == missing_text(),
{
    let mut items = items;
    match position_of(&items, id) {
        Some(i) => {
            let ghost s = items@;
            let q = items.remove(i);
            assert(first_with_id(s, id@, i as int) && q == s[i as int]);
            Ok(q)
        },
        None => Err(String::from_str("That question no longer exists.")),
    }
}

/// Removes every question with the id `id`; it is an error when there is none.
pub fn remove(items: &mut Vec<Question>, id: &str) -> (r: Result<(), String>)
    ensures
        final(items)@ == without_id(old(items)@, id@),
        r is Ok == holds_id(old(items)@, id@),
        r matches Err(e) ==> e@ == missing_text(),
{
    let ghost orig = items@;
    let mut rest: Vec<Question> = Vec::new();
    std::mem::swap(items, &mut rest);
    let mut kept: Vec<Question> = Vec::new();
    let mut found = false;
    let n = rest.len();
    let mut i: usize = 0;
    assert(orig.subrange(0, 0) =~= Seq::<Question>::empty());
    assert(orig.subrange(0, n as int) =~= orig);
    while i < n
        invariant
            n == orig.len(),
            i <= n,
            rest@ == orig.subrange(i as int, n as int),
            kept@ == without_id(orig.subrange(0, i as int), id@),
            found == holds_id(orig.subrange(0, i as int), id@),
        decreases n - i,
    {
        let ghost prefix = orig.subrange(0, i as int);
        let q = rest.remove(0);
        assert(q == orig[i as int]);
        let ghost next = orig.subrange(0, i + 1);
        assert(next.drop_last() =~= prefix);
        assert(next.last() == q);
        if same_text(q.id.as_str(), id) {
            found = true;
            assert(next[i as int].id@ == id@);
        } else {
            kept.push(q);
            proof {
                if holds_id(next, id@) {
                    let j = choose|j: int| 0 <= j < next.len() && (#[trigger] next[j]).id@ == id@;
                    assert(prefix[j] == next[j]);
                }
            }
        }
        proof {
            if holds_id(prefix, id@) {
                let j = choose|j: int| 0 <= j < prefix.len() && (#[trigger] prefix[j]).id@ == id@;
                assert(next[j] == prefix[j]);
            }
        }
        i = i + 1;
        assert(rest@ =~= orig.subrange(i as int, n as int));
    }
    *items = kept;
    if found {
        Ok(())
    } else {
        Err(String::from_str("That question no longer exists."))
    }
}

/// Gives the first question with the id `id` the draft `draft`, and returns it.
pub fn set_draft(items: &mut Vec<Question>, id: &str, draft: Draft) -> (r: Result<Question, String>)
    ensures
        r is Ok == holds_id(old(items)@, id@),
        r matches Ok(q) ==> exists|i: int|
            first_with_id(old(items)@, id@, i) && final(items)@ == old(items)@.update(
                i,
                with_draft(old(items)@[i], draft),
            ) && q@ == with_draft(old(items)@[i], draft)@,
        r matches Err(e) ==> e@ == deleted_text() && final(items)@ == old(items)@,
{
    match position_of(items, id) {
        Some(i) => {
            let ghost s = items@;
            let mut q = items.remove(i);
            q.draft = Some(draft);
            let copy = q.duplicate();
            items.insert(i, q);
            assert(items@ =~= s.update(i as int, with_draft(s[i as int], draft)));
            Ok(copy)
        },
        None => Err(String::from_str("That question was deleted while the draft was being written.")),
    }
}


/// The message for a store file at `path` whose contents could not be read as
/// questions; `detail` says why.
pub open spec fn damaged_store_text(path: Seq<char>, detail: Seq<char>) -> Seq<char> {
    "The saved questions file ("@ + path + ") is damaged and was left untouched: "@ + detail
}

/// Writes the message for a damaged store file.
pub fn damaged_store_message(path: &str, detail: &str) -> (r: String)
    ensures
        r@ == damaged_store_text(path@, detail@),
{
    let mut m = String::from_str("The saved questions file (");
    m.append(path);
    m.append(") is damaged and was left untouched: ");
    m.append(detail);
    m
}

/// The answer when the question is blank.
pub open spec fn blank_question_text() -> Seq<char> {
    "Please type the question before saving."@
}

/// The question typed in, trimmed; it is an error when nothing is left.
pub fn question_text(question: &str) -> (r: Result<String, String>)
    ensures
        r is Ok == (trimmed(question@).len() > 0),
        r matches Ok(t) ==> t@ == trimmed(question@),
        r matches Err(e) ==> e@ == blank_question_text(),
{
    let t = trim_text(question);
    if t.as_str().unicode_len() == 0 {
        Err(String::from_str("Please type the question before saving."))
    } else {
        Ok(t)
    }
}

/// The id stem of a question asked at the instant `secs`.
pub open spec fn id_base(secs: int) -> Seq<char> {
    "q_"@ + utc_text(secs, compact_pattern())
}

/// The `k`-th id tried from the stem `base`: the stem itself, then the stem with
/// `_2`, `_3` and so on.
pub open spec fn id_candidate(base: Seq<char>, k: nat) -> Seq<char> {
    if k <= 1 {
        base
    } else {
        base + "_"@ + decimal(k)
    }
}

/// `id` is the first id from the stem `base` that no question of `s` has.
pub open spec fn first_free_id(s: Seq<Question>, base: Seq<char>, id: Seq<char>) -> bool {
    exists|k: nat|
        #![trigger id_candidate(base, k)]
        {
            &&& k >= 1
            &&& id == id_candidate(base, k)
            &&& !holds_id(s, id)
            &&& forall|j: nat| 1 <= j < k ==> holds_id(s, #[trigger] id_candidate(base, j))
        }
}

/// What adding a question at the instant `now` does to the store `before`, giving
/// `after` and the result `r`.
pub open spec fn add_outcome(
    before: Seq<Question>,
    after: Seq<Question>,
    asker: Seq<char>,
    context: Seq<char>,
    question: Seq<char>,
    tags: Seq<Seq<char>>,
    now: int,
    r: Result<Question, String>,
) -> bool {
    if trimmed(question).len() == 0 {
        &&& r matches Err(e) && e@ == blank_question_text()
        &&& after == before
    } else {
        &&& r matches Ok(q) && {
            &&& first_free_id(before, id_base(now), q.id@)
            &&& q@ == QuestionView {
                id: q.id@,
                asked_at: utc_text(now, iso_pattern()),
                asker: trimmed(asker),
                context: trimmed(context),
                question: trimmed(question),
                tags: trimmed_nonempty(tags),
                draft: None,
            }
            &&& after.len() == before.len() + 1
            &&& after.drop_last() == before
            &&& after.last()@ == q@
        }
    }
}

proof fn lemma_candidates_differ(base: Seq<char>, a: nat, b: nat)
    requires
        1 <= a,
        1 <= b,
        a != b,
    ensures
        id_candidate(base, a) != id_candidate(base, b),
{
    if id_candidate(base, a) == id_candidate(base, b) {
        lemma_decimal_single(a);
        lemma_decimal_single(b);
        let sep = "_"@;
        assert(sep.len() == 1) by {
            reveal_strlit("_");
        }
        if a <= 1 || b <= 1 {
            assert(id_candidate(base, a).len() != id_candidate(base, b).len());
        } else {
            let ca = id_candidate(base, a);
            let cb = id_candidate(base, b);
            let start = base.len() + 1;
            assert(ca.subrange(start as int, ca.len() as int) =~= decimal(a));
            assert(cb.subrange(start as int, cb.len() as int) =~= decimal(b));
            lemma_decimal_injective(a, b);
        }
    }
}

proof fn lemma_distinct_within(tried: Seq<Seq<char>>, ids: Seq<Seq<char>>)
    requires
        tried.no_duplicates(),
        forall|i: int| 0 <= i < tried.len() ==> ids.contains(#[trigger] tried[i]),
    ensures
        tried.len() <= ids.len(),
{
    tried.unique_seq_to_set();
    ids.lemma_cardinality_of_set();
    assert(tried.to_set().subset_of(ids.to_set())) by {
        assert forall|x: Seq<char>| tried.to_set().contains(x) implies ids.to_set().contains(x) by {
            let i = choose|i: int| 0 <= i < tried.len() && tried[i] == x;
            assert(ids.contains(tried[i]));
        }
    }
    vstd::set_lib::lemma_len_subset(tried.to_set(), ids.to_set());
}

/// The first id from the stem `base` that no question of `items` has.
fn free_id(items: &Vec<Question>, base: &String) -> (r: String)
    ensures
        first_free_id(items@, base@, r@),
{
    let ghost ids = items@.map_values(|q: Question| q.id@);
    let mut id = base.clone();
    let mut k: u128 = 1;
    let ghost mut tried: Seq<Seq<char>> = Seq::empty();
    while position_of(items, id.as_str()).is_some()
        invariant
            1 <= k,
            k - 1 <= items@.len(),
            id@ == id_candidate(base@, k as nat),
            tried.len() == k - 1,
            tried.no_duplicates(),
            forall|i: int| 0 <= i < tried.len() ==> #[trigger] tried[i] == id_candidate(base@, (i + 1) as nat),
            forall|i: int| 0 <= i < tried.len() ==> ids.contains(#[trigger] tried[i]),
            forall|j: nat| 1 <= j < k ==> holds_id(items@, #[trigger] id_candidate(base@, j)),
            ids == items@.map_values(|q: Question| q.id@),
        decreases items@.len() + 1 - k,
    {
        proof {
            let w = choose|w: int| 0 <= w < items@.len() && (#[trigger] items@[w]).id@ == id@;
            assert(ids[w] == id@);
            assert forall|i: int| 0 <= i < tried.len() implies tried[i] != id@ by {
                lemma_candidates_differ(base@, (i + 1) as nat, k as nat);
            }
            let next = tried.push(id@);
            assert forall|i: int, j: int| 0 <= i < next.len() && 0 <= j < next.len() && i != j implies next[i] != next[j] by {
                if i < tried.len() && j < tried.len() {
                } else if i < tried.len() {
                    assert(next[j] == id@);
                } else {
                    assert(next[i] == id@);
                }
            }
            assert forall|i: int| 0 <= i < next.len() implies ids.contains(#[trigger] next[i]) by {
                if i == tried.len() {
                    assert(ids[w] == next[i]);
                } else {
                    assert(next[i] == tried[i]);
                }
            }
            lemma_distinct_within(next, ids);
            assert(ids.len() == items@.len());
            assert(k <= items@.len());
            assert(items@.len() == items.len() && items.len() <= usize::MAX);
            assert forall|j: nat| 1 <= j < k + 1 implies holds_id(items@, #[trigger] id_candidate(base@, j)) by {
                if j == k {
                    assert(items@[w].id@ == id_candidate(base@, j));
                }
            }
            tried = next;
        }
        k = k + 1;
        let mut c = base.clone();
        c.append("_");
        let digits = decimal_text(k);
        c.append(digits.as_str());
        id = c;
    }
    proof {
        assert(!holds_id(items@, id@));
        assert(first_free_id(items@, base@, id@) ) by {
            assert(id@ == id_candidate(base@, k as nat));
        }
    }
    id
}

/// Adds a question asked at the instant `now` (seconds since the Unix epoch, as
/// the UTC clock gives it) to `items` and returns the new record.
pub fn add(
    items: &mut Vec<Question>,
    asker: &str,
    context: &str,
    question: &str,
    tags: Vec<String>,
    now: i64,
) -> (r: Result<Question, String>)
    requires
        0 <= now <= LAST_UTC_SECOND,
    ensures
        add_outcome(old(items)@, final(items)@, asker@, context@, question@, texts(tags@), now as int, r),
        r is Ok == (trimmed(question@).len() > 0),
        r is Err ==> final(items)@ == old(items)@,
        r matches Ok(q) ==> {
            &&& q.asker@ == trimmed(asker@)
            &&& q.context@ == trimmed(context@)
            &&& q.question@ == trimmed(question@)
            &&& texts(q.tags@) == trimmed_nonempty(texts(tags@))
            &&& q.asked_at@ == utc_text(now as int, iso_pattern())
            &&& q.draft is None
            &&& !holds_id(old(items)@, q.id@)
            &&& final(items)@.len() == old(items)@.len() + 1
            &&& final(items)@.drop_last() == old(items)@
            &&& final(items)@.last()@ == q@
        },
{
    let question = match question_text(question) {
        Ok(t) => t,
        Err(e) => return Err(e),
    };
    let mut base = String::from_str("q_");
    let stamp = format_utc(now, "%Y%m%d_%H%M%S");
    base.append(stamp.as_str());
    let id = free_id(items, &base);
    let record = Question {
        id,
        asked_at: format_utc(now, "%Y-%m-%dT%H:%M:%SZ"),
        asker: trim_text(asker),
        context: trim_text(context),
        question,
        tags: trim_all(&tags),
        draft: None,
    };
    let ghost before = items@;
    items.push(record.duplicate());
    assert(items@.drop_last() =~= before);
    Ok(record)
}



/// No two questions of `s` share an id.
pub open spec fn unique_ids(s: Seq<Question>) -> bool {
    forall|i: int, j: int| 0 <= i < j < s.len() ==> (#[trigger] s[i]).id@ != (#[trigger] s[j]).id@
}

/// An added question gets an id that no stored question has, so ids stay unique,
/// even for questions added within the same second.
pub proof fn lemma_add_keeps_ids_unique(
    before: Seq<Question>,
    after: Seq<Question>,
    asker: Seq<char>,
    context: Seq<char>,
    question: Seq<char>,
    tags: Seq<Seq<char>>,
    now: int,
    r: Result<Question, String>,
)
    requires
        add_outcome(before, after, asker, context, question, tags, now, r),
        unique_ids(before),
    ensures
        r matches Ok(q) ==> !holds_id(before, q.id@),
        unique_ids(after),
{
    if let Ok(q) = r {
        let k = choose|k: nat|
            #![trigger id_candidate(id_base(now), k)]
            {
                &&& k >= 1
                &&& q.id@ == id_candidate(id_base(now), k)
                &&& !holds_id(before, q.id@)
                &&& forall|j: nat| 1 <= j < k ==> holds_id(before, #[trigger] id_candidate(id_base(now), j))
            };
        assert forall|i: int, j: int| 0 <= i < j < after.len() implies (#[trigger] after[i]).id@
            != (#[trigger] after[j]).id@ by {
            if j == after.len() - 1 {
                assert(after[j]@ == q@);
                assert(after[i] == before[i]);
                if after[i].id@ == q.id@ {
                    assert(before[i].id@ == q.id@);
                }
            } else {
                assert(after[i] == before[i]);
                assert(after[j] == before[j]);
            }
        }
    }
}

proof fn lemma_without_absent_id(s: Seq<Question>, id: Seq<char>)
    requires
        !holds_id(s, id),
    ensures
        without_id(s, id) == s,
    decreases s.len(),
{
    if s.len() > 0 {
        let t = s.drop_last();
        if holds_id(t, id) {
            let w = choose|w: int| 0 <= w < t.len() && (#[trigger] t[w]).id@ == id;
            assert(s[w] == t[w]);
        }
        lemma_without_absent_id(t, id);
        assert(s.last() == s[s.len() - 1]);
        assert(t.push(s.last()) =~= s);
    }
}

/// An added question holds what was typed in, each field trimmed, whoever asked:
/// the asker, the context, the question and the tags (blank tags dropped), the
/// stamp of the instant it was added, no draft, and an id no stored question has.
pub proof fn lemma_added_record(
    before: Seq<Question>,
    after: Seq<Question>,
    asker: Seq<char>,
    context: Seq<char>,
    question: Seq<char>,
    tags: Seq<Seq<char>>,
    now: int,
    q: Question,
)
    requires
        add_outcome(before, after, asker, context, question, tags, now, Ok(q)),
    ensures
        trimmed(question).len() > 0,
        q.asker@ == trimmed(asker),
        q.context@ == trimmed(context),
        q.question@ == trimmed(question),
        texts(q.tags@) == trimmed_nonempty(tags),
        q.asked_at@ == utc_text(now, iso_pattern()),
        q.draft is None,
        !holds_id(before, q.id@),
{
    let k = choose|k: nat|
        #![trigger id_candidate(id_base(now), k)]
        {
            &&& k >= 1
            &&& q.id@ == id_candidate(id_base(now), k)
            &&& !holds_id(before, q.id@)
            &&& forall|j: nat| 1 <= j < k ==> holds_id(before, #[trigger] id_candidate(id_base(now), j))
        };
    assert(q@.draft is None);
}

/// A blank question is refused with its message and the store is left as it was.
pub proof fn lemma_blank_question_refused(
    before: Seq<Question>,
    after: Seq<Question>,
    asker: Seq<char>,
    context: Seq<char>,
    question: Seq<char>,
    tags: Seq<Seq<char>>,
    now: int,
    r: Result<Question, String>,
)
    requires
        add_outcome(before, after, asker, context, question, tags, now, r),
        trimmed(question).len() == 0,
    ensures
        r matches Err(e) && e@ == blank_question_text(),
        after == before,
{
}

/// A question just added is what finding its id then gives back: it is the last
/// record and the only one with that id.
pub proof fn lemma_find_after_add(
    before: Seq<Question>,
    after: Seq<Question>,
    asker: Seq<char>,
    context: Seq<char>,
    question: Seq<char>,
    tags: Seq<Seq<char>>,
    now: int,
    q: Question,
)
    requires
        add_outcome(before, after, asker, context, question, tags, now, Ok(q)),
    ensures
        first_with_id(after, q.id@, before.len() as int),
        after[before.len() as int]@ == q@,
{
    let k = choose|k: nat|
        #![trigger id_candidate(id_base(now), k)]
        {
            &&& k >= 1
            &&& q.id@ == id_candidate(id_base(now), k)
            &&& !holds_id(before, q.id@)
            &&& forall|j: nat| 1 <= j < k ==> holds_id(before, #[trigger] id_candidate(id_base(now), j))
        };
    assert(after[before.len() as int] == after.last());
    assert forall|j: int| 0 <= j < before.len() implies (#[trigger] after[j]).id@ != q.id@ by {
        assert(after[j] == before[j]);
    }
}

/// Removing the question just added gives the store back as it was before.
pub proof fn lemma_remove_undoes_add(
    before: Seq<Question>,
    after: Seq<Question>,
    asker: Seq<char>,
    context: Seq<char>,
    question: Seq<char>,
    tags: Seq<Seq<char>>,
    now: int,
    q: Question,
)
    requires
        add_outcome(before, after, asker, context, question, tags, now, Ok(q)),
    ensures
        holds_id(after, q.id@),
        without_id(after, q.id@) == before,
{
    let k = choose|k: nat|
        #![trigger id_candidate(id_base(now), k)]
        {
            &&& k >= 1
            &&& q.id@ == id_candidate(id_base(now), k)
            &&& !holds_id(before, q.id@)
            &&& forall|j: nat| 1 <= j < k ==> holds_id(before, #[trigger] id_candidate(id_base(now), j))
        };
    assert(after[after.len() - 1].id@ == q.id@);
    lemma_without_absent_id(before, q.id@);
}

/// After a removal no question with that id is left, so removing it again is an error.
pub proof fn lemma_removed_id_is_gone(s: Seq<Question>, id: Seq<char>)
    ensures
        !holds_id(without_id(s, id), id),
    decreases s.len(),
{
    if s.len() > 0 {
        let t = s.drop_last();
        lemma_removed_id_is_gone(t, id);
        let r = without_id(t, id);
        if s.last().id@ != id && holds_id(r.push(s.last()), id) {
            let w = choose|w: int| 0 <= w < r.len() + 1 && (#[trigger] r.push(s.last())[w]).id@ == id;
            assert(r.push(s.last())[w] == r[w]);
        }
    }
}

proof fn lemma_without_id_from(s: Seq<Question>, id: Seq<char>)
    ensures
        forall|i: int|
            0 <= i < without_id(s, id).len() ==> exists|j: int|
                0 <= j < s.len() && s[j] == #[trigger] without_id(s, id)[i],
        forall|i: int|
            0 <= i < without_id(s, id).len() ==> (#[trigger] without_id(s, id)[i]).id@ != id,
    decreases s.len(),
{
    if s.len() > 0 {
        let t = s.drop_last();
        lemma_without_id_from(t, id);
        let r = without_id(t, id);
        if s.last().id@ != id {
            assert forall|i: int| 0 <= i < r.len() + 1 implies exists|j: int|
                0 <= j < s.len() && s[j] == #[trigger] r.push(s.last())[i] by {
                if i < r.len() {
                    let j = choose|j: int| 0 <= j < t.len() && t[j] == r[i];
                    assert(s[j] == t[j]);
                    assert(r.push(s.last())[i] == r[i]);
                } else {
                    assert(s[s.len() - 1] == s.last());
                }
            }
            assert forall|i: int| 0 <= i < r.len() + 1 implies (#[trigger] r.push(s.last())[i]).id@
                != id by {
                if i < r.len() {
                    assert(r.push(s.last())[i] == r[i]);
                }
            }
        } else {
            assert forall|i: int| 0 <= i < r.len() implies exists|j: int|
                0 <= j < s.len() && s[j] == #[trigger] r[i] by {
                let j = choose|j: int| 0 <= j < t.len() && t[j] == r[i];
                assert(s[j] == t[j]);
            }
        }
    }
}

/// Removing questions keeps the ids of the store unique.
pub proof fn lemma_remove_keeps_ids_unique(s: Seq<Question>, id: Seq<char>)
    requires
        unique_ids(s),
    ensures
        unique_ids(without_id(s, id)),
    decreases s.len(),
{
    if s.len() > 0 {
        let t = s.drop_last();
        assert forall|i: int, j: int| 0 <= i < j < t.len() implies (#[trigger] t[i]).id@ != (
        #[trigger] t[j]).id@ by {
            assert(t[i] == s[i] && t[j] == s[j]);
        }
        lemma_remove_keeps_ids_unique(t, id);
        lemma_without_id_from(t, id);
        let r = without_id(t, id);
        if s.last().id@ != id {
            let n = r.push(s.last());
            assert forall|i: int, j: int| 0 <= i < j < n.len() implies (#[trigger] n[i]).id@ != (
            #[trigger] n[j]).id@ by {
                if j == r.len() {
                    let w = choose|w: int| 0 <= w < t.len() && t[w] == #[trigger] r[i];
                    assert(n[i] == r[i]);
                    assert(s[w] == t[w]);
                    assert(n[j] == s[s.len() - 1]);
                } else {
                    assert(n[i] == r[i] && n[j] == r[j]);
                }
            }
        }
    }
}

/// Attaching a draft keeps the ids of the store unique.
pub proof fn lemma_set_draft_keeps_ids_unique(s: Seq<Question>, i: int, d: Draft)
    requires
        unique_ids(s),
        0 <= i < s.len(),
    ensures
        unique_ids(s.update(i, with_draft(s[i], d))),
{
    let t = s.update(i, with_draft(s[i], d));
    assert forall|a: int, b: int| 0 <= a < b < t.len() implies (#[trigger] t[a]).id@ != (
    #[trigger] t[b]).id@ by {
        assert(t[a].id@ == s[a].id@);
        assert(t[b].id@ == s[b].id@);
    }
}

/// Removal keeps the other questions, in their order.
pub proof fn lemma_remove_keeps_others(s: Seq<Question>, id: Seq<char>, other: Seq<char>)
    requires
        other != id,
    ensures
        with_id(without_id(s, id), other) == with_id(s, other),
    decreases s.len(),
{
    if s.len() > 0 {
        lemma_remove_keeps_others(s.drop_last(), id, other);
        let r = without_id(s.drop_last(), id);
        if s.last().id@ != id {
            assert(r.push(s.last()).drop_last() =~= r);
        }
    }
}

/// The questions of `s` with the id `id`, in the order of `s`.
pub open spec fn with_id(s: Seq<Question>, id: Seq<char>) -> Seq<Question>
    decreases s.len(),
{
    if s.len() == 0 {
        Seq::empty()
    } else {
        let r = with_id(s.drop_last(), id);
        if s.last().id@ == id {
            r.push(s.last())
        } else {
            r
        }
    }
}

/// A draft attached to a question is what finding that question then gives back:
/// the question is still the first with its id and now carries the draft.
pub proof fn lemma_find_after_set_draft(s: Seq<Question>, id: Seq<char>, i: int, d: Draft)
    requires
        first_with_id(s, id, i),
    ensures
        first_with_id(s.update(i, with_draft(s[i], d)), id, i),
        s.update(i, with_draft(s[i], d))[i].draft == Some(d),
        s.update(i, with_draft(s[i], d))[i]@ == (QuestionView { draft: Some(d@), ..s[i]@ }),
{
    let t = s.update(i, with_draft(s[i], d));
    assert forall|j: int| 0 <= j < i implies (#[trigger] t[j]).id@ != id by {
        assert(t[j] == s[j]);
    }
}


/// The questions held by a store file with the contents `contents` (`None` when
/// there is no file). A missing or blank file is an empty store; anything else is
/// what `decode` reads from it, an error included: a file that cannot be read is
/// reported, never taken for an empty store.
pub fn load_from<F: Fn(&str) -> Result<Vec<Question>, String>>(contents: Option<&str>, decode: F) -> (r:
    Result<Vec<Question>, String>)
    requires
        forall|s: &str| #[trigger] decode.requires((s,)),
    ensures
        match contents {
            None => r matches Ok(v) && v@.len() == 0,
            Some(raw) => if trimmed(raw@).len() == 0 {
                r matches Ok(v) && v@.len() == 0
            } else {
                decode.ensures((raw,), r)
            },
        },
{
    match contents {
        None => Ok(Vec::new()),
        Some(raw) => {
            let t = trim_text(raw);
            if t.as_str().unicode_len() == 0 {
                Ok(Vec::new())
            } else {
                decode(raw)
            }
        },
    }
}

} // verus!
