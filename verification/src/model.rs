//! The records of the question store and their mathematical views.

use vstd::prelude::*;
use crate::text::texts;

verus! {

/// An AI-drafted first response and the checklist that goes with it.
#[derive(Clone, Debug, PartialEq)]
pub struct Draft {
    pub draft: String,
    pub verify: Vec<String>,
    pub model: String,
    pub created_at: String,
}

/// One logged question.
#[derive(Clone, Debug, PartialEq)]
pub struct Question {
    pub id: String,
    pub asked_at: String,
    pub asker: String,
    pub context: String,
    pub question: String,
    pub tags: Vec<String>,
    pub draft: Option<Draft>,
}

/// The two fields that the model's JSON answer carries, as it was decoded.
#[derive(Clone, Debug, PartialEq)]
pub struct RawDraft {
    pub draft: String,
    pub verify: Vec<String>,
}

/// A `Draft` as text.
pub struct DraftView {
    pub draft: Seq<char>,
    pub verify: Seq<Seq<char>>,
    pub model: Seq<char>,
    pub created_at: Seq<char>,
}

/// A `Question` as text.
pub struct QuestionView {
    pub id: Seq<char>,
    pub asked_at: Seq<char>,
    pub asker: Seq<char>,
    pub context: Seq<char>,
    pub question: Seq<char>,
    pub tags: Seq<Seq<char>>,
    pub draft: Option<DraftView>,
}

impl View for Draft {
    type V = DraftView;

    open spec fn view(&self) -> DraftView {
        DraftView {
            draft: self.draft@,
            verify: texts(self.verify@),
            model: self.model@,
            created_at: self.created_at@,
        }
    }
}

/// The view of an optional draft.
pub open spec fn draft_view(d: Option<Draft>) -> Option<DraftView> {
    match d {
        Some(d) => Some(d@),
        None => None,
    }
}

impl View for Question {
    type V = QuestionView;

    open spec fn view(&self) -> QuestionView {
        QuestionView {
            id: self.id@,
            asked_at: self.asked_at@,
            asker: self.asker@,
            context: self.context@,
            question: self.question@,
            tags: texts(self.tags@),
            draft: draft_view(self.draft),
        }
    }
}

/// A copy of a list of strings.
pub fn copy_texts(v: &Vec<String>) -> (r: Vec<String>)
    ensures
        r@ == v@,
{
    let mut r: Vec<String> = Vec::new();
    let n = v.len();
    for i in 0..n
        invariant
            n == v@.len(),
            r@ == v@.subrange(0, i as int),
    {
        r.push(v[i].clone());
        assert(r@ =~= v@.subrange(0, i + 1));
    }
    assert(v@.subrange(0, n as int) =~= v@);
    r
}

impl Draft {
    /// A copy of this draft.
    pub fn duplicate(&self) -> (r: Draft)
        ensures
            r@ == self@,
    {
        Draft {
            draft: self.draft.clone(),
            verify: copy_texts(&self.verify),
            model: self.model.clone(),
            created_at: self.created_at.clone(),
        }
    }
}

impl Question {
    /// A copy of this question.
    pub fn duplicate(&self) -> (r: Question)
        ensures
            r@ == self@,
    {
        let draft = match &self.draft {
            Some(d) => Some(d.duplicate()),
            None => None,
        };
        Question {
            id: self.id.clone(),
            asked_at: self.asked_at.clone(),
            asker: self.asker.clone(),
            context: self.context.clone(),
            question: self.question.clone(),
            tags: copy_texts(&self.tags),
            draft,
        }
    }
}

} // verus!
