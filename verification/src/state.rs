//! `AppState`: the UI-facing model of one user session. The platform shell
//! reads its getters every frame and calls its mutators on user input. It
//! composes the configuration, the notes, the history and the lookup policy;
//! the dictionary itself is held by the shell, which answers the lookups that
//! [`AppState::begin_submit`] asks for.
use vstd::prelude::*;
use crate::config::Config;
use crate::dict::{DictError, Entry};
use crate::history::{recorded, HistoryEntry, HistoryStore};
use crate::lookup::{LookupError, LookupHit, LookupService, LookupStep};
use crate::notes::{Note, NoteStore};
use crate::text::{canonical_word, concat, trim, trimmed};

verus! {

/// One user session.
#[derive(Debug)]
pub struct AppState {
    config: Config,
    notes: NoteStore,
    history: HistoryStore,
    lookup: LookupService,
    input: String,
    last_hit: Option<LookupHit>,
    status: String,
}

/// What the shell must do after [`AppState::begin_submit`].
#[derive(Debug)]
pub enum SubmitStep {
    /// Nothing more to do.
    Done,
    /// Look this (trimmed) word up in the dictionary and hand the answer to
    /// [`AppState::finish_submit`].
    NeedDict(String),
}

/// The status line after a failed lookup of `word`.
pub open spec fn failure_status(err: LookupError, word: Seq<char>, detail: Seq<char>) -> Seq<char> {
    match err {
        LookupError::NotFound => "Not found: "@ + word,
        LookupError::InvalidInput => "Invalid input"@,
        LookupError::Storage(_) => "Storage error: "@ + detail,
    }
}

impl AppState {
    pub closed spec fn spec_input(&self) -> Seq<char> {
        self.input@
    }

    pub closed spec fn spec_status(&self) -> Seq<char> {
        self.status@
    }

    pub closed spec fn spec_last_hit(&self) -> Option<LookupHit> {
        self.last_hit
    }

    pub closed spec fn spec_notes(&self) -> NoteStore {
        self.notes
    }

    pub closed spec fn spec_history(&self) -> Seq<(Seq<char>, i64)> {
        self.history@
    }

    pub closed spec fn spec_config(&self) -> Config {
        self.config
    }

    pub closed spec fn spec_lookup(&self) -> LookupService {
        self.lookup
    }

    /// The session's internal invariant.
    pub closed spec fn wf(&self) -> bool {
        &&& self.notes.wf()
        &&& self.history.wf()
        &&& self.history.capacity() == self.config.spec_history_max_entries()
        &&& self.lookup.prefers_notes() == self.config.spec_lookup_prefer_notes_over_dict()
    }

    /// The history's capacity (from the configuration).
    pub closed spec fn history_capacity(&self) -> nat {
        self.history.capacity()
    }

    /// A fresh session: empty input, no hit, empty status, no note and no
    /// history, with the configured history capacity and lookup policy.
    pub fn new(config: Config) -> (r: Self)
        ensures
            r.wf(),
            r.spec_input().len() == 0,
            r.spec_last_hit() is None,
            r.spec_status().len() == 0,
            r.spec_notes()@ == Map::<Seq<char>, Seq<char>>::empty(),
            r.spec_history().len() == 0,
            r.spec_config() == config,
            r.spec_lookup().prefers_notes() == config.spec_lookup_prefer_notes_over_dict(),
            r.history_capacity() == config.spec_history_max_entries(),
    {
        let history = HistoryStore::with_capacity(config.history_max_entries());
        let lookup = LookupService::new(config.lookup_prefer_notes_over_dict());
        AppState {
            config,
            notes: NoteStore::new(),
            history,
            lookup,
            input: String::new(),
            last_hit: None,
            status: String::new(),
        }
    }

    /// The text the user typed.
    pub fn input(&self) -> (r: &str)
        ensures
            r@ == self.spec_input(),
    {
        self.input.as_str()
    }

    /// Replaces the typed text.
    pub fn set_input(&mut self, text: &str)
        requires
            old(self).wf(),
        ensures
            final(self).wf(),
            final(self).spec_input() == text@,
            final(self).spec_status() == old(self).spec_status(),
            final(self).spec_last_hit() == old(self).spec_last_hit(),
            final(self).spec_notes() == old(self).spec_notes(),
            final(self).spec_history() == old(self).spec_history(),
            final(self).spec_config() == old(self).spec_config(),
            final(self).spec_lookup() == old(self).spec_lookup(),
            final(self).history_capacity() == old(self).history_capacity(),
    {
        self.input = copy_text(text);
    }

    /// The hit of the last successful submit; `None` after a miss.
    pub fn last_hit(&self) -> (r: Option<&LookupHit>)
        ensures
            match r {
                Some(h) => self.spec_last_hit() == Some(*h),
                None => self.spec_last_hit() is None,
            },
    {
        match &self.last_hit {
            Some(h) => Some(h),
            None => None,
        }
    }

    /// The status line (`"Found"`, `"Not found: word"`, ...).
    pub fn status(&self) -> (r: &str)
        ensures
            r@ == self.spec_status(),
    {
        self.status.as_str()
    }

    /// The recent successful lookups, most recent first.
    pub fn recent(&self) -> (r: Vec<HistoryEntry>)
        ensures
            r@.map_values(|e: HistoryEntry| e@) == self.spec_history(),
    {
        self.history.recent()
    }

    /// The user's notes.
    pub fn notes(&self) -> (r: &NoteStore)
        ensures
            *r == self.spec_notes(),
    {
        &self.notes
    }

    /// The active configuration.
    pub fn config(&self) -> (r: &Config)
        ensures
            *r == self.spec_config(),
    {
        &self.config
    }

    /// Records the outcome of a lookup of `word`: a hit is remembered and
    /// recorded in the history with status `"Found"`; a failure clears the hit
    /// and describes itself in the status.
    fn apply(&mut self, word: &str, outcome: Result<LookupHit, LookupError>)
        requires
            old(self).wf(),
        ensures
            final(self).wf(),
            final(self).spec_input() == old(self).spec_input(),
            final(self).spec_notes() == old(self).spec_notes(),
            final(self).spec_config() == old(self).spec_config(),
            final(self).spec_lookup() == old(self).spec_lookup(),
            final(self).history_capacity() == old(self).history_capacity(),
            applied(*old(self), *final(self), word@, outcome),
    {
        match outcome {
            Ok(hit) => {
                self.history.record(hit.word());
                self.status = String::from_str("Found");
                self.last_hit = Some(hit);
            },
            Err(err) => {
                self.last_hit = None;
                match &err {
                    LookupError::NotFound => {
                        self.status = concat("Not found: ", word);
                    },
                    LookupError::InvalidInput => {
                        self.status = String::from_str("Invalid input");
                    },
                    LookupError::Storage(e) => {
                        let detail = e.message();
                        self.status = concat("Storage error: ", detail.as_str());
                        assert(self.status@ == failure_status(err, word@, detail@));
                    },
                }
            },
        }
    }

    /// Submits the typed text: trims it and starts the lookup. Blank input
    /// does nothing. When the dictionary is needed, the shell looks the
    /// returned word up and calls [`AppState::finish_submit`]; otherwise the
    /// outcome is already applied.
    pub fn begin_submit(&mut self) -> (r: SubmitStep)
        requires
            old(self).wf(),
        ensures
            final(self).wf(),
            final(self).spec_input() == old(self).spec_input(),
            final(self).spec_notes() == old(self).spec_notes(),
            final(self).spec_config() == old(self).spec_config(),
            final(self).spec_lookup() == old(self).spec_lookup(),
            final(self).history_capacity() == old(self).history_capacity(),
            trim(old(self).spec_input()).len() == 0 ==> r is Done && *final(self) == *old(self),
            trim(old(self).spec_input()).len() > 0 ==> (r is NeedDict <==> (
            crate::dict::acceptable_word(trim(old(self).spec_input())) && !(
            old(self).spec_lookup().prefers_notes() && crate::lookup::has_note(
                old(self).spec_notes()@,
                trim(old(self).spec_input()),
            )))),
            trim(old(self).spec_input()).len() > 0 ==> match r {
                SubmitStep::NeedDict(w) => *final(self) == *old(self) && w@ == trim(
                    old(self).spec_input(),
                ),
                SubmitStep::Done => exists|outcome: Result<LookupHit, LookupError>|
                    applied(*old(self), *final(self), trim(old(self).spec_input()), outcome)
                        && begin_outcome(*old(self), trim(old(self).spec_input()), outcome),
            },
    {
        let word = trimmed(self.input.as_str());
        if word.as_str().is_empty() {
            return SubmitStep::Done;
        }
        match self.lookup.begin(word.as_str(), &self.notes) {
            LookupStep::Done(outcome) => {
                let ghost o = outcome;
                self.apply(word.as_str(), outcome);
                proof {
                    crate::text::lemma_trim_idempotent(old(self).spec_input());
                    assert(applied(*old(self), *self, trim(old(self).spec_input()), o));
                    assert(begin_outcome(*old(self), trim(old(self).spec_input()), o));
                }
                SubmitStep::Done
            },
            LookupStep::NeedDict(w) => {
                proof {
                    crate::text::lemma_trim_idempotent(old(self).spec_input());
                }
                SubmitStep::NeedDict(w)
            },
        }
    }

    /// Completes a submit with the dictionary's answer for `word` (the word
    /// that [`AppState::begin_submit`] asked for).
    pub fn finish_submit(&mut self, word: &str, dict: Result<Entry, DictError>)
        requires
            old(self).wf(),
        ensures
            final(self).wf(),
            final(self).spec_input() == old(self).spec_input(),
            final(self).spec_notes() == old(self).spec_notes(),
            final(self).spec_config() == old(self).spec_config(),
            final(self).spec_lookup() == old(self).spec_lookup(),
            final(self).history_capacity() == old(self).history_capacity(),
            exists|outcome: Result<LookupHit, LookupError>|
                applied(*old(self), *final(self), word@, outcome) && finish_outcome(
                    *old(self),
                    word@,
                    dict,
                    outcome,
                ),
    {
        let outcome = self.lookup.finish(word, &self.notes, dict);
        let ghost o = outcome;
        self.apply(word, outcome);
        assert(applied(*old(self), *self, word@, o) && finish_outcome(*old(self), word@, dict, o));
    }

    /// Clears the input, the last hit and the status (when the overlay is
    /// dismissed).
    pub fn reset(&mut self)
        requires
            old(self).wf(),
        ensures
            final(self).wf(),
            final(self).spec_input().len() == 0,
            final(self).spec_last_hit() is None,
            final(self).spec_status().len() == 0,
            final(self).spec_notes() == old(self).spec_notes(),
            final(self).spec_history() == old(self).spec_history(),
            final(self).spec_config() == old(self).spec_config(),
            final(self).spec_lookup() == old(self).spec_lookup(),
            final(self).history_capacity() == old(self).history_capacity(),
    {
        self.input = String::new();
        self.last_hit = None;
        self.status = String::new();
    }

    /// Adds or overwrites the note for `word` (trimmed and lower-cased).
    pub fn add_note(&mut self, word: &str, content: String)
        requires
            old(self).wf(),
        ensures
            final(self).wf(),
            canonical_word(word@).len() == 0 ==> final(self).spec_notes()@ == old(
                self,
            ).spec_notes()@,
            canonical_word(word@).len() > 0 ==> final(self).spec_notes()@ == old(
                self,
            ).spec_notes()@.insert(canonical_word(word@), content@),
            final(self).spec_input() == old(self).spec_input(),
            final(self).spec_status() == old(self).spec_status(),
            final(self).spec_last_hit() == old(self).spec_last_hit(),
            final(self).spec_history() == old(self).spec_history(),
            final(self).spec_config() == old(self).spec_config(),
            final(self).spec_lookup() == old(self).spec_lookup(),
            final(self).history_capacity() == old(self).history_capacity(),
    {
        self.notes.set(word, content);
    }

    /// Removes the note for `word`; returns whether there was one.
    pub fn remove_note(&mut self, word: &str) -> (r: bool)
        requires
            old(self).wf(),
        ensures
            final(self).wf(),
            canonical_word(word@).len() == 0 ==> !r && final(self).spec_notes()@ == old(
                self,
            ).spec_notes()@,
            canonical_word(word@).len() > 0 ==> r == old(self).spec_notes()@.contains_key(
                canonical_word(word@),
            ) && final(self).spec_notes()@ == old(self).spec_notes()@.remove(canonical_word(word@)),
            final(self).spec_input() == old(self).spec_input(),
            final(self).spec_status() == old(self).spec_status(),
            final(self).spec_last_hit() == old(self).spec_last_hit(),
            final(self).spec_history() == old(self).spec_history(),
            final(self).spec_config() == old(self).spec_config(),
            final(self).spec_lookup() == old(self).spec_lookup(),
            final(self).history_capacity() == old(self).history_capacity(),
    {
        self.notes.remove(word)
    }

    /// The note for `word`, if any.
    pub fn get_note(&self, word: &str) -> (r: Option<&Note>)
        requires
            self.wf(),
        ensures
            match r {
                Some(n) => canonical_word(word@).len() > 0 && self.spec_notes()@.contains_key(
                    canonical_word(word@),
                ) && n.word@ == canonical_word(word@) && n.content@ == self.spec_notes()@[canonical_word(
                    word@,
                )],
                None => canonical_word(word@).len() == 0 || !self.spec_notes()@.contains_key(
                    canonical_word(word@),
                ),
            },
    {
        self.notes.get(word)
    }
}

/// `after` is `before` with the outcome of looking up `word` applied: on a
/// hit, the hit is remembered, status `"Found"`, and the hit's word recorded
/// in the history; on a failure, no hit and the failure's status.
pub open spec fn applied(
    before: AppState,
    after: AppState,
    word: Seq<char>,
    outcome: Result<LookupHit, LookupError>,
) -> bool {
    match outcome {
        Ok(hit) => {
            let w = hit_word(hit);
            &&& after.spec_last_hit() == Some(hit)
            &&& after.spec_status() == "Found"@
            &&& if canonical_word(w).len() == 0 || before.history_capacity() == 0 {
                after.spec_history() == before.spec_history()
            } else {
                after.spec_history() == recorded(
                    before.spec_history(),
                    canonical_word(w),
                    after.spec_history()[0].1,
                    before.history_capacity(),
                )
            }
        },
        Err(err) => {
            &&& after.spec_last_hit() is None
            &&& after.spec_history() == before.spec_history()
            &&& match err {
                LookupError::Storage(e) => match crate::dict::known_message(e) {
                    Some(m) => after.spec_status() == failure_status(err, word, m),
                    None => exists|detail: Seq<char>|
                        after.spec_status() == failure_status(err, word, "storage error: "@ + detail),
                },
                _ => after.spec_status() == failure_status(err, word, Seq::empty()),
            }
        },
    }
}

/// A hit of either source, the user's notes or the dictionary, is recorded
/// in the history: when the history can hold an entry and the hit's word is
/// not blank, the history's first entry is the hit's word (trimmed and
/// lower-cased), and the other entries are the earlier ones without it.
pub proof fn law_hit_recorded(
    before: AppState,
    after: AppState,
    word: Seq<char>,
    hit: LookupHit,
)
    requires
        applied(before, after, word, Ok(hit)),
        before.history_capacity() > 0,
        canonical_word(hit_word(hit)).len() > 0,
    ensures
        after.spec_history().len() > 0,
        after.spec_history()[0].0 == canonical_word(hit_word(hit)),
        forall|k: int|
            0 < k < after.spec_history().len() ==> (#[trigger] after.spec_history()[k]).0
                != canonical_word(hit_word(hit)),
{
    let w = canonical_word(hit_word(hit));
    let h = after.spec_history();
    let s = seq![(w, h[0].1)] + crate::history::without_word(before.spec_history(), w);
    crate::history::lemma_without_word_excludes(before.spec_history(), w);
    assert(s.len() > 0);
    if s.len() > before.history_capacity() {
        assert(h =~= s.take(before.history_capacity() as int));
    }
    assert forall|k: int| 0 < k < h.len() implies (#[trigger] h[k]).0 != w by {
        assert(h[k] == s[k]);
        assert(s[k] == crate::history::without_word(before.spec_history(), w)[k - 1]);
    }
}

/// The word of a hit.
pub open spec fn hit_word(hit: LookupHit) -> Seq<char> {
    match hit {
        LookupHit::Note(n) => n.word@,
        LookupHit::Dict(e) => e.headword@,
    }
}

/// `outcome` is what the first lookup step decides for `word` in `s`.
pub open spec fn begin_outcome(s: AppState, word: Seq<char>, outcome: Result<LookupHit, LookupError>) -> bool {
    if !crate::dict::acceptable_word(trim(word)) {
        outcome matches Err(LookupError::InvalidInput)
    } else {
        s.spec_lookup().prefers_notes() && crate::lookup::has_note(s.spec_notes()@, word)
            && crate::lookup::is_note_hit(s.spec_notes()@, word, outcome)
    }
}

/// `outcome` is what the second lookup step decides for `word` in `s` given
/// the dictionary's answer.
pub open spec fn finish_outcome(
    s: AppState,
    word: Seq<char>,
    dict: Result<Entry, DictError>,
    outcome: Result<LookupHit, LookupError>,
) -> bool {
    match dict {
        Ok(e) => outcome == Ok::<LookupHit, LookupError>(LookupHit::Dict(e)),
        Err(DictError::NotFound) => if !s.spec_lookup().prefers_notes() && crate::lookup::has_note(
            s.spec_notes()@,
            word,
        ) {
            crate::lookup::is_note_hit(s.spec_notes()@, word, outcome)
        } else {
            outcome matches Err(LookupError::NotFound)
        },
        Err(DictError::InvalidInput) => outcome matches Err(LookupError::InvalidInput),
        Err(other) => outcome == Err::<LookupHit, LookupError>(LookupError::Storage(other)),
    }
}

fn copy_text(text: &str) -> (r: String)
    ensures
        r@ == text@,
{
    crate::text::string_of(&crate::text::chars_of(text))
}

} // verus!
