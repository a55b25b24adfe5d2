//! `LookupService`: composes the user's notes with the dictionary. With
//! `prefer_notes_over_dict` the note wins and the dictionary is consulted only
//! on a miss; otherwise the dictionary wins and a note is the fallback. A miss
//! in both is `NotFound`; blank or oversized input is `InvalidInput` before
//! either store is consulted.
//!
//! The dictionary lives in a database, so a lookup runs in two steps:
//! [`LookupService::begin`] decides whether the dictionary is needed, and
//! [`LookupService::finish`] combines its answer with the notes.
use vstd::prelude::*;
use crate::dict::{acceptable_word, lookup_key, DictError, Entry};
use crate::notes::{Note, NoteStore};
use crate::text::{canonical_word, lemma_trim_idempotent, trim};

verus! {

/// A successful lookup, tagged by its source.
#[derive(Debug)]
pub enum LookupHit {
    /// The user's note for the word.
    Note(Note),
    /// The dictionary entry for the word.
    Dict(Entry),
}

impl LookupHit {
    /// The canonical lower-cased word of the hit.
    pub fn word(&self) -> (r: &str)
        ensures
            r@ == match self {
                LookupHit::Note(n) => n.word@,
                LookupHit::Dict(e) => e.headword@,
            },
    {
        match self {
            LookupHit::Note(n) => n.word.as_str(),
            LookupHit::Dict(e) => e.headword.as_str(),
        }
    }
}

/// Why a lookup failed.
#[derive(Debug)]
pub enum LookupError {
    /// Neither the notes nor the dictionary had the word.
    NotFound,
    /// The input was blank or longer than the dictionary accepts.
    InvalidInput,
    /// The dictionary backend failed.
    Storage(DictError),
}

impl LookupError {
    /// A human-readable description of the error; a dictionary failure
    /// carries the dictionary error's message.
    pub fn message(&self) -> (r: String)
        ensures
            self is NotFound ==> r@ == "word not found"@,
            self is InvalidInput ==> r@ == "invalid input"@,
            match self {
                LookupError::Storage(e) => match crate::dict::known_message(*e) {
                    Some(m) => r@ == "dictionary storage failure: "@ + m,
                    None => exists|detail: Seq<char>|
                        r@ == "dictionary storage failure: "@ + "storage error: "@ + detail,
                },
                _ => true,
            },
    {
        match self {
            LookupError::NotFound => String::from_str("word not found"),
            LookupError::InvalidInput => String::from_str("invalid input"),
            LookupError::Storage(e) => {
                let inner = e.message();
                let r = crate::text::concat("dictionary storage failure: ", inner.as_str());
                proof {
                    if let Some(m) = crate::dict::known_message(*e) {
                        assert(inner@ == m);
                    } else {
                        let detail = choose|detail: Seq<char>| inner@ == "storage error: "@ + detail;
                        assert(r@ == "dictionary storage failure: "@ + "storage error: "@ + detail);
                    }
                }
                r
            },
        }
    }
}

/// The next step of a lookup.
#[derive(Debug)]
pub enum LookupStep {
    /// The lookup is decided.
    Done(Result<LookupHit, LookupError>),
    /// The dictionary must be asked for this (trimmed) word; hand its answer
    /// to [`LookupService::finish`].
    NeedDict(String),
}

/// The lookup policy.
#[derive(Debug, Clone, Copy)]
pub struct LookupService {
    prefer_notes_over_dict: bool,
}

/// `r` is the note that `notes` holds for `word`.
pub open spec fn is_note_hit(notes: Map<Seq<char>, Seq<char>>, word: Seq<char>, r: Result<
    LookupHit,
    LookupError,
>) -> bool {
    r matches Ok(LookupHit::Note(n)) && n.word@ == canonical_word(word) && n.content@
        == notes[canonical_word(word)]
}

/// `notes` holds a note for `word`.
pub open spec fn has_note(notes: Map<Seq<char>, Seq<char>>, word: Seq<char>) -> bool {
    canonical_word(word).len() > 0 && notes.contains_key(canonical_word(word))
}

impl LookupService {
    /// Whether notes are consulted before the dictionary.
    pub closed spec fn prefers_notes(&self) -> bool {
        self.prefer_notes_over_dict
    }

    /// A service with the given policy.
    pub fn new(prefer_notes_over_dict: bool) -> (r: Self)
        ensures
            r.prefers_notes() == prefer_notes_over_dict,
    {
        LookupService { prefer_notes_over_dict }
    }

    fn note_for(notes: &NoteStore, word: &str) -> (r: Option<Note>)
        requires
            notes.wf(),
        ensures
            match r {
                Some(n) => has_note(notes@, word@) && n.word@ == canonical_word(word@)
                    && n.content@ == notes@[canonical_word(word@)],
                None => !has_note(notes@, word@),
            },
    {
        match notes.get(word) {
            Some(n) => Some(n.duplicate()),
            None => None,
        }
    }

    /// First step of looking up `word`: validates it, and with the
    /// notes-first policy answers from the notes when they have the word.
    /// Otherwise asks for the dictionary's answer on the trimmed word.
    pub fn begin(&self, word: &str, notes: &NoteStore) -> (r: LookupStep)
        requires
            notes.wf(),
        ensures
            !acceptable_word(trim(word@)) ==> r matches LookupStep::Done(Err(LookupError::InvalidInput)),
            acceptable_word(trim(word@)) ==> {
                if self.prefers_notes() && has_note(notes@, word@) {
                    r matches LookupStep::Done(res) && is_note_hit(notes@, word@, res)
                } else {
                    r matches LookupStep::NeedDict(t) && t@ == trim(word@)
                }
            },
    {
        let trimmed = match lookup_key(word) {
            Ok(t) => t,
            Err(_) => {
                return LookupStep::Done(Err(LookupError::InvalidInput));
            },
        };
        proof {
            lemma_trim_idempotent(word@);
        }
        if self.prefer_notes_over_dict {
            if let Some(note) = Self::note_for(notes, trimmed.as_str()) {
                return LookupStep::Done(Ok(LookupHit::Note(note)));
            }
        }
        LookupStep::NeedDict(trimmed)
    }

    /// Second step: combines the dictionary's answer for the trimmed `word`
    /// with the notes. A dictionary hit is returned; its miss is `NotFound`
    /// with the notes-first policy and falls back to the note otherwise; its
    /// other errors are passed on.
    pub fn finish(&self, word: &str, notes: &NoteStore, dict: Result<Entry, DictError>) -> (r:
        Result<LookupHit, LookupError>)
        requires
            notes.wf(),
        ensures
            match dict {
                Ok(e) => r == Ok::<LookupHit, LookupError>(LookupHit::Dict(e)),
                Err(DictError::NotFound) => if !self.prefers_notes() && has_note(notes@, word@) {
                    is_note_hit(notes@, word@, r)
                } else {
                    r matches Err(LookupError::NotFound)
                },
                Err(DictError::InvalidInput) => r matches Err(LookupError::InvalidInput),
                Err(other) => r == Err::<LookupHit, LookupError>(LookupError::Storage(other)),
            },
    {
        match dict {
            Ok(entry) => Ok(LookupHit::Dict(entry)),
            Err(DictError::NotFound) => {
                if !self.prefer_notes_over_dict {
                    if let Some(note) = Self::note_for(notes, word) {
                        return Ok(LookupHit::Note(note));
                    }
                }
                Err(LookupError::NotFound)
            },
            Err(DictError::InvalidInput) => Err(LookupError::InvalidInput),
            Err(other) => Err(LookupError::Storage(other)),
        }
    }
}

} // verus!
