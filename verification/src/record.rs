//! The storage record models: the physical key/value `Record`, and the typed
//! models a stored value holds (an English word with its metadata, a user
//! note, a history entry, a Chinese term with its English equivalents).
//! Their JSON encoding is done by the application shell.
use vstd::prelude::*;

verus! {

/// The record categories.
#[derive(Debug, Clone, Copy, PartialEq, Eq, Structural)]
pub enum RecordType {
    WordEn,
    Note,
    History,
}

/// US pronunciation of a word.
#[derive(Debug, Clone, PartialEq, Eq)]
pub struct Pronunciation {
    /// IPA spelling.
    pub ipa: String,
    /// Local path of a cached audio file.
    pub audio: Option<String>,
    /// Download URL of the audio.
    pub audio_url: Option<String>,
}

/// The meanings of one part of speech.
#[derive(Debug, Clone, PartialEq, Eq)]
pub struct Definition {
    /// Part of speech, e.g. `"n."`, `"v."`.
    pub pos: String,
    pub meanings: Vec<String>,
}

/// Morphological variants (each optional).
#[derive(Debug, Clone, PartialEq, Eq)]
pub struct Inflections {
    pub plural: Option<String>,
    pub past_tense: Option<String>,
    pub past_participle: Option<String>,
    pub present_participle: Option<String>,
    pub third_singular: Option<String>,
}

/// A parallel English/Chinese example sentence.
#[derive(Debug, Clone, PartialEq, Eq)]
pub struct Example {
    pub en: String,
    pub zh: String,
}

/// An English word with its optional metadata.
#[derive(Debug, Clone, PartialEq, Eq)]
pub struct WordEn {
    /// Canonical lower-case word.
    pub word: String,
    pub pronunciation: Option<Pronunciation>,
    pub definitions: Option<Vec<Definition>>,
    pub inflections: Option<Inflections>,
    pub examples: Option<Vec<Example>>,
}

/// Former name of [`WordEn`].
pub type WordData = WordEn;

/// A user note record: free-form content.
#[derive(Debug, Clone, PartialEq, Eq)]
pub struct Note {
    pub content: String,
}

impl Note {
    /// A note with the given content.
    pub fn new(content: String) -> (r: Self)
        ensures
            r.content == content,
    {
        Note { content }
    }
}

/// A history record, e.g. a Unix timestamp string.
#[derive(Debug, Clone, PartialEq, Eq)]
pub struct History {
    pub content: String,
}

impl History {
    /// A history record with the given content.
    pub fn new(content: String) -> (r: Self)
        ensures
            r.content == content,
    {
        History { content }
    }
}

/// A Chinese term with its English equivalents, most frequent first.
#[derive(Debug, Clone, PartialEq, Eq)]
pub struct WordCn {
    /// The Chinese term (the lookup key).
    pub word: String,
    pub english: Vec<String>,
}

impl WordCn {
    /// A Chinese term record.
    pub fn new(word: String, english: Vec<String>) -> (r: Self)
        ensures
            r.word == word,
            r.english == english,
    {
        WordCn { word, english }
    }
}

/// A typed record model.
#[derive(Debug, Clone, PartialEq, Eq)]
pub enum RecordModel {
    WordEn(WordEn),
    Note(Note),
    History(History),
}

impl RecordModel {
    /// The category of this model.
    pub fn record_type(&self) -> (r: RecordType)
        ensures
            r == match self {
                RecordModel::WordEn(_) => RecordType::WordEn,
                RecordModel::Note(_) => RecordType::Note,
                RecordModel::History(_) => RecordType::History,
            },
    {
        match self {
            RecordModel::WordEn(_) => RecordType::WordEn,
            RecordModel::Note(_) => RecordType::Note,
            RecordModel::History(_) => RecordType::History,
        }
    }
}

/// A stored row: the lookup key and the serialized value.
#[derive(Debug, Clone, PartialEq, Eq)]
pub struct Record {
    pub key: String,
    pub value: String,
}

impl Record {
    /// A record row.
    pub fn new(key: String, value: String) -> (r: Self)
        ensures
            r.key == key,
            r.value == value,
    {
        Record { key, value }
    }
}

} // verus!
