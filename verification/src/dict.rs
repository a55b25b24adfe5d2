//! The offline dictionary's record type, its errors, and the logic of the
//! dictionary store that does not touch the database: input validation,
//! decoding a stored row, preparing a seed row, and the in-memory suggestion
//! search over the cached headwords.
use vstd::prelude::*;
use crate::algo::{first_texts, insert_in_rank, ranked, take_texts, Scored, ScoredText, scored_seq};
use crate::distance::{byte_distance, edit_distance};
use crate::text::{chars_of, string_of, to_lowercase, trim, trim_chars, unicode_lowercase};

verus! {

/// One dictionary entry: the canonical lower-case headword, its phonetic
/// spelling (possibly empty) and its Chinese senses in display order.
#[derive(Debug, Clone, PartialEq, Eq)]
pub struct Entry {
    pub headword: String,
    pub phonetic: String,
    pub definitions: Vec<String>,
}

/// Errors surfaced by the dictionary.
#[derive(Debug)]
pub enum DictError {
    /// The requested word does not exist in the dictionary.
    NotFound,
    /// The word was empty, all whitespace, or longer than [`MAX_WORD_LEN`] bytes.
    InvalidInput,
    /// The database backend failed.
    Storage(rusqlite::Error),
    /// The seed data could not be read, parsed or encoded.
    Seed(String),
}

/// The message of a database error (its `Display` text). Nothing is claimed
/// of the text.
#[verifier::external_body]
fn sqlite_error_text(e: &rusqlite::Error) -> String {
    e.to_string()
}

/// The message of an error, where it is determined by the error's plain
/// values; `None` for a database error, whose message carries the database's
/// own text after `"storage error: "`.
pub open spec fn known_message(e: DictError) -> Option<Seq<char>> {
    match e {
        DictError::NotFound => Some("word not found"@),
        DictError::InvalidInput => Some("invalid input"@),
        DictError::Seed(s) => Some("seed error: "@ + s@),
        DictError::Storage(_) => None,
    }
}

impl DictError {
    /// A human-readable description of the error.
    pub fn message(&self) -> (r: String)
        ensures
            self is NotFound ==> r@ == "word not found"@,
            self is InvalidInput ==> r@ == "invalid input"@,
            self matches DictError::Seed(s) ==> r@ == "seed error: "@ + s@,
            self is Storage ==> exists|detail: Seq<char>| r@ == "storage error: "@ + detail,
            known_message(*self) matches Some(m) ==> r@ == m,
    {
        match self {
            DictError::NotFound => String::from_str("word not found"),
            DictError::InvalidInput => String::from_str("invalid input"),
            DictError::Storage(e) => {
                let detail = sqlite_error_text(e);
                crate::text::concat("storage error: ", detail.as_str())
            },
            DictError::Seed(s) => crate::text::concat("seed error: ", s.as_str()),
        }
    }
}

/// Maximum length, in bytes, of a word the dictionary accepts.
pub const MAX_WORD_LEN: usize = 128;

// ---------------------------------------------------------------------------
// Validation
// ---------------------------------------------------------------------------
/// Number of bytes of the UTF-8 encoding of `c`.
pub open spec fn utf8_width(c: char) -> nat {
    if (c as u32) < 0x80 {
        1
    } else if (c as u32) < 0x800 {
        2
    } else if (c as u32) < 0x10000 {
        3
    } else {
        4
    }
}

/// Number of bytes of the UTF-8 encoding of `s` (what `str::len` returns).
pub open spec fn utf8_len(s: Seq<char>) -> nat
    decreases s.len(),
{
    if s.len() == 0 {
        0
    } else {
        utf8_len(s.drop_last()) + utf8_width(s.last())
    }
}

/// A (trimmed) word the dictionary accepts: non-empty and at most
/// [`MAX_WORD_LEN`] bytes long.
pub open spec fn acceptable_word(t: Seq<char>) -> bool {
    t.len() > 0 && utf8_len(t) <= MAX_WORD_LEN
}

proof fn lemma_utf8_len_monotone(s: Seq<char>, i: int, j: int)
    requires
        0 <= i <= j <= s.len(),
    ensures
        utf8_len(s.take(i)) <= utf8_len(s.take(j)),
    decreases j - i,
{
    if i < j {
        lemma_utf8_len_monotone(s, i, j - 1);
        assert(s.take(j).drop_last() =~= s.take(j - 1));
    }
}

/// Whether the UTF-8 encoding of `v` is longer than `limit` bytes.
pub fn utf8_longer_than(v: &Vec<char>, limit: usize) -> (r: bool)
    ensures
        r == (utf8_len(v@) > limit),
{
    let mut total: usize = 0;
    let mut i: usize = 0;
    while i < v.len()
        invariant
            i <= v.len(),
            total == utf8_len(v@.take(i as int)),
            total <= limit,
        decreases v.len() - i,
    {
        let c = v[i] as u32;
        let w: usize = if c < 0x80 {
            1
        } else if c < 0x800 {
            2
        } else if c < 0x10000 {
            3
        } else {
            4
        };
        assert(v@.take(i + 1).drop_last() =~= v@.take(i as int));
        if w > limit - total {
            proof {
                lemma_utf8_len_monotone(v@, i + 1, v.len() as int);
                assert(v@.take(v.len() as int) =~= v@);
            }
            return true;
        }
        total = total + w;
        i += 1;
    }
    assert(v@.take(v.len() as int) =~= v@);
    false
}

/// The word a lookup searches for: `word` trimmed, when it is acceptable.
pub fn lookup_key(word: &str) -> (r: Result<String, DictError>)
    ensures
        match r {
            Ok(t) => acceptable_word(trim(word@)) && t@ == trim(word@),
            Err(e) => !acceptable_word(trim(word@)) && e is InvalidInput,
        },
{
    let v = chars_of(word);
    let t = trim_chars(&v);
    if t.len() == 0 || utf8_longer_than(&t, MAX_WORD_LEN) {
        return Err(DictError::InvalidInput);
    }
    Ok(string_of(&t))
}

// ---------------------------------------------------------------------------
// Stored rows
// ---------------------------------------------------------------------------
/// What `serde_json` reads from `text` as a JSON value: `None` unless the text
/// is a JSON array; otherwise, for each element, its string when it is a JSON
/// string and `None` when it is any other value.
pub uninterp spec fn json_array_strings(text: Seq<char>) -> Option<Seq<Option<Seq<char>>>>;

pub open spec fn opt_view(o: Option<String>) -> Option<Seq<char>> {
    match o {
        Some(s) => Some(s@),
        None => None,
    }
}

/// `serde_json::from_str::<serde_json::Value>`, read as an array of optional
/// strings. The contract claims only that the outcome is a function of the
/// text.
#[verifier::external_body]
fn read_json_array(text: &str) -> (r: Option<Vec<Option<String>>>)
    ensures
        match r {
            Some(items) => json_array_strings(text@) == Some(
                items@.map_values(|o: Option<String>| opt_view(o)),
            ),
            None => json_array_strings(text@) is None,
        },
{
    match serde_json::from_str::<serde_json::Value>(text) {
        Ok(serde_json::Value::Array(items)) => Some(
            items.iter().map(|v| v.as_str().map(|s| s.to_owned())).collect(),
        ),
        _ => None,
    }
}

/// The strings among `items`, in order.
pub open spec fn present_strings(items: Seq<Option<Seq<char>>>) -> Seq<Seq<char>>
    decreases items.len(),
{
    if items.len() == 0 {
        Seq::empty()
    } else {
        let r = present_strings(items.drop_last());
        match items.last() {
            Some(s) => r.push(s),
            None => r,
        }
    }
}

/// The definitions stored in a `definitions` blob: the string elements of a
/// JSON array, or nothing when the blob is not a JSON array.
pub open spec fn stored_definitions(text: Seq<char>) -> Seq<Seq<char>> {
    match json_array_strings(text) {
        Some(items) => present_strings(items),
        None => Seq::empty(),
    }
}

/// Parses a `definitions` blob. A malformed blob yields no definitions.
pub fn parse_definitions(json: &str) -> (r: Vec<String>)
    ensures
        r@.map_values(|s: String| s@) == stored_definitions(json@),
{
    let mut r: Vec<String> = Vec::new();
    match read_json_array(json) {
        None => {
            assert(r@.map_values(|s: String| s@) =~= Seq::<Seq<char>>::empty());
            r
        },
        Some(items) => {
            let ghost all = items@.map_values(|o: Option<String>| opt_view(o));
            for k in 0..items.len()
                invariant
                    all == items@.map_values(|o: Option<String>| opt_view(o)),
                    r@.map_values(|s: String| s@) == present_strings(all.take(k as int)),
            {
                proof {
                    assert(all.take(k + 1).drop_last() =~= all.take(k as int));
                    assert(all.take(k + 1).last() == opt_view(items@[k as int]));
                }
                match &items[k] {
                    Some(s) => {
                        let ghost before = r@;
                        r.push(s.clone());
                        assert(r@.map_values(|s: String| s@) =~= before.map_values(|s: String| s@).push(
                            s@,
                        ));
                    },
                    None => {},
                }
            }
            assert(all.take(items.len() as int) =~= all);
            r
        },
    }
}

/// Builds the entry for a looked-up row (`None` when no row matched). A row
/// whose definitions blob holds no definition counts as a miss, so callers
/// never show a blank result.
pub fn finish_lookup(row: Option<(String, String, String)>) -> (r: Result<Entry, DictError>)
    ensures
        match row {
            None => r matches Err(DictError::NotFound),
            Some((h, p, d)) => if stored_definitions(d@).len() == 0 {
                r matches Err(DictError::NotFound)
            } else {
                r matches Ok(e) && e.headword == h && e.phonetic == p
                    && e.definitions@.map_values(|s: String| s@) == stored_definitions(d@)
            },
        },
{
    match row {
        None => Err(DictError::NotFound),
        Some((headword, phonetic, defs_json)) => {
            let definitions = parse_definitions(defs_json.as_str());
            if definitions.len() == 0 {
                return Err(DictError::NotFound);
            }
            Ok(Entry { headword, phonetic, definitions })
        },
    }
}

// ---------------------------------------------------------------------------
// Seeding
// ---------------------------------------------------------------------------
#[verifier::external_type_specification]
#[verifier::external_body]
pub struct ExJsonError(serde_json::Error);

/// A lower-case hexadecimal digit.
pub open spec fn hex_lower(n: int) -> char {
    if n < 10 {
        (('0' as int) + n) as char
    } else {
        (('a' as int) + n - 10) as char
    }
}

/// How `serde_json` writes one character inside a string: `"` and `\` and
/// the control characters backspace, tab, line feed, form feed and carriage
/// return with their short escapes, the other characters below U+0020 as
/// `\u00XX` (lower-case hex), everything else as it is.
pub open spec fn json_char(c: char) -> Seq<char> {
    if c == '"' {
        seq!['\\', '"']
    } else if c == '\\' {
        seq!['\\', '\\']
    } else if c == '\u{8}' {
        seq!['\\', 'b']
    } else if c == '\t' {
        seq!['\\', 't']
    } else if c == '\n' {
        seq!['\\', 'n']
    } else if c == '\u{c}' {
        seq!['\\', 'f']
    } else if c == '\r' {
        seq!['\\', 'r']
    } else if (c as int) < 0x20 {
        seq!['\\', 'u', '0', '0', hex_lower((c as int) / 16), hex_lower((c as int) % 16)]
    } else {
        seq![c]
    }
}

/// The escaped characters of a JSON string.
pub open spec fn json_escaped(s: Seq<char>) -> Seq<char>
    decreases s.len(),
{
    if s.len() == 0 {
        Seq::empty()
    } else {
        json_escaped(s.drop_last()) + json_char(s.last())
    }
}

/// A JSON string literal.
pub open spec fn json_string(s: Seq<char>) -> Seq<char> {
    seq!['"'] + json_escaped(s) + seq!['"']
}

/// The JSON string literals of `items`, separated by commas.
pub open spec fn json_joined(items: Seq<Seq<char>>) -> Seq<char>
    decreases items.len(),
{
    if items.len() == 0 {
        Seq::empty()
    } else if items.len() == 1 {
        json_string(items[0])
    } else {
        json_joined(items.drop_last()) + seq![','] + json_string(items.last())
    }
}

/// The JSON text `serde_json` writes for an array of strings: `[`, the
/// string literals separated by commas, `]`, with no white space.
pub open spec fn json_strings_text(items: Seq<Seq<char>>) -> Seq<char> {
    seq!['['] + json_joined(items) + seq![']']
}

/// `serde_json::to_string` on a list of strings: the text of
/// [`json_strings_text`]. Writing into the in-memory buffer cannot fail, and
/// strings always serialize, so the result is always `Ok`.
#[verifier::external_body]
fn encode_json_strings(items: &Vec<String>) -> (r: Result<String, serde_json::Error>)
    ensures
        r is Ok,
        r matches Ok(t) ==> t@ == json_strings_text(items@.map_values(|s: String| s@)),
{
    serde_json::to_string(items)
}

/// The message of a `serde_json` error (its `Display` text).
#[verifier::external_body]
fn json_error_text(e: &serde_json::Error) -> String {
    e.to_string()
}

/// A row ready to be inserted into the dictionary table.
#[derive(Debug)]
pub struct SeedRow {
    pub headword: String,
    pub phonetic: String,
    pub definitions_json: String,
}

/// Prepares one seed record for insertion: records with a blank headword or
/// no definitions are skipped (`Ok(None)`); otherwise the headword is
/// lower-cased and the definitions are encoded as a JSON array.
pub fn seed_row(headword: &str, phonetic: &str, definitions: &Vec<String>) -> (r: Result<
    Option<SeedRow>,
    DictError,
>)
    ensures
        trim(headword@).len() == 0 || definitions.len() == 0 ==> r matches Ok(None),
        trim(headword@).len() > 0 && definitions.len() > 0 ==> match r {
            Ok(Some(row)) => row.headword@ == unicode_lowercase(headword@) && row.phonetic@
                == phonetic@ && row.definitions_json@ == json_strings_text(
                definitions@.map_values(|s: String| s@),
            ),
            Ok(None) => false,
            Err(e) => e is Seed,
        },
        trim(headword@).len() > 0 && definitions.len() > 0 ==> r matches Ok(Some(_)),
{
    let hv = chars_of(headword);
    let ht = trim_chars(&hv);
    if ht.len() == 0 || definitions.len() == 0 {
        return Ok(None);
    }
    let head = to_lowercase(headword);
    match encode_json_strings(definitions) {
        Ok(definitions_json) => Ok(
            Some(SeedRow { headword: head, phonetic: string_of(&chars_of(phonetic)), definitions_json }),
        ),
        Err(e) => {
            let msg = json_error_text(&e);
            Err(DictError::Seed(crate::text::concat("serialize defs: ", msg.as_str())))
        },
    }
}

// ---------------------------------------------------------------------------
// Suggestions
// ---------------------------------------------------------------------------
/// Levenshtein distance between the UTF-8 bytes of `a` and `b` (adequate for
/// the ASCII headwords of the dictionary).
pub fn levenshtein(a: &str, b: &str) -> (d: usize)
    ensures
        d == edit_distance(vstd::utf8::encode_utf8(a@), vstd::utf8::encode_utf8(b@)),
{
    byte_distance(a.as_bytes(), b.as_bytes())
}

/// Each headword scored by its byte-wise edit distance to `q`.
pub open spec fn suggest_scored(q: Seq<char>, headwords: Seq<Seq<char>>) -> Seq<Scored> {
    headwords.map_values(
        |h: Seq<char>| (edit_distance(vstd::utf8::encode_utf8(q), vstd::utf8::encode_utf8(h)), h),
    )
}

/// Suggestions from the cached `headwords` for `prefix`: up to `max`
/// headwords in ascending edit distance to the trimmed, lower-cased prefix;
/// headwords at the same distance keep their order in `headwords`. A blank or
/// oversized prefix, or `max == 0`, gives no suggestion.
pub fn suggest(headwords: &Vec<String>, prefix: &str, max: usize) -> (r: Vec<String>)
    ensures
        r@.map_values(|s: String| s@) == (if !acceptable_word(trim(prefix@)) || max == 0 {
            Seq::<Seq<char>>::empty()
        } else {
            first_texts(
                ranked(
                    suggest_scored(
                        unicode_lowercase(trim(prefix@)),
                        headwords@.map_values(|s: String| s@),
                    ),
                    false,
                ),
                max as nat,
            )
        }),
{
    let pv = chars_of(prefix);
    let t = trim_chars(&pv);
    if t.len() == 0 || utf8_longer_than(&t, MAX_WORD_LEN) || max == 0 {
        let r: Vec<String> = Vec::new();
        assert(r@.map_values(|s: String| s@) =~= Seq::<Seq<char>>::empty());
        return r;
    }
    let ts = string_of(&t);
    let query = to_lowercase(ts.as_str());
    let ghost hws = headwords@.map_values(|s: String| s@);
    let mut sorted: Vec<ScoredText> = Vec::new();
    for i in 0..headwords.len()
        invariant
            hws == headwords@.map_values(|s: String| s@),
            query@ == unicode_lowercase(trim(prefix@)),
            scored_seq(sorted@) == ranked(suggest_scored(query@, hws.take(i as int)), false),
    {
        let hw = &headwords[i];
        let d = byte_distance(query.as_str().as_bytes(), hw.as_str().as_bytes());
        let ghost before = suggest_scored(query@, hws.take(i as int));
        let ghost entry = (d as nat, hw@);
        proof {
            assert(suggest_scored(query@, hws.take(i + 1)) =~= before.push(entry));
            assert(before.push(entry).drop_last() =~= before);
        }
        insert_in_rank(&mut sorted, ScoredText { score: d, text: chars_of(hw.as_str()) }, false);
    }
    assert(hws.take(headwords.len() as int) =~= hws);
    take_texts(&sorted, max)
}

} // verus!
