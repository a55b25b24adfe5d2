//! `NoteStore`: the user's runtime map from an English word to arbitrary
//! content. Words are case-insensitive: every operation trims and lower-cases
//! the word it is given. The store is in memory only and starts empty.
use vstd::prelude::*;
use crate::text::{canonical, canonical_word, compare_chars, chars_of, lemma_seq_lt_irreflexive, seq_lt, trim, ascii_text, ascii_lower_seq};

verus! {

/// A note: the (lower-cased) word it is attached to and its content.
#[derive(Debug, Clone, PartialEq, Eq)]
pub struct Note {
    pub word: String,
    pub content: String,
}

impl Note {
    /// A copy of this note.
    pub fn duplicate(&self) -> (r: Note)
        ensures
            r.word@ == self.word@,
            r.content@ == self.content@,
    {
        Note { word: self.word.clone(), content: self.content.clone() }
    }
}

/// Notes kept in ascending order of their words, each word at most once.
#[derive(Debug)]
pub struct NoteStore {
    notes: Vec<Note>,
}

/// The words of `s` are strictly ascending.
pub open spec fn sorted_words(s: Seq<Note>) -> bool {
    forall|i: int, j: int| 0 <= i < j < s.len() ==> seq_lt(#[trigger] s[i].word@, #[trigger] s[j].word@)
}

/// Index of the note of `s` whose word is `w`.
pub open spec fn index_of_word(s: Seq<Note>, w: Seq<char>) -> int {
    choose|i: int| 0 <= i < s.len() && s[i].word@ == w
}

/// The map from word to content that `s` holds.
pub open spec fn note_map(s: Seq<Note>) -> Map<Seq<char>, Seq<char>> {
    Map::new(
        |w: Seq<char>| exists|i: int| 0 <= i < s.len() && s[i].word@ == w,
        |w: Seq<char>| s[index_of_word(s, w)].content@,
    )
}

proof fn lemma_word_index_unique(s: Seq<Note>, i: int, j: int)
    requires
        sorted_words(s),
        0 <= i < s.len(),
        0 <= j < s.len(),
        s[i].word@ == s[j].word@,
    ensures
        i == j,
{
    lemma_seq_lt_irreflexive(s[i].word@);
    if i < j {
        assert(seq_lt(s[i].word@, s[j].word@));
    } else if j < i {
        assert(seq_lt(s[j].word@, s[i].word@));
    }
}

proof fn lemma_note_map_at(s: Seq<Note>, i: int)
    requires
        sorted_words(s),
        0 <= i < s.len(),
    ensures
        note_map(s).contains_key(s[i].word@),
        note_map(s)[s[i].word@] == s[i].content@,
{
    let w = s[i].word@;
    assert(0 <= i < s.len() && s[i].word@ == w);
    let j = index_of_word(s, w);
    lemma_word_index_unique(s, i, j);
}

/// `note_map(t)` is `m` when `t` holds exactly the entries of `m`.
proof fn lemma_note_map_equals(t: Seq<Note>, m: Map<Seq<char>, Seq<char>>)
    requires
        sorted_words(t),
        forall|i: int|
            0 <= i < t.len() ==> m.contains_key(#[trigger] t[i].word@) && m[t[i].word@]
                == t[i].content@,
        forall|w: Seq<char>|
            #[trigger] m.contains_key(w) ==> exists|i: int| 0 <= i < t.len() && t[i].word@ == w,
    ensures
        note_map(t) == m,
{
    assert forall|w: Seq<char>| #[trigger] note_map(t).contains_key(w) <==> m.contains_key(w) by {
        if note_map(t).contains_key(w) {
            let i = index_of_word(t, w);
            assert(m.contains_key(t[i].word@));
        }
    }
    assert forall|w: Seq<char>| #[trigger] note_map(t).contains_key(w) implies note_map(t)[w]
        == m[w] by {
        let i = index_of_word(t, w);
        lemma_note_map_at(t, i);
    }
    assert(note_map(t) =~= m);
}

proof fn lemma_note_map_len(s: Seq<Note>)
    requires
        sorted_words(s),
    ensures
        note_map(s).dom().len() == s.len(),
        note_map(s).dom().finite(),
{
    let ws = s.map_values(|n: Note| n.word@);
    assert forall|i: int, j: int| 0 <= i < ws.len() && 0 <= j < ws.len() && i != j implies ws[i]
        != ws[j] by {
        if ws[i] == ws[j] {
            lemma_word_index_unique(s, i, j);
        }
    }
    assert(ws.no_duplicates());
    ws.unique_seq_to_set();
    assert forall|w: Seq<char>| #[trigger] note_map(s).dom().contains(w) <==> ws.to_set().contains(
        w,
    ) by {
        if note_map(s).dom().contains(w) {
            let i = index_of_word(s, w);
            assert(ws[i] == w);
        }
        if ws.to_set().contains(w) {
            let i = choose|i: int| 0 <= i < ws.len() && ws[i] == w;
            assert(s[i].word@ == w);
        }
    }
    assert(note_map(s).dom() =~= ws.to_set());
    vstd::seq_lib::seq_to_set_is_finite(ws);
}

impl View for NoteStore {
    type V = Map<Seq<char>, Seq<char>>;

    /// Word (lower-cased) to content.
    closed spec fn view(&self) -> Map<Seq<char>, Seq<char>> {
        note_map(self.notes@)
    }
}

impl NoteStore {
    /// The notes are held in ascending order of their words, each word once.
    pub closed spec fn wf(&self) -> bool {
        sorted_words(self.notes@)
    }

    /// A store holds finitely many notes.
    pub proof fn lemma_finite(&self)
        requires
            self.wf(),
        ensures
            self@.dom().finite(),
    {
        lemma_note_map_len(self.notes@);
    }

    /// An empty store.
    pub fn new() -> (r: Self)
        ensures
            r.wf(),
            r@ == Map::<Seq<char>, Seq<char>>::empty(),
    {
        let r = NoteStore { notes: Vec::new() };
        assert(r@ =~= Map::<Seq<char>, Seq<char>>::empty());
        r
    }

    /// Position of the note for `key` (`Ok`), or where it would be inserted
    /// (`Err`).
    fn position(&self, key: &Vec<char>) -> (r: Result<usize, usize>)
        requires
            self.wf(),
        ensures
            match r {
                Ok(p) => p < self.notes.len() && self.notes@[p as int].word@ == key@,
                Err(p) => p <= self.notes.len() && (forall|i: int|
                    0 <= i < p ==> seq_lt(#[trigger] self.notes@[i].word@, key@)) && (forall|i: int|
                    p <= i < self.notes.len() ==> seq_lt(key@, #[trigger] self.notes@[i].word@)),
            },
    {
        let mut p: usize = 0;
        while p < self.notes.len()
            invariant
                self.wf(),
                p <= self.notes.len(),
                forall|i: int| 0 <= i < p ==> seq_lt(#[trigger] self.notes@[i].word@, key@),
            decreases self.notes.len() - p,
        {
            let w = chars_of(self.notes[p].word.as_str());
            let c = compare_chars(&w, key);
            if c == 0 {
                return Ok(p);
            }
            if c > 0 {
                proof {
                    assert forall|i: int| p <= i < self.notes.len() implies seq_lt(
                        key@,
                        #[trigger] self.notes@[i].word@,
                    ) by {
                        if i > p {
                            assert(seq_lt(self.notes@[p as int].word@, self.notes@[i].word@));
                            crate::text::lemma_seq_lt_transitive(
                                key@,
                                self.notes@[p as int].word@,
                                self.notes@[i].word@,
                            );
                        }
                    }
                }
                return Err(p);
            }
            p += 1;
        }
        Err(p)
    }

    /// Inserts or overwrites the note for `word` (trimmed and lower-cased).
    /// A blank word leaves the store unchanged.
    pub fn set(&mut self, word: &str, content: String)
        requires
            old(self).wf(),
        ensures
            final(self).wf(),
            canonical_word(word@).len() == 0 ==> final(self)@ == old(self)@,
            canonical_word(word@).len() > 0 ==> final(self)@ == old(self)@.insert(
                canonical_word(word@),
                content@,
            ),
            final(self)@.dom().finite(),
            trim(word@).len() == 0 ==> final(self)@ == old(self)@,
            // An ASCII word is stored under its ASCII lower-case form.
            ascii_text(trim(word@)) ==> canonical_word(word@) == ascii_lower_seq(trim(word@)),
    {
        proof {
            lemma_note_map_len(old(self).notes@);
        }
        let key = canonical(word);
        if key.as_str().is_empty() {
            return;
        }
        let kv = chars_of(key.as_str());
        let ghost old_notes = self.notes@;
        let ghost m = old(self)@.insert(key@, content@);
        let ghost cv = content@;
        match self.position(&kv) {
            Ok(p) => {
                self.notes.set(p, Note { word: key, content });
                proof {
                    let t = self.notes@;
                    assert forall|i: int, j: int| 0 <= i < j < t.len() implies seq_lt(
                        #[trigger] t[i].word@,
                        #[trigger] t[j].word@,
                    ) by {
                        assert(old_notes[i].word@ == t[i].word@);
                        assert(old_notes[j].word@ == t[j].word@);
                    }
                    assert forall|i: int| 0 <= i < t.len() implies m.contains_key(
                        #[trigger] t[i].word@,
                    ) && m[t[i].word@] == t[i].content@ by {
                        if i != p {
                            lemma_note_map_at(old_notes, i);
                            if t[i].word@ == kv@ {
                                lemma_word_index_unique(old_notes, i, p as int);
                            }
                        }
                    }
                    assert forall|w: Seq<char>| #[trigger] m.contains_key(w) implies exists|i: int|
                        0 <= i < t.len() && t[i].word@ == w by {
                        if w != kv@ {
                            let i = index_of_word(old_notes, w);
                            assert(t[i].word@ == w);
                        } else {
                            assert(t[p as int].word@ == w);
                        }
                    }
                    lemma_note_map_equals(t, m);
                }
            },
            Err(p) => {
                self.notes.insert(p, Note { word: key, content });
                proof {
                    let t = self.notes@;
                    assert forall|i: int| 0 <= i < t.len() implies #[trigger] t[i] == (if i < p {
                        old_notes[i]
                    } else if i == p {
                        t[p as int]
                    } else {
                        old_notes[i - 1]
                    }) by {}
                    assert forall|i: int, j: int| 0 <= i < j < t.len() implies seq_lt(
                        #[trigger] t[i].word@,
                        #[trigger] t[j].word@,
                    ) by {
                        if j < p {
                        } else if j == p {
                        } else if i < p {
                            crate::text::lemma_seq_lt_transitive(
                                t[i].word@,
                                kv@,
                                t[j].word@,
                            );
                        } else if i == p {
                        } else {
                        }
                    }
                    assert forall|i: int| 0 <= i < t.len() implies m.contains_key(
                        #[trigger] t[i].word@,
                    ) && m[t[i].word@] == t[i].content@ by {
                        if i < p {
                            lemma_note_map_at(old_notes, i);
                            lemma_seq_lt_irreflexive(kv@);
                        } else if i > p {
                            lemma_note_map_at(old_notes, i - 1);
                            lemma_seq_lt_irreflexive(kv@);
                        }
                    }
                    assert forall|w: Seq<char>| #[trigger] m.contains_key(w) implies exists|i: int|
                        0 <= i < t.len() && t[i].word@ == w by {
                        if w != kv@ {
                            let i = index_of_word(old_notes, w);
                            if i < p {
                                assert(t[i].word@ == w);
                            } else {
                                assert(t[i + 1].word@ == w);
                            }
                        } else {
                            assert(t[p as int].word@ == w);
                        }
                    }
                    lemma_note_map_equals(t, m);
                }
            },
        }
    }

    /// Removes the note for `word`; returns whether there was one. A blank
    /// word removes nothing.
    pub fn remove(&mut self, word: &str) -> (r: bool)
        requires
            old(self).wf(),
        ensures
            final(self).wf(),
            canonical_word(word@).len() == 0 ==> !r && final(self)@ == old(self)@,
            canonical_word(word@).len() > 0 ==> r == old(self)@.contains_key(canonical_word(word@))
                && final(self)@ == old(self)@.remove(canonical_word(word@)),
            trim(word@).len() == 0 ==> !r && final(self)@ == old(self)@,
            ascii_text(trim(word@)) ==> canonical_word(word@) == ascii_lower_seq(trim(word@)),
    {
        let key = canonical(word);
        if key.as_str().is_empty() {
            return false;
        }
        let kv = chars_of(key.as_str());
        let ghost old_notes = self.notes@;
        let ghost m = old(self)@.remove(key@);
        match self.position(&kv) {
            Ok(p) => {
                self.notes.remove(p);
                proof {
                    lemma_note_map_at(old_notes, p as int);
                    let t = self.notes@;
                    assert forall|i: int| 0 <= i < t.len() implies #[trigger] t[i] == (if i < p {
                        old_notes[i]
                    } else {
                        old_notes[i + 1]
                    }) by {}
                    assert forall|i: int, j: int| 0 <= i < j < t.len() implies seq_lt(
                        #[trigger] t[i].word@,
                        #[trigger] t[j].word@,
                    ) by {
                        if j < p {
                        } else if i < p {
                            assert(seq_lt(old_notes[i].word@, old_notes[j + 1].word@));
                        } else {
                            assert(seq_lt(old_notes[i + 1].word@, old_notes[j + 1].word@));
                        }
                    }
                    assert forall|i: int| 0 <= i < t.len() implies m.contains_key(
                        #[trigger] t[i].word@,
                    ) && m[t[i].word@] == t[i].content@ by {
                        let oi = if i < p {
                            i
                        } else {
                            i + 1
                        };
                        lemma_note_map_at(old_notes, oi);
                        if t[i].word@ == kv@ {
                            lemma_word_index_unique(old_notes, oi, p as int);
                        }
                    }
                    assert forall|w: Seq<char>| #[trigger] m.contains_key(w) implies exists|i: int|
                        0 <= i < t.len() && t[i].word@ == w by {
                        let i = index_of_word(old_notes, w);
                        if i < p {
                            assert(t[i].word@ == w);
                        } else {
                            assert(i != p);
                            assert(t[i - 1].word@ == w);
                        }
                    }
                    lemma_note_map_equals(t, m);
                }
                true
            },
            Err(_) => {
                proof {
                    assert(!old(self)@.contains_key(kv@)) by {
                        if old(self)@.contains_key(kv@) {
                            let i = index_of_word(old_notes, kv@);
                            lemma_seq_lt_irreflexive(kv@);
                        }
                    }
                    assert(m =~= old(self)@);
                }
                false
            },
        }
    }

    /// The note for `word` (trimmed and lower-cased), if any.
    pub fn get(&self, word: &str) -> (r: Option<&Note>)
        requires
            self.wf(),
        ensures
            match r {
                Some(n) => canonical_word(word@).len() > 0 && self@.contains_key(
                    canonical_word(word@),
                ) && n.word@ == canonical_word(word@) && n.content@ == self@[canonical_word(
                    word@,
                )],
                None => canonical_word(word@).len() == 0 || !self@.contains_key(
                    canonical_word(word@),
                ),
            },
            // An ASCII word is looked up by its ASCII lower-case form.
            ascii_text(trim(word@)) ==> canonical_word(word@) == ascii_lower_seq(trim(word@)),
    {
        let key = canonical(word);
        if key.as_str().is_empty() {
            return None;
        }
        let kv = chars_of(key.as_str());
        match self.position(&kv) {
            Ok(p) => {
                proof {
                    lemma_note_map_at(self.notes@, p as int);
                }
                Some(&self.notes[p])
            },
            Err(_) => {
                proof {
                    if self@.contains_key(kv@) {
                        let i = index_of_word(self.notes@, kv@);
                        lemma_seq_lt_irreflexive(kv@);
                    }
                }
                None
            },
        }
    }

    /// All notes, in ascending order of their words.
    pub fn list(&self) -> (r: Vec<&Note>)
        requires
            self.wf(),
        ensures
            r.len() == self@.dom().len(),
            forall|i: int, j: int|
                0 <= i < j < r.len() ==> seq_lt(#[trigger] r@[i].word@, #[trigger] r@[j].word@),
            forall|i: int|
                0 <= i < r.len() ==> self@.contains_key(#[trigger] r@[i].word@) && self@[r@[i].word@]
                    == r@[i].content@,
            forall|w: Seq<char>|
                #[trigger] self@.contains_key(w) ==> exists|i: int| 0 <= i < r.len() && r@[i].word@ == w,
    {
        let mut r: Vec<&Note> = Vec::new();
        for i in 0..self.notes.len()
            invariant
                self.wf(),
                r.len() == i,
                forall|k: int| 0 <= k < i ==> *(#[trigger] r@[k]) == self.notes@[k],
        {
            r.push(&self.notes[i]);
        }
        proof {
            lemma_note_map_len(self.notes@);
            assert forall|i: int| 0 <= i < r.len() implies self@.contains_key(
                #[trigger] r@[i].word@,
            ) && self@[r@[i].word@] == r@[i].content@ by {
                lemma_note_map_at(self.notes@, i);
            }
            assert forall|w: Seq<char>| #[trigger] self@.contains_key(w) implies exists|i: int|
                0 <= i < r.len() && r@[i].word@ == w by {
                let i = index_of_word(self.notes@, w);
                assert(r@[i].word@ == w);
            }
        }
        r
    }

    /// Number of notes.
    pub fn len(&self) -> (r: usize)
        requires
            self.wf(),
        ensures
            r == self@.dom().len(),
            self@.dom().finite(),
    {
        proof {
            lemma_note_map_len(self.notes@);
        }
        self.notes.len()
    }

    /// Whether there is no note.
    pub fn is_empty(&self) -> (r: bool)
        requires
            self.wf(),
        ensures
            r == (self@.dom().len() == 0),
    {
        proof {
            lemma_note_map_len(self.notes@);
        }
        self.notes.len() == 0
    }
}

// ---------------------------------------------------------------------------
// Laws
// ---------------------------------------------------------------------------
/// Setting a note for a word adds one note when the word had none, and
/// keeps the count when it overwrites the word's note.
pub proof fn law_set_count(before: Map<Seq<char>, Seq<char>>, word: Seq<char>, content: Seq<char>)
    requires
        before.dom().finite(),
        canonical_word(word).len() > 0,
    ensures
        before.insert(canonical_word(word), content).dom().len() == before.dom().len() + (if before.contains_key(canonical_word(word)) {
            0int
        } else {
            1int
        }),
{
    let k = canonical_word(word);
    if before.contains_key(k) {
        assert(before.insert(k, content).dom() =~= before.dom());
    } else {
        assert(before.insert(k, content).dom() =~= before.dom().insert(k));
    }
}

/// Setting a note and then getting it, by any spelling of the word that
/// trims and lower-cases to the same key, gives back the content set.
pub proof fn law_set_then_get(
    before: Map<Seq<char>, Seq<char>>,
    set_word: Seq<char>,
    get_word: Seq<char>,
    content: Seq<char>,
)
    requires
        canonical_word(set_word).len() > 0,
        canonical_word(get_word) == canonical_word(set_word),
    ensures
        before.insert(canonical_word(set_word), content).contains_key(canonical_word(get_word)),
        before.insert(canonical_word(set_word), content)[canonical_word(get_word)] == content,
{
}

/// Setting a note leaves the notes of every other word unchanged.
pub proof fn law_set_preserves_others(
    before: Map<Seq<char>, Seq<char>>,
    word: Seq<char>,
    content: Seq<char>,
    other: Seq<char>,
)
    requires
        canonical_word(word).len() > 0,
        other != canonical_word(word),
    ensures
        before.insert(canonical_word(word), content).contains_key(other) == before.contains_key(
            other,
        ),
        before.contains_key(other) ==> before.insert(canonical_word(word), content)[other]
            == before[other],
{
}

/// Overwriting: setting twice keeps only the second content, and the number
/// of notes grows by one only for a word that had no note.
pub proof fn law_set_overwrites(
    before: Map<Seq<char>, Seq<char>>,
    word: Seq<char>,
    first: Seq<char>,
    second: Seq<char>,
)
    requires
        canonical_word(word).len() > 0,
        before.dom().finite(),
    ensures
        before.insert(canonical_word(word), first).insert(canonical_word(word), second)
            == before.insert(canonical_word(word), second),
        before.insert(canonical_word(word), second).dom().len() == if before.contains_key(
            canonical_word(word),
        ) {
            before.dom().len()
        } else {
            before.dom().len() + 1
        },
{
    let k = canonical_word(word);
    assert(before.insert(k, first).insert(k, second) =~= before.insert(k, second));
    if before.contains_key(k) {
        assert(before.insert(k, second).dom() =~= before.dom());
    } else {
        assert(before.insert(k, second).dom() =~= before.dom().insert(k));
    }
}

/// Removing a word after setting it leaves no note for it, and removing is
/// idempotent: a second removal finds nothing.
pub proof fn law_set_then_remove(before: Map<Seq<char>, Seq<char>>, word: Seq<char>, content: Seq<char>)
    requires
        canonical_word(word).len() > 0,
    ensures
        before.insert(canonical_word(word), content).contains_key(canonical_word(word)),
        !before.insert(canonical_word(word), content).remove(canonical_word(word)).contains_key(
            canonical_word(word),
        ),
        before.insert(canonical_word(word), content).remove(canonical_word(word)) == before.remove(
            canonical_word(word),
        ),
        before.remove(canonical_word(word)).remove(canonical_word(word)) == before.remove(
            canonical_word(word),
        ),
{
    let k = canonical_word(word);
    assert(before.insert(k, content).remove(k) =~= before.remove(k));
    assert(before.remove(k).remove(k) =~= before.remove(k));
}

} // verus!
