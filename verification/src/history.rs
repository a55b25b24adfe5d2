//! `HistoryStore`: a bounded list of recent successful lookups, most recent
//! first. Recording a word that is already present moves it to the front with
//! a fresh timestamp; the oldest entries fall off beyond the capacity.
use vstd::prelude::*;
use crate::text::{canonical, canonical_word, trim};

verus! {

/// One recorded lookup.
#[derive(Debug, PartialEq, Eq)]
pub struct HistoryEntry {
    /// The word looked up, trimmed and lower-cased.
    pub word: String,
    /// Wall-clock unix seconds when it was recorded.
    pub at_unix_secs: i64,
}

impl HistoryEntry {
    /// A copy of this entry.
    pub fn duplicate(&self) -> (r: HistoryEntry)
        ensures
            r@ == self@,
    {
        HistoryEntry { word: self.word.clone(), at_unix_secs: self.at_unix_secs }
    }
}

impl View for HistoryEntry {
    type V = (Seq<char>, i64);

    open spec fn view(&self) -> (Seq<char>, i64) {
        (self.word@, self.at_unix_secs)
    }
}

/// Recent lookups, most recent first, at most `cap` of them, each word once.
#[derive(Debug)]
pub struct HistoryStore {
    cap: usize,
    items: Vec<HistoryEntry>,
}

/// `items` without the entry for `word`.
pub open spec fn without_word(items: Seq<(Seq<char>, i64)>, word: Seq<char>) -> Seq<(Seq<char>, i64)>
    decreases items.len(),
{
    if items.len() == 0 {
        Seq::empty()
    } else if items.last().0 == word {
        without_word(items.drop_last(), word)
    } else {
        without_word(items.drop_last(), word).push(items.last())
    }
}

/// The history `items` after recording `word` at time `at` with capacity
/// `cap`: the word at the front with its new time, followed by the other
/// entries in their order, cut to `cap` entries.
pub open spec fn recorded(items: Seq<(Seq<char>, i64)>, word: Seq<char>, at: i64, cap: nat) -> Seq<
    (Seq<char>, i64),
> {
    let s = seq![(word, at)] + without_word(items, word);
    if s.len() <= cap {
        s
    } else {
        s.take(cap as int)
    }
}

/// The words of `items` are non-empty and pairwise distinct.
pub open spec fn distinct_words(items: Seq<(Seq<char>, i64)>) -> bool {
    &&& forall|i: int| 0 <= i < items.len() ==> (#[trigger] items[i]).0.len() > 0
    &&& forall|i: int, j: int|
        0 <= i < j < items.len() ==> (#[trigger] items[i]).0 != (#[trigger] items[j]).0
}

proof fn lemma_without_absent(items: Seq<(Seq<char>, i64)>, word: Seq<char>)
    requires
        forall|i: int| 0 <= i < items.len() ==> (#[trigger] items[i]).0 != word,
    ensures
        without_word(items, word) == items,
    decreases items.len(),
{
    if items.len() > 0 {
        lemma_without_absent(items.drop_last(), word);
        assert(items.drop_last().push(items.last()) =~= items);
    }
}

proof fn lemma_without_at(items: Seq<(Seq<char>, i64)>, word: Seq<char>, p: int)
    requires
        0 <= p < items.len(),
        items[p].0 == word,
        forall|i: int| 0 <= i < items.len() && i != p ==> (#[trigger] items[i]).0 != word,
    ensures
        without_word(items, word) == items.remove(p),
    decreases items.len(),
{
    if p == items.len() - 1 {
        lemma_without_absent(items.drop_last(), word);
        assert(items.remove(p) =~= items.drop_last());
    } else {
        lemma_without_at(items.drop_last(), word, p);
        assert(items.drop_last().remove(p).push(items.last()) =~= items.remove(p));
    }
}

proof fn lemma_without_members(items: Seq<(Seq<char>, i64)>, word: Seq<char>)
    ensures
        forall|k: int|
            0 <= k < without_word(items, word).len() ==> (#[trigger] without_word(items, word)[k]).0
                != word && items.contains(without_word(items, word)[k]),
    decreases items.len(),
{
    if items.len() > 0 {
        let r = without_word(items.drop_last(), word);
        lemma_without_members(items.drop_last(), word);
        assert forall|k: int| 0 <= k < without_word(items, word).len() implies (
        #[trigger] without_word(items, word)[k]).0 != word && items.contains(
            without_word(items, word)[k],
        ) by {
            if k < r.len() {
                assert(without_word(items, word)[k] == r[k]);
                let j = choose|j: int| 0 <= j < items.drop_last().len() && items.drop_last()[j] == r[k];
                assert(items[j] == r[k]);
            } else {
                assert(items[items.len() - 1] == items.last());
            }
        }
    }
}

/// No entry of `without_word(items, word)` is for `word`.
pub proof fn lemma_without_word_excludes(items: Seq<(Seq<char>, i64)>, word: Seq<char>)
    ensures
        forall|k: int|
            0 <= k < without_word(items, word).len() ==> (#[trigger] without_word(items, word)[k]).0
                != word,
{
    lemma_without_members(items, word);
}

impl View for HistoryStore {
    type V = Seq<(Seq<char>, i64)>;

    /// The entries, most recent first.
    closed spec fn view(&self) -> Seq<(Seq<char>, i64)> {
        self.items@.map_values(|e: HistoryEntry| e@)
    }
}

impl HistoryStore {
    /// The capacity the store was built with.
    pub closed spec fn capacity(&self) -> nat {
        self.cap as nat
    }

    /// At most `capacity` entries, with distinct non-empty words.
    pub closed spec fn wf(&self) -> bool {
        &&& self.items.len() <= self.cap
        &&& distinct_words(self@)
    }

    /// An empty history keeping at most `max` entries. With `max == 0`
    /// recording does nothing.
    pub fn with_capacity(max: usize) -> (r: Self)
        ensures
            r.wf(),
            r.capacity() == max,
            r@ == Seq::<(Seq<char>, i64)>::empty(),
    {
        let r = HistoryStore { cap: max, items: Vec::new() };
        assert(r@ =~= Seq::<(Seq<char>, i64)>::empty());
        r
    }

    /// Records a successful lookup of `word` (trimmed and lower-cased) at
    /// time `at_unix_secs`. A blank word, or a capacity of zero, changes
    /// nothing.
    pub fn record_at(&mut self, word: &str, at_unix_secs: i64)
        requires
            old(self).wf(),
        ensures
            final(self).wf(),
            final(self).capacity() == old(self).capacity(),
            canonical_word(word@).len() == 0 || old(self).capacity() == 0 ==> final(self)@ == old(
                self,
            )@,
            canonical_word(word@).len() > 0 && old(self).capacity() > 0 ==> final(self)@
                == recorded(old(self)@, canonical_word(word@), at_unix_secs, old(self).capacity()),
            // A non-blank word is recorded at the front with the given time;
            // a blank one changes nothing.
            trim(word@).len() > 0 && old(self).capacity() > 0 ==> final(self)@.len() > 0
                && final(self)@[0] == (canonical_word(word@), at_unix_secs),
            trim(word@).len() == 0 ==> final(self)@ == old(self)@,
    {
        let key = canonical(word);
        if key.as_str().is_empty() || self.cap == 0 {
            return;
        }
        let ghost old_view = self@;
        let ghost cap = self.cap;
        let mut pos: usize = 0;
        while pos < self.items.len() && !(self.items[pos].word == key)
            invariant
                pos <= self.items.len(),
                self@ == old_view,
                self.cap == cap,
                forall|i: int| 0 <= i < pos ==> (#[trigger] old_view[i]).0 != key@,
            decreases self.items.len() - pos,
        {
            pos += 1;
        }
        proof {
            if pos < self.items.len() {
                assert(old_view[pos as int].0 == key@);
                assert forall|i: int| 0 <= i < old_view.len() && i != pos implies (
                #[trigger] old_view[i]).0 != key@ by {
                    if i > pos {
                        assert(old_view[pos as int].0 != old_view[i].0);
                    }
                }
                lemma_without_at(old_view, key@, pos as int);
            } else {
                lemma_without_absent(old_view, key@);
            }
        }
        if pos < self.items.len() {
            self.items.remove(pos);
        }
        proof {
            assert(self@ =~= without_word(old_view, key@));
        }
        let ghost kv = key@;
        self.items.insert(0, HistoryEntry { word: key, at_unix_secs });
        assert(self@ =~= seq![(kv, at_unix_secs)] + without_word(old_view, kv));
        while self.items.len() > self.cap
            invariant
                self.cap > 0,
                self.cap == cap,
                self.items.len() >= self.cap || self.items.len() == (seq![(kv, at_unix_secs)]
                    + without_word(old_view, kv)).len(),
                (seq![(kv, at_unix_secs)] + without_word(old_view, kv)).take(self.items.len() as int)
                    == self@,
                self.items.len() <= (seq![(kv, at_unix_secs)] + without_word(old_view, kv)).len(),
            decreases self.items.len(),
        {
            let ghost before = self@;
            self.items.pop();
            assert(self@ =~= before.drop_last());
        }
        proof {
            let s = seq![(kv, at_unix_secs)] + without_word(old_view, kv);
            assert(s.take(s.len() as int) =~= s);
            lemma_without_members(old_view, kv);
            let v = self@;
            assert forall|i: int| 0 <= i < v.len() implies (#[trigger] v[i]).0.len() > 0 by {
                if i > 0 {
                    let e = s[i];
                    assert(e == without_word(old_view, kv)[i - 1]);
                    let j = choose|j: int| 0 <= j < old_view.len() && old_view[j] == e;
                    assert(old_view[j].0.len() > 0);
                }
            }
            assert forall|i: int, j: int| 0 <= i < j < v.len() implies (#[trigger] v[i]).0 != (
            #[trigger] v[j]).0 by {
                let w = without_word(old_view, kv);
                assert(v[j] == w[j - 1]);
                if i > 0 {
                    assert(v[i] == w[i - 1]);
                    let a = choose|a: int| 0 <= a < old_view.len() && old_view[a] == w[i - 1];
                    let b = choose|b: int| 0 <= b < old_view.len() && old_view[b] == w[j - 1];
                    lemma_without_distinct(old_view, kv, i - 1, j - 1);
                }
            }
        }
    }

    /// Records a successful lookup of `word` at the current wall-clock time.
    /// Everything but the timestamp is as for [`HistoryStore::record_at`].
    pub fn record(&mut self, word: &str)
        requires
            old(self).wf(),
        ensures
            final(self).wf(),
            final(self).capacity() == old(self).capacity(),
            canonical_word(word@).len() == 0 || old(self).capacity() == 0 ==> final(self)@ == old(
                self,
            )@,
            canonical_word(word@).len() > 0 && old(self).capacity() > 0 ==> final(self)@
                == recorded(
                old(self)@,
                canonical_word(word@),
                final(self)@[0].1,
                old(self).capacity(),
            ),
            // A non-blank word is recorded at the front; a blank one changes
            // nothing.
            trim(word@).len() > 0 && old(self).capacity() > 0 ==> final(self)@.len() > 0
                && final(self)@[0].0 == canonical_word(word@),
            trim(word@).len() == 0 ==> final(self)@ == old(self)@,
    {
        let key = canonical(word);
        if key.as_str().is_empty() || self.cap == 0 {
            return;
        }
        let at = match clock_seconds() {
            Some(s) => s as i64,
            None => 0,
        };
        self.record_at(word, at);
        proof {
            if canonical_word(word@).len() > 0 && old(self).capacity() > 0 {
                assert(self@[0].1 == at);
            }
        }
    }

    /// The entries, most recent first.
    pub fn recent(&self) -> (r: Vec<HistoryEntry>)
        ensures
            r@.map_values(|e: HistoryEntry| e@) == self@,
    {
        let mut r: Vec<HistoryEntry> = Vec::new();
        for i in 0..self.items.len()
            invariant
                r.len() == i,
                forall|k: int| 0 <= k < i ==> (#[trigger] r@[k])@ == self.items@[k]@,
        {
            r.push(self.items[i].duplicate());
        }
        assert(r@.map_values(|e: HistoryEntry| e@) =~= self@);
        r
    }

    /// Drops every entry.
    pub fn clear(&mut self)
        requires
            old(self).wf(),
        ensures
            final(self).wf(),
            final(self).capacity() == old(self).capacity(),
            final(self)@ == Seq::<(Seq<char>, i64)>::empty(),
    {
        self.items.clear();
        assert(self@ =~= Seq::<(Seq<char>, i64)>::empty());
    }

    /// Number of entries.
    pub fn len(&self) -> (r: usize)
        ensures
            r == self@.len(),
    {
        self.items.len()
    }

    /// Whether there is no entry.
    pub fn is_empty(&self) -> (r: bool)
        ensures
            r == (self@.len() == 0),
    {
        self.items.len() == 0
    }
}

proof fn lemma_without_distinct(items: Seq<(Seq<char>, i64)>, word: Seq<char>, i: int, j: int)
    requires
        distinct_words(items),
        0 <= i < j < without_word(items, word).len(),
    ensures
        without_word(items, word)[i].0 != without_word(items, word)[j].0,
    decreases items.len(),
{
    let r = without_word(items.drop_last(), word);
    assert(distinct_words(items.drop_last())) by {
        assert forall|a: int, b: int| 0 <= a < b < items.drop_last().len() implies (
        #[trigger] items.drop_last()[a]).0 != (#[trigger] items.drop_last()[b]).0 by {
            assert(items[a] == items.drop_last()[a]);
            assert(items[b] == items.drop_last()[b]);
        }
        assert forall|a: int| 0 <= a < items.drop_last().len() implies (
        #[trigger] items.drop_last()[a]).0.len() > 0 by {
            assert(items[a] == items.drop_last()[a]);
        }
    }
    if items.last().0 == word {
        lemma_without_distinct(items.drop_last(), word, i, j);
    } else if j < r.len() {
        lemma_without_distinct(items.drop_last(), word, i, j);
    } else {
        lemma_without_members(items.drop_last(), word);
        let e = r[i];
        let a = choose|a: int| 0 <= a < items.drop_last().len() && items.drop_last()[a] == e;
        assert(items[a] == e);
        assert(items[a].0 != items[items.len() - 1].0);
    }
}

/// A history never holds more entries than its capacity, and never holds a
/// word twice (or a blank word).
pub proof fn law_history_bounded_and_distinct(h: &HistoryStore)
    requires
        h.wf(),
    ensures
        h@.len() <= h.capacity(),
        distinct_words(h@),
{
}

#[verifier::external_type_specification]
#[verifier::external_body]
pub struct ExSystemTime(std::time::SystemTime);

#[verifier::external_type_specification]
#[verifier::external_body]
pub struct ExSystemTimeError(std::time::SystemTimeError);

/// `SystemTime::now`: the system clock's current reading. Nothing is claimed
/// of it.
#[verifier::external_body]
fn system_now() -> std::time::SystemTime {
    std::time::SystemTime::now()
}

/// `SystemTime::duration_since(UNIX_EPOCH)`: the time elapsed since the Unix
/// epoch, or an error when `t` lies before it. Nothing is claimed of it.
#[verifier::external_body]
fn since_unix_epoch(t: &std::time::SystemTime) -> Result<std::time::Duration, std::time::SystemTimeError> {
    t.duration_since(std::time::UNIX_EPOCH)
}

/// `Duration::as_secs`: the whole seconds of `d`. Nothing is claimed of it.
#[verifier::external_body]
fn whole_seconds(d: &std::time::Duration) -> u64 {
    d.as_secs()
}

/// Seconds since the Unix epoch on the system clock, or `None` when the clock
/// is set before the epoch.
fn clock_seconds() -> Option<u64> {
    let now = system_now();
    match since_unix_epoch(&now) {
        Ok(d) => Some(whole_seconds(&d)),
        Err(_) => None,
    }
}

} // verus!
