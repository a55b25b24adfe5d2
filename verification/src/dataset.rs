//! Building the dictionary dataset from the rows of the source dictionary:
//! which words are kept, how they are ranked by commonness, and which of them
//! make the dataset.
//!
//! A row is kept when its word is a clean single word that does not start
//! with a capital letter and is not an inflected form of another lemma. Kept
//! words are ranked by contemporary corpus frequency, then by BNC frequency,
//! then by exam/Collins/Oxford tags, then (for real words with a phonetic
//! spelling) by length; the best occurrence of each word is kept, up to
//! [`TARGET_WORDS`] words.
use vstd::prelude::*;
use vstd::hash_set::StringHashSet;
use crate::lexicon::{
    build_word_en, built_word_en, clean_word, has_vowel, is_clean_word, is_inflection_of_other,
    is_vowel, marks_other_lemma, pieces,
};
use crate::record::WordEn;
use crate::sort::{
    index_view, key_lt, key_view, keys_view, lemma_sorted_distinct, positions, sort_positions,
    sorted_positions, strictly_sorted, KeyPart, PartView,
};
use crate::text::{ascii_lower_chars, ascii_lower_seq, chars_of, seq_lt, string_of, trim, trim_chars};

verus! {

/// Number of headwords in the dataset.
pub const TARGET_WORDS: usize = 100_000;

/// One row of the source dictionary, with absent fields as empty strings and
/// zeros.
pub struct SourceRow {
    pub word: String,
    pub phonetic: String,
    pub translation: String,
    pub exchange: String,
    pub frq: i64,
    pub bnc: i64,
    pub collins: i64,
    pub oxford: i64,
    pub tag: String,
}

/// A kept row: its lower-case key, its word record and its ranking key
/// (tier, rank, tie-break; lower is more common).
pub struct Candidate {
    pub key: String,
    pub word_en: WordEn,
    pub tier: u8,
    pub rank: i64,
    pub tie: i64,
}

/// A candidate as plain values, with the index of the row it came from.
pub struct CandView {
    pub key: Seq<char>,
    pub tier: int,
    pub rank: int,
    pub tie: int,
    pub row: int,
}

/// `s` starts with an ASCII capital letter.
pub open spec fn starts_upper(s: Seq<char>) -> bool {
    s.len() > 0 && 'A' <= s[0] && s[0] <= 'Z'
}

/// The exchange field marks `key` as an inflected form of another lemma.
pub open spec fn names_other_lemma(exchange: Seq<char>, key: Seq<char>) -> bool {
    exists|k: int|
        0 <= k < pieces(exchange, seq!['/']).len() && marks_other_lemma(
            #[trigger] pieces(exchange, seq!['/'])[k],
            key,
        )
}

/// `s` holds a vowel.
pub open spec fn vowel_in(s: Seq<char>) -> bool {
    exists|k: int| 0 <= k < s.len() && is_vowel(#[trigger] s[k])
}

/// The lower-case key of a row.
pub open spec fn row_key(row: SourceRow) -> Seq<char> {
    ascii_lower_seq(row.word@)
}

/// The row's word is kept: clean, not capitalised, not an inflected form of
/// another lemma.
pub open spec fn row_kept(row: SourceRow) -> bool {
    clean_word(row.word@) && !starts_upper(row.word@) && !names_other_lemma(
        row.exchange@,
        row_key(row),
    )
}

/// The row carries an exam, Collins or Oxford tag.
pub open spec fn tagged(row: SourceRow) -> bool {
    row.collins > 0 || row.oxford > 0 || trim(row.tag@).len() > 0
}

/// Ranking key of a kept row whose key has `len` characters: frequency-ranked
/// words first by frequency, then BNC-ranked words by BNC rank and length,
/// then tagged words by Collins stars and Oxford membership (more first) and
/// length, then untagged words that have a phonetic spelling, a vowel and at
/// least three letters, by length; no rank for the rest.
pub open spec fn word_rank(row: SourceRow, len: int) -> Option<(int, int, int)> {
    if row.frq > 0 {
        Some((0, row.frq as int, 0))
    } else if row.bnc > 0 {
        Some((1, row.bnc as int, len))
    } else if tagged(row) {
        Some((2, -(row.collins * 10 + row.oxford), len))
    } else if trim(row.phonetic@).len() > 0 && vowel_in(row_key(row)) && len >= 3 {
        Some((3, len, 0))
    } else {
        None
    }
}

/// The candidate that the row at `index` gives, if it is kept and ranked.
pub open spec fn row_candidate(row: SourceRow, index: int) -> Option<CandView> {
    if !row_kept(row) {
        None
    } else {
        match word_rank(row, row_key(row).len() as int) {
            Some((t, r, e)) => Some(CandView { key: row_key(row), tier: t, rank: r, tie: e, row: index }),
            None => None,
        }
    }
}

/// The Collins/Oxford rank of a row fits in an `i64` wherever it is computed.
pub open spec fn rank_fits(row: SourceRow) -> bool {
    (row_kept(row) && row.frq <= 0 && row.bnc <= 0 && tagged(row)) ==> (i64::MIN <= row.collins
        * 10 <= i64::MAX && i64::MIN < row.collins * 10 + row.oxford <= i64::MAX)
}

/// `c` is the candidate `v` of a row of `rows`.
pub open spec fn matches_view(c: Candidate, v: CandView, rows: Seq<SourceRow>) -> bool {
    &&& c.key@ == v.key
    &&& c.tier == v.tier
    &&& c.rank == v.rank
    &&& c.tie == v.tie
    &&& 0 <= v.row < rows.len()
    &&& built_word_en(
        c.word_en,
        v.key,
        rows[v.row].phonetic@,
        rows[v.row].translation@,
        rows[v.row].exchange@,
    )
}

/// The candidates of `rows`, in row order.
pub open spec fn candidates(rows: Seq<SourceRow>) -> Seq<CandView>
    decreases rows.len(),
{
    if rows.len() == 0 {
        Seq::empty()
    } else {
        let prev = candidates(rows.drop_last());
        match row_candidate(rows.last(), rows.len() - 1) {
            Some(c) => prev.push(c),
            None => prev,
        }
    }
}

/// The sort key of a candidate: tier, rank, tie-break, then the word.
pub open spec fn rank_key(c: CandView) -> Seq<PartView> {
    seq![PartView::Num(c.tier), PartView::Num(c.rank), PartView::Num(c.tie), PartView::Text(c.key)]
}

pub open spec fn rank_keys(cs: Seq<CandView>) -> Seq<Seq<PartView>> {
    cs.map_values(|c: CandView| rank_key(c))
}

/// The candidates most common first (a stable sort by [`rank_key`]).
pub open spec fn ranked(cs: Seq<CandView>) -> Seq<CandView> {
    sorted_positions(rank_keys(cs)).map_values(|p: nat| cs[p as int])
}

/// The words of a list of candidates.
pub open spec fn keys_set(s: Seq<CandView>) -> Set<Seq<char>>
    decreases s.len(),
{
    if s.len() == 0 {
        Set::empty()
    } else {
        keys_set(s.drop_last()).insert(s.last().key)
    }
}

/// The first candidate of each word, in order, until `cap` are taken.
pub open spec fn first_per_key(s: Seq<CandView>, cap: nat) -> Seq<CandView>
    decreases s.len(),
{
    if s.len() == 0 {
        Seq::empty()
    } else {
        let prev = first_per_key(s.drop_last(), cap);
        if prev.len() >= cap || keys_set(prev).contains(s.last().key) {
            prev
        } else {
            prev.push(s.last())
        }
    }
}

/// The dataset chosen from `rows`.
pub open spec fn selection(rows: Seq<SourceRow>) -> Seq<CandView> {
    first_per_key(ranked(candidates(rows)), TARGET_WORDS as nat)
}

fn starts_with_upper(v: &Vec<char>) -> (r: bool)
    ensures
        r == starts_upper(v@),
{
    v.len() > 0 && 'A' <= v[0] && v[0] <= 'Z'
}

/// Whether the row's word is kept (see [`row_kept`]).
pub fn keeps_row(row: &SourceRow) -> (r: bool)
    ensures
        r == row_kept(*row),
{
    if !is_clean_word(row.word.as_str()) {
        return false;
    }
    let w = chars_of(row.word.as_str());
    if starts_with_upper(&w) {
        return false;
    }
    let key = string_of(&ascii_lower_chars(&w));
    !is_inflection_of_other(row.exchange.as_str(), key.as_str())
}

/// The candidate of one source row, or `None` when the row is dropped.
pub fn candidate_of(row: &SourceRow) -> (r: Option<Candidate>)
    requires
        rank_fits(*row),
    ensures
        match r {
            Some(c) => row_candidate(*row, 0) matches Some(v) && c.key@ == v.key && c.tier == v.tier
                && c.rank == v.rank && c.tie == v.tie && built_word_en(
                c.word_en,
                v.key,
                row.phonetic@,
                row.translation@,
                row.exchange@,
            ),
            None => row_candidate(*row, 0) is None,
        },
{
    let w = chars_of(row.word.as_str());
    if !is_clean_word(row.word.as_str()) {
        return None;
    }
    if starts_with_upper(&w) {
        return None;
    }
    // The word is made of ASCII letters, so its lower-case form is its ASCII
    // lower-case form.
    let lower = ascii_lower_chars(&w);
    let key = string_of(&lower);
    if is_inflection_of_other(row.exchange.as_str(), key.as_str()) {
        return None;
    }
    assert(lower.len() <= 22);
    let len = lower.len() as i64;
    let has_phonetic = trim_chars(&chars_of(row.phonetic.as_str())).len() > 0;
    let tier: u8;
    let rank: i64;
    let tie: i64;
    if row.frq > 0 {
        tier = 0;
        rank = row.frq;
        tie = 0;
    } else if row.bnc > 0 {
        tier = 1;
        rank = row.bnc;
        tie = len;
    } else if row.collins > 0 || row.oxford > 0 || trim_chars(&chars_of(row.tag.as_str())).len()
        > 0 {
        tier = 2;
        rank = -(row.collins * 10 + row.oxford);
        tie = len;
    } else if has_phonetic && has_vowel(key.as_str()) && len >= 3 {
        tier = 3;
        rank = len;
        tie = 0;
    } else {
        return None;
    }
    let word_en = build_word_en(
        key.as_str(),
        row.phonetic.as_str(),
        row.translation.as_str(),
        row.exchange.as_str(),
    );
    Some(Candidate { key, word_en, tier, rank, tie })
}

/// The sort key of a candidate (see [`rank_key`]).
fn rank_key_of(c: &Candidate) -> (r: Vec<KeyPart>)
    ensures
        key_view(r) == seq![
            PartView::Num(c.tier as int),
            PartView::Num(c.rank as int),
            PartView::Num(c.tie as int),
            PartView::Text(c.key@),
        ],
{
    let mut r: Vec<KeyPart> = Vec::new();
    r.push(KeyPart::Num(c.tier as i64));
    r.push(KeyPart::Num(c.rank));
    r.push(KeyPart::Num(c.tie));
    r.push(KeyPart::Text(chars_of(c.key.as_str())));
    assert(key_view(r) =~= seq![
        PartView::Num(c.tier as int),
        PartView::Num(c.rank as int),
        PartView::Num(c.tie as int),
        PartView::Text(c.key@),
    ]);
    r
}

/// The view of a candidate taken from row `index`.
pub open spec fn view_of(c: Candidate, index: int) -> CandView {
    CandView { key: c.key@, tier: c.tier as int, rank: c.rank as int, tie: c.tie as int, row: index }
}

proof fn lemma_keys_set_push(s: Seq<CandView>, c: CandView)
    ensures
        keys_set(s.push(c)) == keys_set(s).insert(c.key),
{
    assert(s.push(c).drop_last() =~= s);
}

/// Once `cap` candidates are taken, later candidates change nothing.
proof fn lemma_first_per_key_full(s: Seq<CandView>, i: int, j: int, cap: nat)
    requires
        0 <= i <= j <= s.len(),
        first_per_key(s.take(i), cap).len() >= cap,
    ensures
        first_per_key(s.take(j), cap) == first_per_key(s.take(i), cap),
    decreases j - i,
{
    if j > i {
        lemma_first_per_key_full(s, i, j - 1, cap);
        assert(s.take(j).drop_last() =~= s.take(j - 1));
    }
}

proof fn lemma_keys_set_contains(t: Seq<CandView>, k: Seq<char>)
    ensures
        keys_set(t).contains(k) <==> exists|m: int| 0 <= m < t.len() && (#[trigger] t[m]).key == k,
    decreases t.len(),
{
    if t.len() > 0 {
        lemma_keys_set_contains(t.drop_last(), k);
        if keys_set(t.drop_last()).contains(k) {
            let m = choose|m: int| 0 <= m < t.drop_last().len() && (#[trigger] t.drop_last()[m]).key == k;
            assert(t[m] == t.drop_last()[m]);
        }
        if exists|m: int| 0 <= m < t.len() && (#[trigger] t[m]).key == k {
            let m = choose|m: int| 0 <= m < t.len() && (#[trigger] t[m]).key == k;
            if m < t.len() - 1 {
                assert(t.drop_last()[m] == t[m]);
            }
        }
    }
}

/// Where the picks of [`first_per_key`] stand in `s`: at increasing
/// positions, each the first of its word; all words are picked unless the
/// cap was reached.
proof fn lemma_first_per_key_positions(s: Seq<CandView>, cap: nat) -> (idx: Seq<int>)
    ensures
        idx.len() == first_per_key(s, cap).len(),
        first_per_key(s, cap).len() <= cap,
        forall|m: int|
            0 <= m < idx.len() ==> 0 <= #[trigger] idx[m] < s.len() && s[idx[m]] == first_per_key(
                s,
                cap,
            )[m],
        forall|m1: int, m2: int| 0 <= m1 < m2 < idx.len() ==> #[trigger] idx[m1] < #[trigger] idx[m2],
        forall|m: int, a: int|
            0 <= m < idx.len() && 0 <= a < #[trigger] idx[m] ==> (#[trigger] s[a]).key
                != first_per_key(s, cap)[m].key,
        first_per_key(s, cap).len() < cap ==> forall|a: int|
            0 <= a < s.len() ==> keys_set(first_per_key(s, cap)).contains(#[trigger] s[a].key),
    decreases s.len(),
{
    if s.len() == 0 {
        Seq::empty()
    } else {
        let d = s.drop_last();
        let prev = first_per_key(d, cap);
        let pidx = lemma_first_per_key_positions(d, cap);
        let last = s.last();
        let f = first_per_key(s, cap);
        if prev.len() >= cap || keys_set(prev).contains(last.key) {
            assert(f == prev);
            if f.len() < cap {
                assert forall|a: int| 0 <= a < s.len() implies keys_set(f).contains(
                    #[trigger] s[a].key,
                ) by {
                    if a < s.len() - 1 {
                        assert(d[a] == s[a]);
                    }
                }
            }
            assert forall|m: int, a: int|
                0 <= m < pidx.len() && 0 <= a < #[trigger] pidx[m] implies (#[trigger] s[a]).key
                != f[m].key by {
                assert(d[a] == s[a]);
            }
            pidx
        } else {
            let idx = pidx.push(s.len() - 1);
            assert(f == prev.push(last));
            lemma_keys_set_contains(prev, last.key);
            lemma_keys_set_push(prev, last);
            assert forall|m: int| 0 <= m < idx.len() implies 0 <= #[trigger] idx[m] < s.len()
                && s[idx[m]] == f[m] by {
                if m < pidx.len() {
                    assert(idx[m] == pidx[m]);
                    assert(d[pidx[m]] == s[pidx[m]]);
                }
            }
            assert forall|m: int, a: int|
                0 <= m < idx.len() && 0 <= a < #[trigger] idx[m] implies (#[trigger] s[a]).key
                != f[m].key by {
                assert(d[a] == s[a]);
                if m == pidx.len() {
                    if s[a].key == last.key {
                        assert(keys_set(prev).contains(last.key)) by {
                            assert(a < d.len());
                        }
                    }
                } else {
                    assert(idx[m] == pidx[m]);
                }
            }
            if f.len() < cap {
                assert forall|a: int| 0 <= a < s.len() implies keys_set(f).contains(
                    #[trigger] s[a].key,
                ) by {
                    if a < s.len() - 1 {
                        assert(d[a] == s[a]);
                    }
                }
            }
            idx
        }
    }
}

/// The dataset: the candidates of `rows` most common first, the best
/// occurrence of each word only, at most [`TARGET_WORDS`] of them.
pub fn select_words(rows: &Vec<SourceRow>) -> (r: Vec<Candidate>)
    requires
        forall|i: int| 0 <= i < rows.len() ==> rank_fits(#[trigger] rows@[i]),
    ensures
        r.len() == selection(rows@).len(),
        forall|i: int| 0 <= i < r.len() ==> matches_view(#[trigger] r@[i], selection(rows@)[i], rows@),
        // At most the target number of words, each word once.
        r.len() <= TARGET_WORDS,
        forall|i: int, j: int| 0 <= i < j < r.len() ==> (#[trigger] r@[i]).key@ != (#[trigger] r@[j]).key@,
        // Most common first.
        forall|i: int, j: int|
            0 <= i < j < r.len() ==> key_lt(
                rank_key(#[trigger] selection(rows@)[i]),
                rank_key(#[trigger] selection(rows@)[j]),
            ),
        // Most common first, field by field: of two entries, the earlier has
        // the better tier; within a tier the better rank; then the lower
        // tie-break; then the alphabetically earlier word.
        forall|i: int, j: int|
            0 <= i < j < r.len() ==> more_common(
                view_of(#[trigger] r@[i], 0),
                view_of(#[trigger] r@[j], 0),
            ),
        // A word is taken at its most common occurrence.
        forall|q: int, i: int|
            0 <= q < candidates(rows@).len() && 0 <= i < r.len() && (#[trigger] candidates(
                rows@,
            )[q]).key == (#[trigger] r@[i]).key@ ==> !key_lt(
                rank_key(candidates(rows@)[q]),
                rank_key(selection(rows@)[i]),
            ),
        // Short of the target, every candidate word is taken.
        r.len() < TARGET_WORDS ==> forall|q: int|
            0 <= q < candidates(rows@).len() ==> exists|i: int|
                0 <= i < r.len() && (#[trigger] r@[i]).key@ == (#[trigger] candidates(rows@)[q]).key,
{
    let mut slots: Vec<Option<Candidate>> = Vec::new();
    let mut keys: Vec<Vec<KeyPart>> = Vec::new();
    let ghost mut cv: Seq<CandView> = Seq::empty();
    for i in 0..rows.len()
        invariant
            forall|k: int| 0 <= k < rows.len() ==> rank_fits(#[trigger] rows@[k]),
            cv == candidates(rows@.take(i as int)),
            slots.len() == cv.len(),
            keys.len() == cv.len(),
            forall|p: int|
                0 <= p < cv.len() ==> (#[trigger] slots@[p] matches Some(c) && matches_view(
                    c,
                    cv[p],
                    rows@,
                )),
            keys_view(keys@) == rank_keys(cv),
    {
        proof {
            assert(rows@.take(i + 1).drop_last() =~= rows@.take(i as int));
            assert(rows@.take(i + 1).last() == rows@[i as int]);
        }
        match candidate_of(&rows[i]) {
            Some(c) => {
                let k = rank_key_of(&c);
                let ghost v = view_of(c, i as int);
                let ghost kv = key_view(k);
                let ghost old_keys = keys@;
                keys.push(k);
                slots.push(Some(c));
                proof {
                    assert(kv == rank_key(v));
                    assert(keys@ == old_keys.push(k));
                    assert(keys_view(keys@) =~= keys_view(old_keys).push(kv));
                    cv = cv.push(v);
                    assert(keys_view(keys@) =~= rank_keys(cv));
                }
            },
            None => {},
        }
    }
    proof {
        assert(rows@.take(rows.len() as int) =~= rows@);
    }
    let order = sort_positions(&keys);
    let ghost sorted = ranked(cv);
    proof {
        lemma_sorted_distinct(keys_view(keys@), index_view(order@));
        assert(sorted.len() == order.len());
    }
    let mut seen = StringHashSet::new();
    let mut selected: Vec<Candidate> = Vec::new();
    let ghost mut sel: Seq<CandView> = Seq::empty();
    let mut i: usize = 0;
    while i < order.len() && selected.len() < TARGET_WORDS
        invariant
            i <= order.len(),
            order.len() == cv.len(),
            slots.len() == cv.len(),
            sorted == ranked(cv),
            index_view(order@) == sorted_positions(rank_keys(cv)),
            forall|k: int| 0 <= k < order.len() ==> order@[k] < cv.len(),
            forall|a: int, b: int|
                0 <= a < b < order.len() ==> #[trigger] index_view(order@)[a]
                    != #[trigger] index_view(order@)[b],
            forall|j: int|
                i <= j < order.len() ==> (slots@[#[trigger] order@[j] as int] matches Some(c)
                    && matches_view(c, cv[order@[j] as int], rows@)),
            sel == first_per_key(sorted.take(i as int), TARGET_WORDS as nat),
            selected.len() == sel.len(),
            forall|m: int| 0 <= m < sel.len() ==> matches_view(#[trigger] selected@[m], sel[m], rows@),
            seen@ == keys_set(sel),
        decreases order.len() - i,
    {
        let p = order[i];
        let ghost v = cv[p as int];
        proof {
            assert(sorted[i as int] == v);
            assert(sorted.take(i + 1).drop_last() =~= sorted.take(i as int));
            assert(sorted.take(i + 1).last() == v);
        }
        let mut taken: Option<Candidate> = None;
        std::mem::swap(&mut slots[p], &mut taken);
        proof {
            assert forall|j: int| i < j < order.len() implies (slots@[#[trigger] order@[j] as int] matches Some(c)
                && matches_view(c, cv[order@[j] as int], rows@)) by {
                assert(index_view(order@)[i as int] != index_view(order@)[j]);
            }
        }
        match taken {
            Some(c) => {
                if seen.insert(c.key.clone()) {
                    selected.push(c);
                    proof {
                        lemma_keys_set_push(sel, v);
                        sel = sel.push(v);
                    }
                }
            },
            None => {},
        }
        i += 1;
    }
    proof {
        if i < order.len() {
            lemma_first_per_key_full(sorted, i as int, order.len() as int, TARGET_WORDS as nat);
        }
        assert(sorted.take(order.len() as int) =~= sorted);
        lemma_selection_laws(cv, index_view(order@), sorted, sel);
        assert forall|a: int, b: int| 0 <= a < b < selected.len() implies more_common(
            view_of(#[trigger] selected@[a], 0),
            view_of(#[trigger] selected@[b], 0),
        ) by {
            assert(matches_view(selected@[a], sel[a], rows@));
            assert(matches_view(selected@[b], sel[b], rows@));
            law_ranking_order(sel[a], sel[b]);
        }
        if sel.len() < TARGET_WORDS {
            assert forall|q: int| 0 <= q < cv.len() implies exists|i: int|
                0 <= i < selected.len() && (#[trigger] selected@[i]).key@ == (#[trigger] cv[q]).key by {
                let i = choose|i: int| 0 <= i < sel.len() && (#[trigger] sel[i]).key == cv[q].key;
                assert(matches_view(selected@[i], sel[i], rows@));
            }
        }
    }
    selected
}

/// Position `q` occurs in `order`.
spec fn placed(order: Seq<nat>, q: int) -> bool {
    exists|b: int| 0 <= b < order.len() && #[trigger] order[b] == q
}

/// Rank keys that are equal belong to the same word.
proof fn lemma_rank_key_word(x: CandView, y: CandView)
    requires
        rank_key(x) == rank_key(y),
    ensures
        x.key == y.key,
{
    assert(rank_key(x)[3] == PartView::Text(x.key));
    assert(rank_key(y)[3] == PartView::Text(y.key));
}

proof fn lemma_selection_laws(cv: Seq<CandView>, order: Seq<nat>, sorted: Seq<CandView>, sel: Seq<CandView>)
    requires
        order == sorted_positions(rank_keys(cv)),
        strictly_sorted(rank_keys(cv), order),
        order.to_multiset() == positions(0, cv.len()).to_multiset(),
        order.len() == cv.len(),
        forall|k: int| 0 <= k < order.len() ==> order[k] < cv.len(),
        sorted == ranked(cv),
        sel == first_per_key(sorted, TARGET_WORDS as nat),
    ensures
        sel.len() <= TARGET_WORDS,
        forall|i: int, j: int| 0 <= i < j < sel.len() ==> (#[trigger] sel[i]).key != (#[trigger] sel[j]).key,
        forall|i: int, j: int|
            0 <= i < j < sel.len() ==> key_lt(rank_key(#[trigger] sel[i]), rank_key(#[trigger] sel[j])),
        forall|q: int, i: int|
            0 <= q < cv.len() && 0 <= i < sel.len() && (#[trigger] cv[q]).key == (#[trigger] sel[i]).key
                ==> !key_lt(rank_key(cv[q]), rank_key(sel[i])),
        sel.len() < TARGET_WORDS ==> forall|q: int|
            0 <= q < cv.len() ==> exists|i: int| 0 <= i < sel.len() && (#[trigger] sel[i]).key == (#[trigger] cv[q]).key,
{
    broadcast use vstd::seq_lib::group_to_multiset_ensures;

    let cap = TARGET_WORDS as nat;
    let idx = lemma_first_per_key_positions(sorted, cap);
    let rk = rank_keys(cv);
    assert(sorted.len() == cv.len());
    assert forall|a: int| 0 <= a < sorted.len() implies #[trigger] sorted[a] == cv[order[a] as int]
        && rk[order[a] as int] == rank_key(sorted[a]) by {}
    // Each candidate stands somewhere in the sorted order.
    assert forall|q: int| 0 <= q < cv.len() implies #[trigger] placed(order, q) by {
        assert(positions(0, cv.len())[q] == q as nat);
        assert(positions(0, cv.len()).contains(q as nat));
        assert(positions(0, cv.len()).to_multiset().count(q as nat) > 0);
        assert(order.to_multiset().count(q as nat) > 0);
        assert(order.contains(q as nat));
    }
    assert forall|i: int, j: int| 0 <= i < j < sel.len() implies (#[trigger] sel[i]).key != (#[trigger] sel[j]).key by {
        assert(idx[i] < idx[j]);
        assert(sorted[idx[i]].key != sel[j].key);
    }
    assert forall|i: int, j: int| 0 <= i < j < sel.len() implies key_lt(rank_key(#[trigger] sel[i]), rank_key(#[trigger] sel[j])) by {
        let (a, b) = (idx[i], idx[j]);
        assert(a < b);
        assert(crate::sort::before(rk, order[a], order[b]));
        assert(sorted[idx[i]].key != sel[j].key);
        if rank_key(sel[i]) == rank_key(sel[j]) {
            lemma_rank_key_word(sel[i], sel[j]);
        }
    }
    assert forall|q: int, i: int|
        0 <= q < cv.len() && 0 <= i < sel.len() && (#[trigger] cv[q]).key == (#[trigger] sel[i]).key
        implies !key_lt(rank_key(cv[q]), rank_key(sel[i])) by {
        assert(placed(order, q));
        let b = choose|b: int| 0 <= b < order.len() && #[trigger] order[b] == q;
        let a = idx[i];
        assert(sorted[b] == cv[q]);
        if b < a {
            assert(sorted[b].key != sel[i].key);
        } else if b == a {
            crate::sort::lemma_key_lt_irreflexive(rank_key(sel[i]));
        } else {
            assert(crate::sort::before(rk, order[a], order[b]));
            if key_lt(rank_key(cv[q]), rank_key(sel[i])) {
                if key_lt(rank_key(sel[i]), rank_key(cv[q])) {
                    crate::sort::lemma_key_lt_transitive(rank_key(cv[q]), rank_key(sel[i]), rank_key(cv[q]));
                }
                crate::sort::lemma_key_lt_irreflexive(rank_key(cv[q]));
            }
        }
    }
    if sel.len() < TARGET_WORDS {
        assert forall|q: int| 0 <= q < cv.len() implies exists|i: int| 0 <= i < sel.len() && (#[trigger] sel[i]).key == (#[trigger] cv[q]).key by {
            assert(placed(order, q));
        let b = choose|b: int| 0 <= b < order.len() && #[trigger] order[b] == q;
            assert(sorted[b] == cv[q]);
            assert(keys_set(sel).contains(sorted[b].key));
            lemma_keys_set_contains(sel, cv[q].key);
        }
    }
}

proof fn lemma_text_key_order(a: Seq<char>, b: Seq<char>)
    ensures
        key_lt(seq![PartView::Text(a)], seq![PartView::Text(b)]) == seq_lt(a, b),
{
    reveal_with_fuel(key_lt, 2);
    assert(seq![PartView::Text(a)].drop_first() =~= Seq::<PartView>::empty());
    assert(seq![PartView::Text(b)].drop_first() =~= Seq::<PartView>::empty());
    crate::text::lemma_seq_lt_irreflexive(a);
}

/// Candidate `a` is more common than `b`: a better (lower) tier; within a
/// tier a better (lower) rank; then a lower tie-break; then the
/// alphabetically earlier word.
pub open spec fn more_common(a: CandView, b: CandView) -> bool {
    ||| a.tier < b.tier
    ||| a.tier == b.tier && a.rank < b.rank
    ||| a.tier == b.tier && a.rank == b.rank && a.tie < b.tie
    ||| a.tier == b.tier && a.rank == b.rank && a.tie == b.tie && seq_lt(a.key, b.key)
}

/// The ranking compares candidates by tier, then rank, then tie-break, then
/// word: one candidate sorts before another exactly when it is more common.
pub proof fn law_ranking_order(a: CandView, b: CandView)
    ensures
        key_lt(rank_key(a), rank_key(b)) == more_common(a, b),
{
    reveal_with_fuel(key_lt, 5);
    let (ka, kb) = (rank_key(a), rank_key(b));
    assert(ka.drop_first() =~= seq![PartView::Num(a.rank), PartView::Num(a.tie), PartView::Text(a.key)]);
    assert(kb.drop_first() =~= seq![PartView::Num(b.rank), PartView::Num(b.tie), PartView::Text(b.key)]);
    assert(ka.drop_first().drop_first() =~= seq![PartView::Num(a.tie), PartView::Text(a.key)]);
    assert(kb.drop_first().drop_first() =~= seq![PartView::Num(b.tie), PartView::Text(b.key)]);
    assert(ka.drop_first().drop_first().drop_first() =~= seq![PartView::Text(a.key)]);
    assert(kb.drop_first().drop_first().drop_first() =~= seq![PartView::Text(b.key)]);
    assert(ka.drop_first().drop_first().drop_first().drop_first() =~= Seq::<PartView>::empty());
    assert(kb.drop_first().drop_first().drop_first().drop_first() =~= Seq::<PartView>::empty());
    if a.key == b.key {
        crate::text::lemma_seq_lt_irreflexive(a.key);
    }
}

/// The words of the dataset in alphabetical order, for the word list file.
pub fn word_list(selected: &Vec<Candidate>) -> (r: Vec<String>)
    ensures
        r.len() == selected.len(),
        r@.map_values(|s: String| s@).to_multiset() == selected@.map_values(
            |c: Candidate| c.key@,
        ).to_multiset(),
        forall|a: int, b: int| 0 <= a < b < r.len() ==> !seq_lt((#[trigger] r@[b])@, (#[trigger] r@[a])@),
{
    let mut keys: Vec<Vec<KeyPart>> = Vec::new();
    for k in 0..selected.len()
        invariant
            keys.len() == k,
            forall|q: int| 0 <= q < k ==> key_view(#[trigger] keys@[q]) == seq![PartView::Text(selected@[q].key@)],
    {
        let mut key: Vec<KeyPart> = Vec::new();
        key.push(KeyPart::Text(chars_of(selected[k].key.as_str())));
        assert(key_view(key) =~= seq![PartView::Text(selected@[k as int].key@)]);
        keys.push(key);
    }
    let order = sort_positions(&keys);
    let ghost kv = keys_view(keys@);
    let ghost ks = selected@.map_values(|c: Candidate| c.key@);
    let mut r: Vec<String> = Vec::new();
    for i in 0..order.len()
        invariant
            order.len() == selected.len(),
            forall|q: int| 0 <= q < order.len() ==> order@[q] < selected.len(),
            r.len() == i,
            forall|q: int| 0 <= q < i ==> (#[trigger] r@[q])@ == selected@[order@[q] as int].key@,
    {
        r.push(selected[order[i]].key.clone());
    }
    proof {
        assert forall|a: int, b: int| 0 <= a < b < r.len() implies !seq_lt((#[trigger] r@[b])@, (#[trigger] r@[a])@) by {
            let (ka, kb) = (order@[a] as int, order@[b] as int);
            assert(index_view(order@)[a] == ka && index_view(order@)[b] == kb);
            assert(crate::sort::before(kv, ka as nat, kb as nat));
            assert(kv[ka] == key_view(keys@[ka]));
            assert(kv[kb] == key_view(keys@[kb]));
            lemma_text_key_order(r@[a]@, r@[b]@);
            lemma_text_key_order(r@[b]@, r@[a]@);
            if seq_lt(r@[b]@, r@[a]@) {
                if seq_lt(r@[a]@, r@[b]@) {
                    crate::text::lemma_seq_lt_transitive(r@[a]@, r@[b]@, r@[a]@);
                }
                crate::text::lemma_seq_lt_irreflexive(r@[a]@);
                if kv[ka] == kv[kb] {
                    assert(kv[ka][0] == PartView::Text(r@[a]@));
                    assert(kv[kb][0] == PartView::Text(r@[b]@));
                }
            }
        }
        let rv = r@.map_values(|s: String| s@);
        assert(rv =~= index_view(order@).map_values(|p: nat| ks[p as int]));
        lemma_permuted_multiset(index_view(order@), ks);
    }
    r
}

/// Reading a sequence at a permutation of its positions keeps its multiset.
proof fn lemma_permuted_multiset(order: Seq<nat>, s: Seq<Seq<char>>)
    requires
        order.to_multiset() == positions(0, s.len()).to_multiset(),
    ensures
        order.map_values(|p: nat| s[p as int]).to_multiset() == s.to_multiset(),
{
    broadcast use vstd::seq_lib::group_to_multiset_ensures;

    let f = |p: nat| s[p as int];
    assert(positions(0, s.len()).map_values(f) =~= s);
    lemma_map_same_multiset(order, positions(0, s.len()), f);
}

/// Sequences with the same multiset keep it under a map.
proof fn lemma_map_same_multiset(a: Seq<nat>, b: Seq<nat>, f: spec_fn(nat) -> Seq<char>)
    requires
        a.to_multiset() == b.to_multiset(),
    ensures
        a.map_values(f).to_multiset() == b.map_values(f).to_multiset(),
    decreases a.len(),
{
    broadcast use vstd::seq_lib::group_to_multiset_ensures;

    assert(a.len() == a.to_multiset().len() && b.len() == b.to_multiset().len());
    if a.len() == 0 {
        assert(b.len() == 0);
        assert(a.map_values(f) =~= b.map_values(f));
    } else {
        let x = a.last();
        let a2 = a.drop_last();
        assert(a =~= a2.push(x));
        assert(a.to_multiset().count(x) > 0);
        assert(b.contains(x));
        let i = choose|i: int| 0 <= i < b.len() && b[i] == x;
        let b2 = b.remove(i);
        assert(a2.to_multiset() =~= b2.to_multiset()) by {
            assert(a.to_multiset() =~= a2.to_multiset().insert(x));
            assert(b2.to_multiset() =~= b.to_multiset().remove(x));
        }
        lemma_map_same_multiset(a2, b2, f);
        let (ma, mb, ma2, mb2) = (a.map_values(f), b.map_values(f), a2.map_values(f), b2.map_values(f));
        assert(ma =~= ma2.push(f(x)));
        assert(mb.remove(i) =~= mb2);
        assert(mb.to_multiset().count(f(x)) > 0) by {
            assert(mb[i] == f(x));
            assert(mb.contains(f(x)));
        }
        assert(mb2.to_multiset() =~= mb.to_multiset().remove(f(x)));
        assert(ma.to_multiset() =~= mb.to_multiset());
    }
}

} // verus!
