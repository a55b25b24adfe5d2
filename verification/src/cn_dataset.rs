//! The inverted Chinese-to-English dataset: every clean Chinese term in the
//! translations of the kept, frequency-ranked English words, mapped to the
//! most frequent of those words it translates (at most [`MAX_CN_ENGLISH`] of them, most frequent first, ties
//! alphabetical), the terms in alphabetical order.
use vstd::prelude::*;
use vstd::hash_map::StringHashMap;
use crate::dataset::{row_kept, row_key, SourceRow};
use crate::lexicon::{
    all_line_terms, english_freq_rank, extract_cn_terms, first_occurrences, is_clean_word,
    is_inflection_of_other, pieces, clean_word, is_ascii_alpha,
};
use crate::sort::{
    index_view, key_lt, key_view, keys_view, lemma_sorted_distinct, positions, sort_positions, KeyPart, PartView,
};
use crate::text::{ascii_lower_chars, ascii_lower_seq, chars_of, concat, seq_lt, string_of};

verus! {

/// Largest number of English words kept per Chinese term.
pub const MAX_CN_ENGLISH: usize = 10;

/// One Chinese term and its English equivalents, most frequent first.
pub struct CnEntry {
    pub term: String,
    pub english: Vec<String>,
}

/// A Chinese term used for an English word of the given frequency rank.
pub struct TermUse {
    pub term: Seq<char>,
    pub word: Seq<char>,
    pub rank: int,
}

/// The English side of a row: its lower-case word and frequency rank, when
/// the word is kept and has a frequency rank.
pub open spec fn english_side(row: SourceRow) -> Option<(Seq<char>, int)> {
    if !row_kept(row) {
        None
    } else if row.frq > 0 {
        Some((row_key(row), row.frq as int))
    } else if row.bnc > 0 {
        Some((row_key(row), row.bnc + 1_000_000))
    } else {
        None
    }
}

/// The BNC rank of a row fits in an `i64` wherever it is computed.
pub open spec fn bnc_fits(row: SourceRow) -> bool {
    (row_kept(row) && row.frq <= 0 && row.bnc > 0) ==> row.bnc + 1_000_000 <= i64::MAX
}

/// The Chinese terms of a row's translation.
pub open spec fn row_terms(row: SourceRow) -> Seq<Seq<char>> {
    first_occurrences(all_line_terms(pieces(row.translation@, seq!['\n'])))
}

/// The term uses of one row.
pub open spec fn row_uses(row: SourceRow) -> Seq<TermUse> {
    match english_side(row) {
        Some((w, r)) => row_terms(row).map_values(|t: Seq<char>| TermUse { term: t, word: w, rank: r }),
        None => Seq::empty(),
    }
}

/// The term uses of all rows, in order.
pub open spec fn term_uses(rows: Seq<SourceRow>) -> Seq<TermUse>
    decreases rows.len(),
{
    if rows.len() == 0 {
        Seq::empty()
    } else {
        term_uses(rows.drop_last()) + row_uses(rows.last())
    }
}

/// The best (lowest) rank with which `t` is used for `w`; none when never.
pub open spec fn best_rank(uses: Seq<TermUse>, t: Seq<char>, w: Seq<char>) -> Option<int>
    decreases uses.len(),
{
    if uses.len() == 0 {
        None
    } else {
        let p = best_rank(uses.drop_last(), t, w);
        let u = uses.last();
        if u.term == t && u.word == w {
            match p {
                Some(r) => Some(if u.rank < r { u.rank } else { r }),
                None => Some(u.rank),
            }
        } else {
            p
        }
    }
}

/// `s` has no NUL character.
pub open spec fn no_nul(s: Seq<char>) -> bool {
    forall|k: int| 0 <= k < s.len() ==> #[trigger] s[k] != '\0'
}

/// The lookup key of a (word, term) pair.
pub open spec fn pair_key(w: Seq<char>, t: Seq<char>) -> Seq<char> {
    w + seq!['\0'] + t
}

proof fn lemma_pair_key_injective(w1: Seq<char>, t1: Seq<char>, w2: Seq<char>, t2: Seq<char>)
    requires
        no_nul(w1),
        no_nul(w2),
        pair_key(w1, t1) == pair_key(w2, t2),
    ensures
        w1 == w2,
        t1 == t2,
{
    let (p1, p2) = (pair_key(w1, t1), pair_key(w2, t2));
    if w1.len() < w2.len() {
        assert(p1[w1.len() as int] == '\0');
        assert(p2[w1.len() as int] == w2[w1.len() as int]);
    } else if w2.len() < w1.len() {
        assert(p2[w2.len() as int] == '\0');
        assert(p1[w2.len() as int] == w1[w2.len() as int]);
    } else {
        assert(w1 =~= p1.take(w1.len() as int));
        assert(w2 =~= p2.take(w2.len() as int));
        assert(t1 =~= p1.skip(w1.len() as int + 1));
        assert(t2 =~= p2.skip(w2.len() as int + 1));
    }
}

proof fn lemma_clean_key_no_nul(s: Seq<char>)
    requires
        clean_word(s),
    ensures
        no_nul(ascii_lower_seq(s)),
{
    assert forall|k: int| 0 <= k < ascii_lower_seq(s).len() implies #[trigger] ascii_lower_seq(s)[k]
        != '\0' by {
        if s == seq!['a'] || s == seq!['i'] {
        } else {
            assert(is_ascii_alpha(s[k]));
        }
    }
}

proof fn lemma_best_rank_push(uses: Seq<TermUse>, u: TermUse, t: Seq<char>, w: Seq<char>)
    ensures
        best_rank(uses.push(u), t, w) == (if u.term == t && u.word == w {
            match best_rank(uses, t, w) {
                Some(r) => Some(if u.rank < r { u.rank } else { r }),
                None => Some(u.rank),
            }
        } else {
            best_rank(uses, t, w)
        }),
{
    assert(uses.push(u).drop_last() =~= uses);
}

/// The English word and rank of a row for the Chinese index, or `None`
/// when the row gives none.
fn english_of(row: &SourceRow) -> (r: Option<(String, i64)>)
    requires
        bnc_fits(*row),
    ensures
        match r {
            Some((w, k)) => english_side(*row) == Some((w@, k as int)) && no_nul(w@),
            None => english_side(*row) is None,
        },
{
    if !is_clean_word(row.word.as_str()) {
        return None;
    }
    let w = chars_of(row.word.as_str());
    if w.len() > 0 && 'A' <= w[0] && w[0] <= 'Z' {
        return None;
    }
    let key = string_of(&ascii_lower_chars(&w));
    if is_inflection_of_other(row.exchange.as_str(), key.as_str()) {
        return None;
    }
    proof {
        lemma_clean_key_no_nul(row.word@);
    }
    match english_freq_rank(row.frq, row.bnc) {
        Some(rank) => Some((key, rank)),
        None => None,
    }
}

/// The lookup key of a (word, term) pair (see [`pair_key`]).
fn make_pair_key(w: &String, t: &String) -> (r: String)
    ensures
        r@ == pair_key(w@, t@),
{
    let mut sep = String::new();
    crate::text::push_char(&mut sep, '\0');
    assert(sep@ =~= seq!['\0']);
    let ws = concat(w.as_str(), sep.as_str());
    concat(ws.as_str(), t.as_str())
}

/// The distinct (term, word) pairs used by `rows`, each with its best rank.
fn collect_pairs(rows: &Vec<SourceRow>) -> (r: (Vec<String>, Vec<String>, Vec<i64>))
    requires
        forall|i: int| 0 <= i < rows.len() ==> bnc_fits(#[trigger] rows@[i]),
    ensures
        r.0.len() == r.1.len() == r.2.len(),
        forall|k: int|
            0 <= k < r.0.len() ==> best_rank(term_uses(rows@), (#[trigger] r.0@[k])@, r.1@[k]@)
                == Some(r.2@[k] as int),
        forall|t: Seq<char>, w: Seq<char>|
            #[trigger] best_rank(term_uses(rows@), t, w) is Some ==> exists|k: int|
                0 <= k < r.0.len() && (#[trigger] r.0@[k])@ == t && r.1@[k]@ == w,
        forall|k1: int, k2: int|
            0 <= k1 < k2 < r.0.len() ==> !((#[trigger] r.0@[k1])@ == (#[trigger] r.0@[k2])@
                && r.1@[k1]@ == r.1@[k2]@),
{
    let mut pt: Vec<String> = Vec::new();
    let mut pw: Vec<String> = Vec::new();
    let mut pr: Vec<i64> = Vec::new();
    let mut slots: StringHashMap<usize> = StringHashMap::new();
    let ghost mut uses: Seq<TermUse> = Seq::empty();
    for i in 0..rows.len()
        invariant
            forall|k: int| 0 <= k < rows.len() ==> bnc_fits(#[trigger] rows@[k]),
            uses == term_uses(rows@.take(i as int)),
            pt.len() == pw.len() == pr.len(),
            forall|k: int|
                #![trigger pt@[k]]
                #![trigger pw@[k]]
                #![trigger pr@[k]]
                0 <= k < pt.len() ==> slots@.contains_key(pair_key(pw@[k]@, pt@[k]@))
                    && slots@[pair_key(pw@[k]@, pt@[k]@)] == k && best_rank(uses, pt@[k]@, pw@[k]@)
                    == Some(pr@[k] as int) && no_nul(pw@[k]@),
            forall|c: Seq<char>|
                #[trigger] slots@.contains_key(c) ==> slots@[c] < pt.len() && pair_key(
                    pw@[slots@[c] as int]@,
                    pt@[slots@[c] as int]@,
                ) == c,
            forall|t: Seq<char>, w: Seq<char>|
                #[trigger] best_rank(uses, t, w) is Some ==> slots@.contains_key(pair_key(w, t))
                    && no_nul(w),
    {
        proof {
            assert(rows@.take(i + 1).drop_last() =~= rows@.take(i as int));
            assert(rows@.take(i + 1).last() == rows@[i as int]);
        }
        match english_of(&rows[i]) {
            None => {
                proof {
                    assert(row_uses(rows@[i as int]) =~= Seq::<TermUse>::empty());
                    assert(uses + row_uses(rows@[i as int]) =~= uses);
                }
            },
            Some((w, rank)) => {
                let terms = extract_cn_terms(rows[i].translation.as_str());
                let ghost base = uses;
                for j in 0..terms.len()
                    invariant
                        no_nul(w@),
                        uses == base + Seq::new(
                            j as nat,
                            |k: int| TermUse { term: terms@[k]@, word: w@, rank: rank as int },
                        ),
                        pt.len() == pw.len() == pr.len(),
                        forall|k: int|
                            #![trigger pt@[k]]
                            #![trigger pw@[k]]
                            #![trigger pr@[k]]
                            0 <= k < pt.len() ==> slots@.contains_key(pair_key(pw@[k]@, pt@[k]@))
                                && slots@[pair_key(pw@[k]@, pt@[k]@)] == k && best_rank(
                                uses,
                                pt@[k]@,
                                pw@[k]@,
                            ) == Some(pr@[k] as int) && no_nul(pw@[k]@),
                        forall|c: Seq<char>|
                            #[trigger] slots@.contains_key(c) ==> slots@[c] < pt.len() && pair_key(
                                pw@[slots@[c] as int]@,
                                pt@[slots@[c] as int]@,
                            ) == c,
                        forall|t: Seq<char>, w2: Seq<char>|
                            #[trigger] best_rank(uses, t, w2) is Some ==> slots@.contains_key(
                                pair_key(w2, t),
                            ) && no_nul(w2),
                {
                    let t = &terms[j];
                    let key = make_pair_key(&w, t);
                    let ghost u = TermUse { term: t@, word: w@, rank: rank as int };
                    let ghost old_uses = uses;
                    let found: Option<usize> = match slots.get(key.as_str()) {
                        Some(k) => Some(*k),
                        None => None,
                    };
                    proof {
                        uses = uses.push(u);
                        assert forall|t2: Seq<char>, w2: Seq<char>|
                            #[trigger] best_rank(uses, t2, w2) == (if u.term == t2 && u.word == w2 {
                                match best_rank(old_uses, t2, w2) {
                                    Some(r) => Some(if u.rank < r { u.rank } else { r }),
                                    None => Some(u.rank),
                                }
                            } else {
                                best_rank(old_uses, t2, w2)
                            }) by {
                            lemma_best_rank_push(old_uses, u, t2, w2);
                        }
                    }
                    match found {
                        Some(k) => {
                            proof {
                                lemma_pair_key_injective(pw@[k as int]@, pt@[k as int]@, w@, t@);
                            }
                            if rank < pr[k] {
                                pr.set(k, rank);
                            }
                            proof {
                                assert forall|k2: int| 0 <= k2 < pt.len() && k2 != k implies !(pt@[k2]@
                                    == t@ && pw@[k2]@ == w@) by {
                                    if pt@[k2]@ == t@ && pw@[k2]@ == w@ {
                                        assert(slots@[pair_key(pw@[k2]@, pt@[k2]@)] == k2);
                                    }
                                }
                            }
                        },
                        None => {
                            let n = pt.len();
                            slots.insert(key, n);
                            pt.push(t.clone());
                            pw.push(w.clone());
                            pr.push(rank);
                            proof {
                                assert(best_rank(old_uses, t@, w@) is None);
                                assert forall|k2: int| 0 <= k2 < n implies !(pt@[k2]@ == t@
                                    && pw@[k2]@ == w@) by {
                                    if pt@[k2]@ == t@ && pw@[k2]@ == w@ {
                                        assert(slots@.contains_key(pair_key(w@, t@)));
                                    }
                                }
                            }
                        },
                    }
                    proof {
                        assert(uses == base + Seq::new(
                            (j + 1) as nat,
                            |k: int| TermUse { term: terms@[k]@, word: w@, rank: rank as int },
                        ));
                    }
                }
                proof {
                    assert(Seq::new(
                        terms.len() as nat,
                        |k: int| TermUse { term: terms@[k]@, word: w@, rank: rank as int },
                    ) =~= row_uses(rows@[i as int]));
                }
            },
        }
    }
    proof {
        assert(rows@.take(rows.len() as int) =~= rows@);
        assert forall|t: Seq<char>, w: Seq<char>|
            #[trigger] best_rank(term_uses(rows@), t, w) is Some implies exists|k: int|
                0 <= k < pt.len() && (#[trigger] pt@[k])@ == t && pw@[k]@ == w by {
            let c = pair_key(w, t);
            let k = slots@[c] as int;
            assert(pair_key(pw@[k]@, pt@[k]@) == c);
            lemma_pair_key_injective(pw@[k]@, pt@[k]@, w, t);
        }
        assert forall|k1: int, k2: int| 0 <= k1 < k2 < pt.len() implies !((#[trigger] pt@[k1])@
            == (#[trigger] pt@[k2])@ && pw@[k1]@ == pw@[k2]@) by {
            if pt@[k1]@ == pt@[k2]@ && pw@[k1]@ == pw@[k2]@ {
                assert(slots@[pair_key(pw@[k1]@, pt@[k1]@)] == k1);
                assert(slots@[pair_key(pw@[k2]@, pt@[k2]@)] == k2);
            }
        }
    }
    (pt, pw, pr)
}

/// Pair `(t1, r1, w1)` sorts before `(t2, r2, w2)`: by term, then rank, then
/// word.
pub open spec fn pair_lt(t1: Seq<char>, r1: int, w1: Seq<char>, t2: Seq<char>, r2: int, w2: Seq<char>) -> bool {
    seq_lt(t1, t2) || (t1 == t2 && (r1 < r2 || (r1 == r2 && seq_lt(w1, w2))))
}

spec fn sorted_pairs(st: Seq<String>, sr: Seq<i64>, sw: Seq<String>) -> bool {
    forall|a: int, b: int|
        0 <= a < b < st.len() ==> pair_lt(
            (#[trigger] st[a])@,
            sr[a] as int,
            sw[a]@,
            (#[trigger] st[b])@,
            sr[b] as int,
            sw[b]@,
        )
}

pub open spec fn words_view(v: Seq<String>) -> Seq<Seq<char>> {
    v.map_values(|s: String| s@)
}

/// The view of an entry: its term and its words.
spec fn entry_view(e: CnEntry) -> (Seq<char>, Seq<Seq<char>>) {
    (e.term@, words_view(e.english@))
}

/// The groups built so far: the finished entries, then the current one.
spec fn groups(entries: Seq<CnEntry>, cur_term: String, cur_words: Seq<String>, started: bool) -> Seq<(Seq<char>, Seq<Seq<char>>)> {
    let done = entries.map_values(|e: CnEntry| entry_view(e));
    if started {
        done.push((cur_term@, words_view(cur_words)))
    } else {
        done
    }
}

/// The invariant of the grouping walk after the first `s` pairs.
spec fn grouped(
    st: Seq<String>,
    sw: Seq<String>,
    s: int,
    gs: Seq<(Seq<char>, Seq<Seq<char>>)>,
    src: Seq<Seq<int>>,
    home: Seq<int>,
    pos: Seq<int>,
) -> bool {
    &&& forall|g1: int, g2: int|
        0 <= g1 < g2 < gs.len() ==> seq_lt((#[trigger] gs[g1]).0, (#[trigger] gs[g2]).0)
    &&& src.len() == gs.len()
    &&& forall|g: int|
        0 <= g < gs.len() ==> 1 <= (#[trigger] gs[g]).1.len() <= MAX_CN_ENGLISH && src[g].len()
            == gs[g].1.len()
    &&& forall|g: int, a: int|
        0 <= g < gs.len() && 0 <= a < src[g].len() ==> 0 <= #[trigger] src[g][a] < s
            && st[src[g][a]]@ == gs[g].0 && sw[src[g][a]]@ == gs[g].1[a]
    &&& forall|g: int, a: int, b: int|
        0 <= g < gs.len() && 0 <= a < b < src[g].len() ==> #[trigger] src[g][a] < #[trigger] src[g][b]
    &&& home.len() == s && pos.len() == s
    &&& forall|q: int|
        0 <= q < s ==> 0 <= #[trigger] home[q] < gs.len() && gs[home[q]].0 == st[q]@ && (pos[q]
            == -1 ==> gs[home[q]].1.len() == MAX_CN_ENGLISH && src[home[q]][MAX_CN_ENGLISH - 1]
            < q) && (pos[q] != -1 ==> 0 <= pos[q] < gs[home[q]].1.len() && gs[home[q]].1[pos[q]]
            == sw[q]@)
}

/// Groups sorted pairs by term, keeping at most [`MAX_CN_ENGLISH`] words per
/// term. Besides the entries it gives, for each entry, the positions its
/// words come from and, for each pair, the entry it belongs to and the
/// position of its word there (or -1 when the entry was full).
fn group_terms(st: &Vec<String>, sr: &Vec<i64>, sw: &Vec<String>) -> (res: (
    Vec<CnEntry>,
    Ghost<Seq<Seq<int>>>,
    Ghost<Seq<int>>,
    Ghost<Seq<int>>,
))
    requires
        st.len() == sr.len() == sw.len(),
        sorted_pairs(st@, sr@, sw@),
    ensures
        grouped(
            st@,
            sw@,
            st.len() as int,
            res.0@.map_values(|e: CnEntry| entry_view(e)),
            res.1@,
            res.2@,
            res.3@,
        ),
{
    let mut entries: Vec<CnEntry> = Vec::new();
    let mut cur_term = String::new();
    let mut cur_words: Vec<String> = Vec::new();
    let mut started = false;
    let ghost mut src: Seq<Seq<int>> = Seq::empty();
    let ghost mut home: Seq<int> = Seq::empty();
    let ghost mut pos: Seq<int> = Seq::empty();
    for s in 0..st.len()
        invariant
            st.len() == sr.len() == sw.len(),
            sorted_pairs(st@, sr@, sw@),
            started == (s > 0),
            !started ==> entries.len() == 0,
            started ==> groups(entries@, cur_term, cur_words@, started).last().0 == st@[s - 1]@,
            grouped(st@, sw@, s as int, groups(entries@, cur_term, cur_words@, started), src, home, pos),
    {
        let ghost gs0 = groups(entries@, cur_term, cur_words@, started);
        if started && cur_term == st[s] {
            let ghost last = gs0.len() - 1;
            let ghost old_words = cur_words@;
            if cur_words.len() < MAX_CN_ENGLISH {
                cur_words.push(sw[s].clone());
                proof {
                    assert(words_view(cur_words@) =~= words_view(old_words).push(sw@[s as int]@));
                    src = src.update(last, src[last].push(s as int));
                    home = home.push(last);
                    pos = pos.push(gs0[last].1.len() as int);
                }
            } else {
                proof {
                    home = home.push(last);
                    pos = pos.push(-1);
                }
            }
            proof {
                let gs = groups(entries@, cur_term, cur_words@, started);
                assert(forall|g: int| 0 <= g < last ==> gs[g] == gs0[g]);
                assert(gs.len() == gs0.len());
                assert(grouped(st@, sw@, s + 1, gs, src, home, pos));
            }
        } else {
            let ghost old_entries = entries@;
            let ghost old_cur = (cur_term@, words_view(cur_words@));
            if started {
                entries.push(CnEntry { term: cur_term, english: cur_words });
                proof {
                    assert(entries@.map_values(|e: CnEntry| entry_view(e)) =~= old_entries.map_values(
                        |e: CnEntry| entry_view(e),
                    ).push(old_cur));
                }
            }
            cur_term = st[s].clone();
            cur_words = Vec::new();
            cur_words.push(sw[s].clone());
            started = true;
            proof {
                let gs = groups(entries@, cur_term, cur_words@, started);
                assert(words_view(cur_words@) =~= seq![sw@[s as int]@]);
                assert(gs =~= gs0.push((st@[s as int]@, seq![sw@[s as int]@])));
                src = src.push(seq![s as int]);
                home = home.push(gs0.len() as int);
                pos = pos.push(0);
                if gs0.len() > 0 {
                    assert(s > 0);
                    assert(st@[s - 1]@ != st@[s as int]@);
                    assert(seq_lt(st@[s - 1]@, st@[s as int]@));
                    assert forall|g: int| 0 <= g < gs0.len() implies seq_lt(gs0[g].0, st@[s as int]@) by {
                        if g < gs0.len() - 1 {
                            crate::text::lemma_seq_lt_transitive(gs0[g].0, gs0.last().0, st@[s as int]@);
                        }
                    }
                }
                assert(grouped(st@, sw@, s + 1, gs, src, home, pos));
            }
        }
    }
    let ghost gs_end = groups(entries@, cur_term, cur_words@, started);
    let ghost old_entries = entries@;
    if started {
        entries.push(CnEntry { term: cur_term, english: cur_words });
    }
    proof {
        assert(entries@.map_values(|e: CnEntry| entry_view(e)) =~= gs_end);
    }
    (entries, Ghost(src), Ghost(home), Ghost(pos))
}

/// For the term `t`, word `a` comes before word `b`: both are used for `t`,
/// and `a` has the better rank, or the same rank and comes first
/// alphabetically.
pub open spec fn word_before(uses: Seq<TermUse>, t: Seq<char>, a: Seq<char>, b: Seq<char>) -> bool {
    match (best_rank(uses, t, a), best_rank(uses, t, b)) {
        (Some(ra), Some(rb)) => ra < rb || (ra == rb && seq_lt(a, b)),
        _ => false,
    }
}

/// The sort key of a pair.
spec fn pair_sort_key(t: Seq<char>, r: int, w: Seq<char>) -> Seq<PartView> {
    seq![PartView::Text(t), PartView::Num(r), PartView::Text(w)]
}

proof fn lemma_pair_key_order(t1: Seq<char>, r1: int, w1: Seq<char>, t2: Seq<char>, r2: int, w2: Seq<char>)
    ensures
        key_lt(pair_sort_key(t1, r1, w1), pair_sort_key(t2, r2, w2)) == pair_lt(t1, r1, w1, t2, r2, w2),
{
    let (a, b) = (pair_sort_key(t1, r1, w1), pair_sort_key(t2, r2, w2));
    reveal_with_fuel(key_lt, 4);
    assert(a.drop_first() =~= seq![PartView::Num(r1), PartView::Text(w1)]);
    assert(b.drop_first() =~= seq![PartView::Num(r2), PartView::Text(w2)]);
    assert(a.drop_first().drop_first() =~= seq![PartView::Text(w1)]);
    assert(b.drop_first().drop_first() =~= seq![PartView::Text(w2)]);
    assert(a.drop_first().drop_first().drop_first() =~= Seq::<PartView>::empty());
    assert(b.drop_first().drop_first().drop_first() =~= Seq::<PartView>::empty());
    crate::text::lemma_seq_lt_irreflexive(t1);
}

/// Position `q` occurs in `order`.
spec fn placed(order: Seq<nat>, q: int) -> bool {
    exists|b: int| 0 <= b < order.len() && #[trigger] order[b] == q
}

/// The Chinese-to-English dataset of `rows`: one entry per Chinese term
/// used by a kept, frequency-ranked word, terms in alphabetical order; each
/// entry lists the best [`MAX_CN_ENGLISH`] of its English words, best rank
/// first and alphabetically among equal ranks.
pub fn build_cn_dataset(rows: &Vec<SourceRow>) -> (r: Vec<CnEntry>)
    requires
        forall|i: int| 0 <= i < rows.len() ==> bnc_fits(#[trigger] rows@[i]),
    ensures
        forall|i: int, j: int|
            0 <= i < j < r.len() ==> seq_lt((#[trigger] r@[i]).term@, (#[trigger] r@[j]).term@),
        forall|i: int|
            0 <= i < r.len() ==> 1 <= (#[trigger] r@[i]).english.len() <= MAX_CN_ENGLISH,
        forall|i: int, a: int|
            0 <= i < r.len() && 0 <= a < r@[i].english.len() ==> best_rank(
                term_uses(rows@),
                r@[i].term@,
                (#[trigger] r@[i].english@[a])@,
            ) is Some,
        forall|i: int, a: int, b: int|
            0 <= i < r.len() && 0 <= a < b < r@[i].english.len() ==> word_before(
                term_uses(rows@),
                r@[i].term@,
                (#[trigger] r@[i].english@[a])@,
                (#[trigger] r@[i].english@[b])@,
            ),
        forall|t: Seq<char>, w: Seq<char>|
            #[trigger] best_rank(term_uses(rows@), t, w) is Some ==> exists|i: int|
                0 <= i < r.len() && (#[trigger] r@[i]).term@ == t,
        forall|i: int, w: Seq<char>|
            0 <= i < r.len() && #[trigger] best_rank(term_uses(rows@), r@[i].term@, w) is Some
                && !words_view(r@[i].english@).contains(w) ==> r@[i].english.len() == MAX_CN_ENGLISH
                && word_before(
                term_uses(rows@),
                r@[i].term@,
                r@[i].english@[MAX_CN_ENGLISH - 1]@,
                w,
            ),
{
    let (pt, pw, pr) = collect_pairs(rows);
    let ghost uses = term_uses(rows@);
    let mut keys: Vec<Vec<KeyPart>> = Vec::new();
    for k in 0..pt.len()
        invariant
            pt.len() == pw.len() == pr.len(),
            keys.len() == k,
            forall|q: int|
                0 <= q < k ==> key_view(#[trigger] keys@[q]) == pair_sort_key(
                    pt@[q]@,
                    pr@[q] as int,
                    pw@[q]@,
                ),
    {
        let mut key: Vec<KeyPart> = Vec::new();
        key.push(KeyPart::Text(chars_of(pt[k].as_str())));
        key.push(KeyPart::Num(pr[k]));
        key.push(KeyPart::Text(chars_of(pw[k].as_str())));
        assert(key_view(key) =~= pair_sort_key(pt@[k as int]@, pr@[k as int] as int, pw@[k as int]@));
        keys.push(key);
    }
    let order = sort_positions(&keys);
    let ghost kv = keys_view(keys@);
    let mut st: Vec<String> = Vec::new();
    let mut sr: Vec<i64> = Vec::new();
    let mut sw: Vec<String> = Vec::new();
    for i in 0..order.len()
        invariant
            pt.len() == pw.len() == pr.len(),
            order.len() == pt.len(),
            forall|q: int| 0 <= q < order.len() ==> order@[q] < pt.len(),
            st.len() == i && sr.len() == i && sw.len() == i,
            forall|q: int|
                0 <= q < i ==> (#[trigger] st@[q])@ == pt@[order@[q] as int]@ && sr@[q] == pr@[order@[q] as int]
                    && sw@[q]@ == pw@[order@[q] as int]@,
    {
        let k = order[i];
        st.push(pt[k].clone());
        sr.push(pr[k]);
        sw.push(pw[k].clone());
    }
    proof {
        assert forall|a: int, b: int| 0 <= a < b < st.len() implies pair_lt(
            (#[trigger] st@[a])@,
            sr@[a] as int,
            sw@[a]@,
            (#[trigger] st@[b])@,
            sr@[b] as int,
            sw@[b]@,
        ) by {
            let (ka, kb) = (order@[a] as int, order@[b] as int);
            assert(index_view(order@)[a] == ka && index_view(order@)[b] == kb);
            assert(crate::sort::before(kv, ka as nat, kb as nat));
            assert(kv[ka] == key_view(keys@[ka]));
            lemma_pair_key_order(st@[a]@, sr@[a] as int, sw@[a]@, st@[b]@, sr@[b] as int, sw@[b]@);
            if kv[ka] == kv[kb] {
                assert(kv[ka][0] == PartView::Text(pt@[ka]@));
                assert(kv[ka][2] == PartView::Text(pw@[ka]@));
                lemma_sorted_distinct(kv, index_view(order@));
                assert(index_view(order@)[a] != index_view(order@)[b]);
            }
        }
    }
    let (entries, Ghost(src), Ghost(home), Ghost(pos)) = group_terms(&st, &sr, &sw);
    proof {
        broadcast use vstd::seq_lib::group_to_multiset_ensures;

        let gs = entries@.map_values(|e: CnEntry| entry_view(e));
        let n = st.len() as int;
        assert forall|g: int| 0 <= g < entries.len() implies (#[trigger] gs[g]).0 == entries@[g].term@
            && gs[g].1 == words_view(entries@[g].english@) by {}
        // Every pair stands somewhere in the sorted order.
        assert forall|k: int| 0 <= k < pt.len() implies #[trigger] placed(index_view(order@), k) by {
            assert(positions(0, pt.len() as nat)[k] == k as nat);
            assert(positions(0, pt.len() as nat).contains(k as nat));
            assert(positions(0, pt.len() as nat).to_multiset().count(k as nat) > 0);
            assert(index_view(order@).to_multiset().count(k as nat) > 0);
            assert(index_view(order@).contains(k as nat));
        }
        // Each sorted pair carries its best rank.
        assert forall|q: int| 0 <= q < n implies best_rank(uses, (#[trigger] st@[q])@, sw@[q]@)
            == Some(sr@[q] as int) by {
            assert(best_rank(uses, pt@[order@[q] as int]@, pw@[order@[q] as int]@) == Some(
                pr@[order@[q] as int] as int,
            ));
        }
        assert forall|i: int, j: int| 0 <= i < j < entries.len() implies seq_lt(
            (#[trigger] entries@[i]).term@,
            (#[trigger] entries@[j]).term@,
        ) by {
            assert(seq_lt(gs[i].0, gs[j].0));
        }
        assert forall|i: int| 0 <= i < entries.len() implies 1 <= (#[trigger] entries@[i]).english.len()
            <= MAX_CN_ENGLISH by {
            assert(gs[i].1.len() == entries@[i].english.len());
        }
        assert forall|i: int, a: int| 0 <= i < entries.len() && 0 <= a < entries@[i].english.len() implies best_rank(
            uses,
            entries@[i].term@,
            (#[trigger] entries@[i].english@[a])@,
        ) is Some by {
            assert(gs[i].1 == words_view(entries@[i].english@));
            assert(src[i].len() == gs[i].1.len());
            let q = src[i][a];
            assert(gs[i].1[a] == entries@[i].english@[a]@);
            assert(best_rank(uses, st@[q]@, sw@[q]@) == Some(sr@[q] as int));
        }
        assert forall|i: int, a: int, b: int|
            0 <= i < entries.len() && 0 <= a < b < entries@[i].english.len() implies word_before(
            uses,
            entries@[i].term@,
            (#[trigger] entries@[i].english@[a])@,
            (#[trigger] entries@[i].english@[b])@,
        ) by {
            assert(gs[i].1 == words_view(entries@[i].english@));
            assert(src[i].len() == gs[i].1.len());
            let (qa, qb) = (src[i][a], src[i][b]);
            assert(qa < qb);
            assert(gs[i].1[a] == entries@[i].english@[a]@);
            assert(gs[i].1[b] == entries@[i].english@[b]@);
            assert(best_rank(uses, st@[qa]@, sw@[qa]@) == Some(sr@[qa] as int));
            assert(best_rank(uses, st@[qb]@, sw@[qb]@) == Some(sr@[qb] as int));
            crate::text::lemma_seq_lt_irreflexive(st@[qa]@);
        }
        assert forall|t: Seq<char>, w: Seq<char>| #[trigger] best_rank(uses, t, w) is Some implies exists|i: int|
            0 <= i < entries.len() && (#[trigger] entries@[i]).term@ == t by {
            let k = choose|k: int| 0 <= k < pt.len() && (#[trigger] pt@[k])@ == t && pw@[k]@ == w;
            assert(placed(index_view(order@), k));
            let b = choose|b: int| 0 <= b < index_view(order@).len() && #[trigger] index_view(order@)[b] == k;
            assert(st@[b]@ == t);
            let g = home[b];
            assert(entries@[g].term@ == gs[g].0);
        }
        assert forall|i: int, w: Seq<char>|
            0 <= i < entries.len() && #[trigger] best_rank(uses, entries@[i].term@, w) is Some
                && !words_view(entries@[i].english@).contains(w) implies entries@[i].english.len()
            == MAX_CN_ENGLISH && word_before(
            uses,
            entries@[i].term@,
            entries@[i].english@[MAX_CN_ENGLISH - 1]@,
            w,
        ) by {
            let t = entries@[i].term@;
            let k = choose|k: int| 0 <= k < pt.len() && (#[trigger] pt@[k])@ == t && pw@[k]@ == w;
            assert(placed(index_view(order@), k));
            let b = choose|b: int| 0 <= b < index_view(order@).len() && #[trigger] index_view(order@)[b] == k;
            assert(st@[b]@ == t && sw@[b]@ == w);
            let g = home[b];
            assert(gs[g].0 == t);
            assert(gs[i].0 == t);
            if g != i {
                crate::text::lemma_seq_lt_irreflexive(t);
                if g < i {
                    assert(seq_lt(gs[g].0, gs[i].0));
                } else {
                    assert(seq_lt(gs[i].0, gs[g].0));
                }
            }
            if pos[b] != -1 {
                assert(words_view(entries@[i].english@)[pos[b]] == w);
            }
            assert(gs[i].1 == words_view(entries@[i].english@));
            assert(src[i].len() == gs[i].1.len());
            let q = src[i][MAX_CN_ENGLISH - 1];
            assert(q < b);
            assert(gs[i].1[MAX_CN_ENGLISH - 1] == entries@[i].english@[MAX_CN_ENGLISH - 1]@);
            assert(best_rank(uses, st@[q]@, sw@[q]@) == Some(sr@[q] as int));
            assert(best_rank(uses, st@[b]@, sw@[b]@) == Some(sr@[b] as int));
            crate::text::lemma_seq_lt_irreflexive(t);
        }
    }
    entries
}

} // verus!
