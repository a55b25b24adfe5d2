//! String distance and candidate ranking: the edit distance between two
//! strings, and the exact/prefix and fuzzy rankings of a candidate word list
//! against a query.
use vstd::prelude::*;
use crate::distance::{
    bounded_distance_ci, char_distance, edit_distance, lemma_edit_distance_lower_bound,
    lemma_edit_distance_symmetric,
};
use crate::text::{
    ascii_lower, ascii_lower_chars, ascii_lower_seq, chars_of, compare_chars, seq_lt, string_of,
    to_ascii_lower, to_lowercase, trim, trim_chars, unicode_lowercase,
};

verus! {

/// Maximum edit distance at which a non-prefix candidate is still surfaced.
pub const MAX_SUGGEST_DISTANCE: usize = 3;

/// Levenshtein distance between `a` and `b`, counted in characters (Unicode
/// scalar values).
pub fn levenshtein_distance(a: &str, b: &str) -> (d: usize)
    ensures
        d == edit_distance(a@, b@),
{
    let a_chars = chars_of(a);
    let b_chars = chars_of(b);
    char_distance(&a_chars, &b_chars)
}

// ---------------------------------------------------------------------------
// Case-insensitive prefix
// ---------------------------------------------------------------------------
/// `p` is a prefix of `h` when ASCII letters are compared without regard to
/// case (other characters compare exactly).
pub open spec fn ci_prefix(h: Seq<char>, p: Seq<char>) -> bool {
    &&& p.len() <= h.len()
    &&& forall|i: int| 0 <= i < p.len() ==> ascii_lower(#[trigger] h[i]) == ascii_lower(p[i])
}

/// ASCII-case-insensitive `haystack.starts_with(prefix)`.
pub fn ascii_ci_starts_with(haystack: &Vec<char>, prefix: &Vec<char>) -> (r: bool)
    ensures
        r == ci_prefix(haystack@, prefix@),
{
    if prefix.len() > haystack.len() {
        return false;
    }
    let mut i: usize = 0;
    while i < prefix.len()
        invariant
            prefix.len() <= haystack.len(),
            i <= prefix.len(),
            forall|k: int| 0 <= k < i ==> ascii_lower(#[trigger] haystack@[k]) == ascii_lower(
                prefix@[k],
            ),
        decreases prefix.len() - i,
    {
        if to_ascii_lower(haystack[i]) != to_ascii_lower(prefix[i]) {
            return false;
        }
        i += 1;
    }
    true
}

// ---------------------------------------------------------------------------
// Ranked order
// ---------------------------------------------------------------------------
/// A scored candidate: its score and its text.
pub type Scored = (nat, Seq<char>);

/// Ranking order: lower score first, then (when `by_text`) alphabetical.
pub open spec fn rank_lt(x: Scored, y: Scored, by_text: bool) -> bool {
    x.0 < y.0 || (by_text && x.0 == y.0 && seq_lt(x.1, y.1))
}

/// `s` with `x` inserted after every element that does not rank above it.
pub open spec fn insert_ranked(s: Seq<Scored>, x: Scored, by_text: bool) -> Seq<Scored>
    decreases s.len(),
{
    if s.len() > 0 && rank_lt(x, s.last(), by_text) {
        insert_ranked(s.drop_last(), x, by_text).push(s.last())
    } else {
        s.push(x)
    }
}

/// `s` in ranking order; elements that tie keep their relative order
/// (a stable sort).
pub open spec fn ranked(s: Seq<Scored>, by_text: bool) -> Seq<Scored>
    decreases s.len(),
{
    if s.len() == 0 {
        Seq::empty()
    } else {
        insert_ranked(ranked(s.drop_last(), by_text), s.last(), by_text)
    }
}

/// The texts of the first `max` elements of `s` in ranking order.
pub open spec fn top_texts(s: Seq<Scored>, max: nat) -> Seq<Seq<char>> {
    first_texts(ranked(s, true), max)
}

/// A scored candidate as held at run time.
pub struct ScoredText {
    pub score: usize,
    pub text: Vec<char>,
}

pub open spec fn scored_view(e: ScoredText) -> Scored {
    (e.score as nat, e.text@)
}

pub open spec fn scored_seq(v: Seq<ScoredText>) -> Seq<Scored> {
    v.map_values(|e: ScoredText| scored_view(e))
}

fn ranks_below(x: &ScoredText, y: &ScoredText, by_text: bool) -> (r: bool)
    ensures
        r == rank_lt(scored_view(*x), scored_view(*y), by_text),
{
    if x.score < y.score {
        true
    } else if by_text && x.score == y.score {
        compare_chars(&x.text, &y.text) < 0
    } else {
        false
    }
}

proof fn lemma_insert_ranked_split(s: Seq<Scored>, x: Scored, p: int, by_text: bool)
    requires
        0 <= p <= s.len(),
        forall|j: int| p <= j < s.len() ==> rank_lt(x, #[trigger] s[j], by_text),
    ensures
        insert_ranked(s, x, by_text) == insert_ranked(s.take(p), x, by_text) + s.skip(p),
    decreases s.len() - p,
{
    if p < s.len() {
        lemma_insert_ranked_split(s.drop_last(), x, p, by_text);
        assert(s.drop_last().take(p) =~= s.take(p));
        assert(s.skip(p) =~= s.drop_last().skip(p).push(s.last()));
        assert(insert_ranked(s, x, by_text) == insert_ranked(s.drop_last(), x, by_text).push(s.last()));
        assert((insert_ranked(s.take(p), x, by_text) + s.drop_last().skip(p)).push(s.last()) =~= insert_ranked(
            s.take(p),
            x, by_text) + s.skip(p));
    } else {
        assert(s.take(p) =~= s);
        assert(s.skip(p) =~= Seq::<Scored>::empty());
        assert(insert_ranked(s, x, by_text) + Seq::<Scored>::empty() =~= insert_ranked(s, x, by_text));
    }
}

/// Inserts `x` into `v` at its ranked position.
pub(crate) fn insert_in_rank(v: &mut Vec<ScoredText>, x: ScoredText, by_text: bool)
    ensures
        scored_seq(final(v)@) == insert_ranked(scored_seq(old(v)@), scored_view(x), by_text),
{
    let ghost s = scored_seq(v@);
    let mut p = v.len();
    while p > 0 && ranks_below(&x, &v[p - 1], by_text)
        invariant
            p <= v.len(),
            s == scored_seq(v@),
            forall|j: int| p <= j < v.len() ==> rank_lt(scored_view(x), #[trigger] s[j], by_text),
        decreases p,
    {
        p -= 1;
    }
    proof {
        lemma_insert_ranked_split(s, scored_view(x), p as int, by_text);
        if p > 0 {
            assert(s.take(p as int).last() == s[p - 1]);
        }
        assert(insert_ranked(s.take(p as int), scored_view(x), by_text) == s.take(p as int).push(
            scored_view(x),
        ));
    }
    let ghost xv = scored_view(x);
    v.insert(p, x);
    assert(scored_seq(v@) =~= s.take(p as int).push(xv) + s.skip(p as int));
}

/// The texts of the first `max` elements of `s`.
pub open spec fn first_texts(s: Seq<Scored>, max: nat) -> Seq<Seq<char>> {
    let k = if max <= s.len() {
        max as int
    } else {
        s.len() as int
    };
    s.take(k).map_values(|e: Scored| e.1)
}

/// The texts of the first `max` elements of `v`, as strings.
pub(crate) fn take_texts(v: &Vec<ScoredText>, max: usize) -> (r: Vec<String>)
    ensures
        r@.map_values(|t: String| t@) == first_texts(scored_seq(v@), max as nat),
{
    let k = if max <= v.len() {
        max
    } else {
        v.len()
    };
    let mut r: Vec<String> = Vec::new();
    for i in 0..k
        invariant
            k <= v.len(),
            r.len() == i,
            forall|j: int| 0 <= j < i ==> (#[trigger] r@[j])@ == v@[j].text@,
    {
        let s = string_of(&v[i].text);
        r.push(s);
    }
    assert(r@.map_values(|t: String| t@) =~= scored_seq(v@).take(k as int).map_values(
        |e: Scored| e.1,
    ));
    r
}

/// The texts of `candidates`.
pub open spec fn texts(candidates: Seq<&str>) -> Seq<Seq<char>> {
    candidates.map_values(|c: &str| c@)
}

// ---------------------------------------------------------------------------
// Exact-then-prefix ranking
// ---------------------------------------------------------------------------
/// The candidates that start with `q` (see [`ci_prefix`]), each scored by how
/// many characters it has beyond `q`; both sides are compared trimmed.
pub open spec fn prefix_scored(q: Seq<char>, cs: Seq<Seq<char>>) -> Seq<Scored>
    decreases cs.len(),
{
    if cs.len() == 0 {
        Seq::empty()
    } else {
        let r = prefix_scored(q, cs.drop_last());
        let c = cs.last();
        if ci_prefix(trim(c), q) {
            r.push(((trim(c).len() - q.len()) as nat, c))
        } else {
            r
        }
    }
}

/// Up to `max` candidates whose (trimmed) start matches the trimmed `query`,
/// ASCII-case-insensitively; the exact match first, then the shortest
/// completions, ties broken alphabetically. An empty query matches nothing.
pub fn prefix_candidates(query: &str, candidates: &[&str], max: usize) -> (r: Vec<String>)
    ensures
        r@.map_values(|t: String| t@) == (if trim(query@).len() == 0 {
            Seq::<Seq<char>>::empty()
        } else {
            top_texts(prefix_scored(trim(query@), texts(candidates@)), max as nat)
        }),
{
    if max == 0 || candidates.len() == 0 {
        assert(texts(candidates@).len() == 0 ==> prefix_scored(
            trim(query@),
            texts(candidates@),
        ) =~= Seq::<Scored>::empty());
        let r: Vec<String> = Vec::new();
        assert(r@.map_values(|t: String| t@) =~= Seq::<Seq<char>>::empty());
        return r;
    }
    let qv = chars_of(query);
    let q = trim_chars(&qv);
    if q.len() == 0 {
        let r: Vec<String> = Vec::new();
        assert(r@.map_values(|t: String| t@) =~= Seq::<Seq<char>>::empty());
        return r;
    }
    let q_len = q.len();
    let ghost cs = texts(candidates@);
    let mut sorted: Vec<ScoredText> = Vec::new();
    for i in 0..candidates.len()
        invariant
            q@ == trim(query@),
            q_len == q.len(),
            cs == texts(candidates@),
            scored_seq(sorted@) == ranked(prefix_scored(q@, cs.take(i as int)), true),
    {
        let cv = chars_of(candidates[i]);
        let cand = trim_chars(&cv);
        proof {
            assert(cs.take(i + 1).drop_last() =~= cs.take(i as int));
            assert(cs.take(i + 1).last() == cv@);
        }
        let ghost before = prefix_scored(q@, cs.take(i as int));
        if ascii_ci_starts_with(&cand, &q) {
            let extra = cand.len() - q_len;
            let ghost entry = ((trim(cv@).len() - q@.len()) as nat, cv@);
            proof {
                assert(prefix_scored(q@, cs.take(i + 1)) == before.push(entry));
                assert(before.push(entry).drop_last() =~= before);
            }
            insert_in_rank(&mut sorted, ScoredText { score: extra, text: cv }, true);
        } else {
            assert(prefix_scored(q@, cs.take(i + 1)) == before);
        }
    }
    assert(cs.take(candidates.len() as int) =~= cs);
    take_texts(&sorted, max)
}

// ---------------------------------------------------------------------------
// Fuzzy ranking
// ---------------------------------------------------------------------------
/// Whether candidate `c` is surfaced for the (lower-cased) query `q`: its
/// trimmed text is a case-insensitive prefix of `q` or starts with `q`, or is
/// within [`MAX_SUGGEST_DISTANCE`] edits of it.
pub open spec fn rank_keeps(q: Seq<char>, c: Seq<char>) -> bool {
    let t = trim(c);
    ci_prefix(t, q) || ci_prefix(q, t) || edit_distance(q, ascii_lower_seq(t))
        <= MAX_SUGGEST_DISTANCE
}

/// The surfaced candidates, each scored by its edit distance to `q`.
pub open spec fn fuzzy_scored(q: Seq<char>, cs: Seq<Seq<char>>) -> Seq<Scored>
    decreases cs.len(),
{
    if cs.len() == 0 {
        Seq::empty()
    } else {
        let r = fuzzy_scored(q, cs.drop_last());
        let c = cs.last();
        if rank_keeps(q, c) {
            r.push((edit_distance(q, ascii_lower_seq(trim(c))), c))
        } else {
            r
        }
    }
}

/// Up to `max` candidates ranked against `query`: ascending Levenshtein
/// distance to the trimmed, lower-cased query (candidates are trimmed and
/// ASCII-lower-cased), ties broken alphabetically. A candidate is surfaced
/// when it is within [`MAX_SUGGEST_DISTANCE`] edits of the query, or when
/// either string is a prefix of the other.
pub fn rank_candidates(query: &str, candidates: &[&str], max: usize) -> (r: Vec<String>)
    ensures
        r@.map_values(|t: String| t@) == top_texts(
            fuzzy_scored(unicode_lowercase(trim(query@)), texts(candidates@)),
            max as nat,
        ),
{
    let ghost qs = unicode_lowercase(trim(query@));
    if max == 0 || candidates.len() == 0 {
        assert(texts(candidates@).len() == 0 ==> fuzzy_scored(qs, texts(candidates@))
            =~= Seq::<Scored>::empty());
        let r: Vec<String> = Vec::new();
        assert(r@.map_values(|t: String| t@) =~= Seq::<Seq<char>>::empty());
        return r;
    }
    let qv = chars_of(query);
    let qt = trim_chars(&qv);
    let qstr = string_of(&qt);
    let lowered = to_lowercase(qstr.as_str());
    let q = chars_of(lowered.as_str());
    let q_len = q.len();
    let mut prev: Vec<usize> = Vec::new();
    let mut curr: Vec<usize> = Vec::new();
    let ghost cs = texts(candidates@);
    let mut sorted: Vec<ScoredText> = Vec::new();
    for i in 0..candidates.len()
        invariant
            q@ == qs,
            q_len == q.len(),
            cs == texts(candidates@),
            scored_seq(sorted@) == ranked(fuzzy_scored(q@, cs.take(i as int)), true),
    {
        let cv = chars_of(candidates[i]);
        let cand = trim_chars(&cv);
        proof {
            assert(cs.take(i + 1).drop_last() =~= cs.take(i as int));
            assert(cs.take(i + 1).last() == cv@);
        }
        let ghost before = fuzzy_scored(q@, cs.take(i as int));
        let ghost entry = (edit_distance(q@, ascii_lower_seq(trim(cv@))), cv@);
        proof {
            lemma_edit_distance_lower_bound(q@, ascii_lower_seq(cand@));
            lemma_edit_distance_symmetric(q@, ascii_lower_seq(cand@));
            if rank_keeps(q@, cv@) {
                assert(fuzzy_scored(q@, cs.take(i + 1)) == before.push(entry));
                assert(before.push(entry).drop_last() =~= before);
            } else {
                assert(fuzzy_scored(q@, cs.take(i + 1)) == before);
            }
        }
        let is_prefix = ascii_ci_starts_with(&cand, &q) || ascii_ci_starts_with(&q, &cand);
        if is_prefix {
            let lowered_cand = ascii_lower_chars(&cand);
            let score = char_distance(&q, &lowered_cand);
            insert_in_rank(&mut sorted, ScoredText { score, text: cv }, true);
        } else {
            let c_len = cand.len();
            let gap = if q_len > c_len {
                q_len - c_len
            } else {
                c_len - q_len
            };
            if gap <= MAX_SUGGEST_DISTANCE {
                match bounded_distance_ci(&q, &cand, MAX_SUGGEST_DISTANCE, &mut prev, &mut curr) {
                    Some(d) => {
                        insert_in_rank(&mut sorted, ScoredText { score: d, text: cv }, true);
                    },
                    None => {},
                }
            }
        }
    }
    assert(cs.take(candidates.len() as int) =~= cs);
    take_texts(&sorted, max)
}

// ---------------------------------------------------------------------------
// Laws of the ranked order
// ---------------------------------------------------------------------------
/// `s` is in ranking order: no element ranks below one before it.
pub open spec fn is_ranked(s: Seq<Scored>, by_text: bool) -> bool {
    forall|i: int, j: int| 0 <= i < j < s.len() ==> !rank_lt(#[trigger] s[j], #[trigger] s[i], by_text)
}

proof fn lemma_rank_lt_irreflexive(a: Scored, by_text: bool)
    ensures
        !rank_lt(a, a, by_text),
{
    crate::text::lemma_seq_lt_irreflexive(a.1);
}

proof fn lemma_rank_lt_transitive(a: Scored, b: Scored, c: Scored, by_text: bool)
    requires
        rank_lt(a, b, by_text),
        rank_lt(b, c, by_text),
    ensures
        rank_lt(a, c, by_text),
{
    if a.0 == b.0 && b.0 == c.0 {
        crate::text::lemma_seq_lt_transitive(a.1, b.1, c.1);
    }
}

/// Not ranking below is transitive.
proof fn lemma_rank_ge_transitive(a: Scored, b: Scored, c: Scored, by_text: bool)
    requires
        !rank_lt(a, b, by_text),
        !rank_lt(b, c, by_text),
    ensures
        !rank_lt(a, c, by_text),
{
    if by_text && a.0 == b.0 && b.0 == c.0 {
        crate::text::lemma_seq_lt_total(a.1, b.1);
        crate::text::lemma_seq_lt_total(b.1, c.1);
        if seq_lt(a.1, c.1) {
            if seq_lt(b.1, a.1) {
                crate::text::lemma_seq_lt_transitive(b.1, a.1, c.1);
                if seq_lt(c.1, b.1) {
                    crate::text::lemma_seq_lt_asymmetric(b.1, c.1);
                }
            }
        }
    }
}

proof fn lemma_insert_ranked_bounded(s: Seq<Scored>, x: Scored, y: Scored, by_text: bool)
    requires
        !rank_lt(y, x, by_text),
        forall|i: int| 0 <= i < s.len() ==> !rank_lt(y, #[trigger] s[i], by_text),
    ensures
        forall|k: int|
            0 <= k < insert_ranked(s, x, by_text).len() ==> !rank_lt(y, #[trigger] insert_ranked(s, x, by_text)[k], by_text),
        insert_ranked(s, x, by_text).len() == s.len() + 1,
    decreases s.len(),
{
    if s.len() > 0 && rank_lt(x, s.last(), by_text) {
        lemma_insert_ranked_bounded(s.drop_last(), x, y, by_text);
    }
}

proof fn lemma_insert_ranked_sorted(s: Seq<Scored>, x: Scored, by_text: bool)
    requires
        is_ranked(s, by_text),
    ensures
        is_ranked(insert_ranked(s, x, by_text), by_text),
    decreases s.len(),
{
    if s.len() > 0 {
        let last = s.last();
        if rank_lt(x, last, by_text) {
            let t = s.drop_last();
            lemma_insert_ranked_sorted(t, x, by_text);
            if rank_lt(last, x, by_text) {
                lemma_rank_lt_transitive(x, last, x, by_text);
                lemma_rank_lt_irreflexive(x, by_text);
            }
            assert forall|i: int| 0 <= i < t.len() implies !rank_lt(last, #[trigger] t[i], by_text) by {
                assert(t[i] == s[i]);
            }
            lemma_insert_ranked_bounded(t, x, last, by_text);
        } else {
            assert forall|i: int| 0 <= i < s.len() implies !rank_lt(x, #[trigger] s[i], by_text) by {
                if i < s.len() - 1 {
                    assert(!rank_lt(s[s.len() - 1], s[i], by_text));
                    lemma_rank_ge_transitive(x, last, s[i], by_text);
                }
            }
            let r = s.push(x);
            assert forall|i: int, j: int| 0 <= i < j < r.len() implies !rank_lt(
                #[trigger] r[j],
                #[trigger] r[i], by_text) by {
                if j == s.len() {
                    assert(r[i] == s[i]);
                } else {
                    assert(r[i] == s[i] && r[j] == s[j]);
                }
            }
        }
    }
}

proof fn lemma_insert_ranked_multiset(s: Seq<Scored>, x: Scored, by_text: bool)
    ensures
        insert_ranked(s, x, by_text).to_multiset() == s.to_multiset().insert(x),
    decreases s.len(),
{
    broadcast use vstd::seq_lib::group_to_multiset_ensures;

    if s.len() > 0 && rank_lt(x, s.last(), by_text) {
        lemma_insert_ranked_multiset(s.drop_last(), x, by_text);
        assert(s =~= s.drop_last().push(s.last()));
        assert(s.drop_last().to_multiset().insert(x).insert(s.last()) =~= s.drop_last().to_multiset().insert(
            s.last(),
        ).insert(x));
    }
}

/// The ranked order of `s` is sorted: lower scores come first, and equal
/// scores are in alphabetical order.
pub proof fn lemma_ranked_is_sorted(s: Seq<Scored>, by_text: bool)
    ensures
        is_ranked(ranked(s, by_text), by_text),
    decreases s.len(),
{
    if s.len() > 0 {
        lemma_ranked_is_sorted(s.drop_last(), by_text);
        lemma_insert_ranked_sorted(ranked(s.drop_last(), by_text), s.last(), by_text);
    }
}

/// Ranking neither drops nor invents candidates: the ranked order is a
/// permutation of the scored candidates.
pub proof fn lemma_ranked_is_permutation(s: Seq<Scored>, by_text: bool)
    ensures
        ranked(s, by_text).to_multiset() == s.to_multiset(),
    decreases s.len(),
{
    broadcast use vstd::seq_lib::group_to_multiset_ensures;

    if s.len() > 0 {
        lemma_ranked_is_permutation(s.drop_last(), by_text);
        lemma_insert_ranked_multiset(ranked(s.drop_last(), by_text), s.last(), by_text);
        assert(s =~= s.drop_last().push(s.last()));
    }
}

/// At most `max` candidates are returned: exactly `min(max, n)` for `n`
/// surfaced candidates.
pub proof fn lemma_top_texts_len(s: Seq<Scored>, max: nat)
    ensures
        top_texts(s, max).len() == if max <= s.len() {
            max
        } else {
            s.len()
        },
{
    broadcast use vstd::seq_lib::group_to_multiset_ensures;

    lemma_ranked_is_permutation(s, true);
    assert(ranked(s, true).len() == ranked(s, true).to_multiset().len());
}

/// Every candidate surfaced by the fuzzy ranking is kept by [`rank_keeps`]
/// and scored with its edit distance to the query.
pub proof fn lemma_fuzzy_scored_members(q: Seq<char>, cs: Seq<Seq<char>>)
    ensures
        forall|k: int|
            0 <= k < fuzzy_scored(q, cs).len() ==> {
                let e = #[trigger] fuzzy_scored(q, cs)[k];
                &&& rank_keeps(q, e.1)
                &&& e.0 == edit_distance(q, ascii_lower_seq(trim(e.1)))
            },
    decreases cs.len(),
{
    if cs.len() > 0 {
        let r = fuzzy_scored(q, cs.drop_last());
        lemma_fuzzy_scored_members(q, cs.drop_last());
        assert forall|k: int| 0 <= k < fuzzy_scored(q, cs).len() implies {
            let e = #[trigger] fuzzy_scored(q, cs)[k];
            &&& rank_keeps(q, e.1)
            &&& e.0 == edit_distance(q, ascii_lower_seq(trim(e.1)))
        } by {
            if k < r.len() {
                assert(fuzzy_scored(q, cs)[k] == r[k]);
            }
        }
    }
}

/// Every candidate surfaced by the prefix ranking starts with the query, and
/// is scored by how many characters it adds to it; in particular an exact
/// match scores zero and comes first.
pub proof fn lemma_prefix_scored_members(q: Seq<char>, cs: Seq<Seq<char>>)
    ensures
        forall|k: int|
            0 <= k < prefix_scored(q, cs).len() ==> {
                let e = #[trigger] prefix_scored(q, cs)[k];
                &&& ci_prefix(trim(e.1), q)
                &&& e.0 == trim(e.1).len() - q.len()
            },
    decreases cs.len(),
{
    if cs.len() > 0 {
        let r = prefix_scored(q, cs.drop_last());
        lemma_prefix_scored_members(q, cs.drop_last());
        assert forall|k: int| 0 <= k < prefix_scored(q, cs).len() implies {
            let e = #[trigger] prefix_scored(q, cs)[k];
            &&& ci_prefix(trim(e.1), q)
            &&& e.0 == trim(e.1).len() - q.len()
        } by {
            if k < r.len() {
                assert(prefix_scored(q, cs)[k] == r[k]);
            }
        }
    }
}

} // verus!
