//! Dataset generation rules: which source words are kept, how a source
//! translation field is split into parts of speech and meanings, how the
//! inflection field is read, and how clean Chinese terms are extracted for the
//! Chinese → English index.
use vstd::prelude::*;
use crate::record::{Definition, Inflections, Pronunciation, WordEn};
use crate::text::{
    ascii_lower, canonical, canonical_word, chars_of, is_white_space, slice_chars, string_of,
    to_ascii_lower, trim, trim_chars, trim_end, trim_start,
};
use crate::ui::{cjk, is_cjk};
use crate::config::opt_string_view;

verus! {

/// Maximum number of definition lines kept per word.
pub const MAX_DEFINITIONS: usize = 8;

/// Maximum number of characters of an accepted Chinese term.
pub const MAX_CN_TERM_CHARS: usize = 8;

// ---------------------------------------------------------------------------
// Splitting
// ---------------------------------------------------------------------------
/// The pieces of `s` between the separator characters `seps` (what
/// `str::split` gives: a text with `n` separators has `n + 1` pieces, some
/// possibly empty).
pub open spec fn pieces(s: Seq<char>, seps: Seq<char>) -> Seq<Seq<char>>
    decreases s.len(),
{
    if s.len() == 0 {
        seq![Seq::<char>::empty()]
    } else {
        let p = pieces(s.drop_last(), seps);
        if seps.contains(s.last()) {
            p.push(Seq::<char>::empty())
        } else {
            p.update(p.len() - 1, p.last().push(s.last()))
        }
    }
}

proof fn lemma_pieces_nonempty(s: Seq<char>, seps: Seq<char>)
    ensures
        pieces(s, seps).len() >= 1,
    decreases s.len(),
{
    if s.len() > 0 {
        lemma_pieces_nonempty(s.drop_last(), seps);
    }
}

fn is_one_of(c: char, seps: &Vec<char>) -> (r: bool)
    ensures
        r == seps@.contains(c),
{
    for i in 0..seps.len()
        invariant
            forall|k: int| 0 <= k < i ==> seps@[k] != c,
    {
        if seps[i] == c {
            return true;
        }
    }
    false
}

pub open spec fn chars_views(v: Seq<Vec<char>>) -> Seq<Seq<char>> {
    v.map_values(|p: Vec<char>| p@)
}

/// `v` split at the characters of `seps`.
pub fn split_on(v: &Vec<char>, seps: &Vec<char>) -> (r: Vec<Vec<char>>)
    ensures
        chars_views(r@) == pieces(v@, seps@),
{
    let mut done: Vec<Vec<char>> = Vec::new();
    let mut cur: Vec<char> = Vec::new();
    for i in 0..v.len()
        invariant
            chars_views(done@).push(cur@) == pieces(v@.take(i as int), seps@),
    {
        proof {
            lemma_pieces_nonempty(v@.take(i as int), seps@);
            assert(v@.take(i + 1).drop_last() =~= v@.take(i as int));
        }
        let c = v[i];
        if is_one_of(c, seps) {
            let ghost before = chars_views(done@);
            let finished = cur;
            done.push(finished);
            cur = Vec::new();
            assert(chars_views(done@) =~= before.push(finished@));
            assert(chars_views(done@).push(cur@) =~= pieces(v@.take(i + 1), seps@));
        } else {
            let ghost before_cur = cur@;
            cur.push(c);
            assert(chars_views(done@).push(cur@) =~= pieces(v@.take(i + 1), seps@));
        }
    }
    assert(v@.take(v.len() as int) =~= v@);
    let ghost before = chars_views(done@);
    done.push(cur);
    assert(chars_views(done@) =~= before.push(cur@));
    done
}

// ---------------------------------------------------------------------------
// Word shape
// ---------------------------------------------------------------------------
pub open spec fn is_ascii_alpha(c: char) -> bool {
    ('a' <= c && c <= 'z') || ('A' <= c && c <= 'Z')
}

fn ascii_alpha(c: char) -> (r: bool)
    ensures
        r == is_ascii_alpha(c),
{
    ('a' <= c && c <= 'z') || ('A' <= c && c <= 'Z')
}

fn all_ascii_alpha(v: &Vec<char>, end: usize) -> (r: bool)
    requires
        end <= v.len(),
    ensures
        r == forall|k: int| 0 <= k < end ==> is_ascii_alpha(#[trigger] v@[k]),
{
    for i in 0..end
        invariant
            end <= v.len(),
            forall|k: int| 0 <= k < i ==> is_ascii_alpha(#[trigger] v@[k]),
    {
        if !ascii_alpha(v[i]) {
            return false;
        }
    }
    true
}

/// A clean single word: 2 to 22 ASCII letters, or one of `a` and `i`.
pub open spec fn clean_word(s: Seq<char>) -> bool {
    ||| (2 <= s.len() <= 22 && forall|k: int| 0 <= k < s.len() ==> is_ascii_alpha(#[trigger] s[k]))
    ||| s == seq!['a']
    ||| s == seq!['i']
}

/// Whether `word` is a clean single word (see [`clean_word`]).
pub fn is_clean_word(word: &str) -> (r: bool)
    ensures
        r == clean_word(word@),
{
    let v = chars_of(word);
    let n = v.len();
    if 2 <= n && n <= 22 && all_ascii_alpha(&v, n) {
        return true;
    }
    if n == 1 && (v[0] == 'a' || v[0] == 'i') {
        assert(v@ =~= seq![v@[0]]);
        return true;
    }
    assert(v@ == seq!['a'] ==> v@.len() == 1 && v@[0] == 'a');
    assert(v@ == seq!['i'] ==> v@.len() == 1 && v@[0] == 'i');
    false
}

pub open spec fn is_vowel(c: char) -> bool {
    let l = ascii_lower(c);
    l == 'a' || l == 'e' || l == 'i' || l == 'o' || l == 'u' || l == 'y'
}

/// Whether `word` has a vowel (`a e i o u y`, either case).
pub fn has_vowel(word: &str) -> (r: bool)
    ensures
        r == exists|k: int| 0 <= k < word@.len() && is_vowel(#[trigger] word@[k]),
{
    let v = chars_of(word);
    for i in 0..v.len()
        invariant
            v@ == word@,
            forall|k: int| 0 <= k < i ==> !is_vowel(#[trigger] v@[k]),
    {
        let l = to_ascii_lower(v[i]);
        if l == 'a' || l == 'e' || l == 'i' || l == 'o' || l == 'u' || l == 'y' {
            return true;
        }
    }
    false
}

// ---------------------------------------------------------------------------
// Inflected forms
// ---------------------------------------------------------------------------
/// The exchange item `item` marks the word as a form of a different lemma:
/// it reads `0:lemma` with a non-blank lemma that differs from `key` once
/// trimmed and lower-cased.
pub open spec fn marks_other_lemma(item: Seq<char>, key: Seq<char>) -> bool {
    &&& item.len() >= 2
    &&& item[0] == '0'
    &&& item[1] == ':'
    &&& canonical_word(item.skip(2)).len() > 0
    &&& canonical_word(item.skip(2)) != key
}

/// Whether the exchange field marks `key` as an inflected form of another
/// lemma (an item `0:lemma`), in which case the word is dropped in favour of
/// its lemma.
pub fn is_inflection_of_other(exchange: &str, key: &str) -> (r: bool)
    ensures
        r == exists|k: int|
            0 <= k < pieces(exchange@, seq!['/']).len() && marks_other_lemma(
                #[trigger] pieces(exchange@, seq!['/'])[k],
                key@,
            ),
{
    let v = chars_of(exchange);
    let mut seps: Vec<char> = Vec::new();
    seps.push('/');
    assert(seps@ =~= seq!['/']);
    let items = split_on(&v, &seps);
    let ghost ps = pieces(exchange@, seq!['/']);
    let key_owned = string_of(&chars_of(key));
    for i in 0..items.len()
        invariant
            chars_views(items@) == ps,
            ps == pieces(exchange@, seq!['/']),
            key_owned@ == key@,
            forall|k: int| 0 <= k < i ==> !marks_other_lemma(#[trigger] ps[k], key@),
    {
        let item = &items[i];
        assert(item@ == ps[i as int]);
        if item.len() >= 2 && item[0] == '0' && item[1] == ':' {
            let rest = slice_chars(item, 2, item.len());
            assert(rest@ =~= item@.skip(2));
            let lemma = canonical(string_of(&rest).as_str());
            if !lemma.as_str().is_empty() && !(lemma == key_owned) {
                assert(marks_other_lemma(pieces(exchange@, seq!['/'])[i as int], key@));
                return true;
            }
        }
    }
    false
}

// ---------------------------------------------------------------------------
// Part of speech
// ---------------------------------------------------------------------------
/// `s` has a space, and `i` is the index of its first one.
pub open spec fn first_space_at(s: Seq<char>, i: int) -> bool {
    0 <= i < s.len() && s[i] == ' ' && forall|k: int| 0 <= k < i ==> s[k] != ' '
}

/// A part-of-speech token: letters followed by a period, like `n.` or `vt.`.
pub open spec fn pos_token(head: Seq<char>) -> bool {
    &&& head.len() >= 2
    &&& head.last() == '.'
    &&& forall|k: int| 0 <= k < head.len() - 1 ==> is_ascii_alpha(#[trigger] head[k])
}

/// A line split into its leading part-of-speech token and the trimmed rest;
/// a line without such a token gives an empty token and the whole line.
pub open spec fn pos_split(line: Seq<char>) -> (Seq<char>, Seq<char>) {
    if exists|i: int| first_space_at(line, i) {
        let sp = choose|i: int| first_space_at(line, i);
        if pos_token(line.take(sp)) {
            (line.take(sp), trim(line.skip(sp + 1)))
        } else {
            (Seq::empty(), line)
        }
    } else {
        (Seq::empty(), line)
    }
}

proof fn lemma_first_space_unique(s: Seq<char>, i: int, j: int)
    requires
        first_space_at(s, i),
        first_space_at(s, j),
    ensures
        i == j,
{
}

fn pos_split_chars(line: &Vec<char>) -> (r: (Vec<char>, Vec<char>))
    ensures
        (r.0@, r.1@) == pos_split(line@),
{
    let mut sp: usize = 0;
    while sp < line.len() && line[sp] != ' '
        invariant
            sp <= line.len(),
            forall|k: int| 0 <= k < sp ==> line@[k] != ' ',
        decreases line.len() - sp,
    {
        sp += 1;
    }
    if sp == line.len() {
        assert(!exists|i: int| first_space_at(line@, i));
        return (Vec::new(), slice_chars(line, 0, line.len()));
    }
    proof {
        assert(first_space_at(line@, sp as int));
        let c = choose|i: int| first_space_at(line@, i);
        lemma_first_space_unique(line@, c, sp as int);
        assert(line@.subrange(0, line.len() as int) =~= line@);
    }
    if sp >= 2 && line[sp - 1] == '.' && all_ascii_alpha(line, sp - 1) {
        let head = slice_chars(line, 0, sp);
        let rest = slice_chars(line, sp + 1, line.len());
        let t = trim_chars(&rest);
        assert(head@ =~= line@.take(sp as int));
        assert(rest@ =~= line@.skip(sp + 1));
        (head, t)
    } else {
        assert(!pos_token(line@.take(sp as int)));
        (Vec::new(), slice_chars(line, 0, line.len()))
    }
}

/// Splits a leading part-of-speech token (`n.`, `vt.`, `adj.` ...) from a
/// translation line, returning it with the trimmed rest; the token is empty
/// when the line has none.
pub fn split_pos(line: &str) -> (r: (String, String))
    ensures
        (r.0@, r.1@) == pos_split(line@),
{
    let v = chars_of(line);
    let (pos, rest) = pos_split_chars(&v);
    (string_of(&pos), string_of(&rest))
}

// ---------------------------------------------------------------------------
// Frequency rank
// ---------------------------------------------------------------------------
/// Rank of an English word by usage frequency (lower is more frequent):
/// contemporary corpus frequency first, then BNC-only words after them; no
/// rank without either signal.
pub fn english_freq_rank(frq: i64, bnc: i64) -> (r: Option<i64>)
    requires
        frq > 0 || bnc <= 0 || bnc + 1_000_000 <= i64::MAX,
    ensures
        r == (if frq > 0 {
            Some(frq)
        } else if bnc > 0 {
            Some((bnc + 1_000_000) as i64)
        } else {
            None::<i64>
        }),
{
    if frq > 0 {
        Some(frq)
    } else if bnc > 0 {
        Some(bnc + 1_000_000)
    } else {
        None
    }
}

/// Every frequency-ranked word sorts before every BNC-only word.
pub proof fn law_frq_before_bnc(frq: i64, bnc_only: i64)
    requires
        frq > 0,
        frq < 1_000_000,
        bnc_only > 0,
        bnc_only + 1_000_000 <= i64::MAX,
    ensures
        frq < bnc_only + 1_000_000,
{
}

// ---------------------------------------------------------------------------
// Chinese terms
// ---------------------------------------------------------------------------
/// Every character of `s` is a CJK ideograph, and there is at least one.
pub open spec fn all_cjk(s: Seq<char>) -> bool {
    s.len() > 0 && forall|k: int| 0 <= k < s.len() ==> is_cjk(#[trigger] s[k])
}

fn all_cjk_chars(v: &Vec<char>) -> (r: bool)
    ensures
        r == all_cjk(v@),
{
    if v.len() == 0 {
        return false;
    }
    for i in 0..v.len()
        invariant
            forall|k: int| 0 <= k < i ==> is_cjk(#[trigger] v@[k]),
    {
        if !cjk(v[i]) {
            return false;
        }
    }
    true
}

/// Whether `s` is non-empty and made of CJK ideographs only.
pub fn is_all_cjk(s: &str) -> (r: bool)
    ensures
        r == all_cjk(s@),
{
    all_cjk_chars(&chars_of(s))
}

pub open spec fn is_open_bracket(c: char) -> bool {
    c == '[' || c == '(' || c == '（' || c == '【'
}

pub open spec fn is_close_bracket(c: char) -> bool {
    c == ']' || c == ')' || c == '）' || c == '】'
}

/// The characters of `s` outside brackets, with the bracket nesting depth
/// reached at its end. An unmatched closing bracket is ignored.
pub open spec fn unbracketed(s: Seq<char>) -> (Seq<char>, nat)
    decreases s.len(),
{
    if s.len() == 0 {
        (Seq::empty(), 0)
    } else {
        let (out, depth) = unbracketed(s.drop_last());
        let c = s.last();
        if is_open_bracket(c) {
            (out, depth + 1)
        } else if is_close_bracket(c) {
            (out, if depth > 0 {
                (depth - 1) as nat
            } else {
                0
            })
        } else if depth == 0 {
            (out.push(c), 0)
        } else {
            (out, depth)
        }
    }
}

/// `c` is one of the brackets.
pub open spec fn is_bracket(c: char) -> bool {
    is_open_bracket(c) || is_close_bracket(c)
}

/// `s` holds no bracket.
pub open spec fn bracket_free(s: Seq<char>) -> bool {
    forall|k: int| 0 <= k < s.len() ==> !is_bracket(#[trigger] s[k])
}

/// `a` is `b` with some characters left out (the rest in order).
pub open spec fn is_subsequence(a: Seq<char>, b: Seq<char>) -> bool
    decreases b.len(),
{
    if b.len() == 0 {
        a.len() == 0
    } else if a.len() > 0 && a.last() == b.last() {
        is_subsequence(a.drop_last(), b.drop_last()) || is_subsequence(a, b.drop_last())
    } else {
        is_subsequence(a, b.drop_last())
    }
}

proof fn lemma_unbracketed_laws(s: Seq<char>)
    ensures
        bracket_free(unbracketed(s).0),
        is_subsequence(unbracketed(s).0, s),
        bracket_free(s) ==> unbracketed(s) == (s, 0nat),
    decreases s.len(),
{
    if s.len() > 0 {
        let d = s.drop_last();
        lemma_unbracketed_laws(d);
        let (out, depth) = unbracketed(d);
        let c = s.last();
        if !is_open_bracket(c) && !is_close_bracket(c) && depth == 0 {
            assert(out.push(c).drop_last() =~= out);
            assert(bracket_free(out.push(c)));
        }
        if bracket_free(s) {
            assert(bracket_free(d)) by {
                assert forall|k: int| 0 <= k < d.len() implies !is_bracket(#[trigger] d[k]) by {
                    assert(d[k] == s[k]);
                }
            }
            assert(!is_bracket(s[s.len() - 1]));
            assert(d.push(c) =~= s);
        }
    }
}

fn strip_brackets_chars(v: &Vec<char>) -> (r: Vec<char>)
    ensures
        r@ == unbracketed(v@).0,
{
    let mut out: Vec<char> = Vec::new();
    let mut depth: usize = 0;
    for i in 0..v.len()
        invariant
            (out@, depth as nat) == unbracketed(v@.take(i as int)),
            depth <= i,
    {
        assert(v@.take(i + 1).drop_last() =~= v@.take(i as int));
        let c = v[i];
        if c == '[' || c == '(' || c == '（' || c == '【' {
            depth += 1;
        } else if c == ']' || c == ')' || c == '）' || c == '】' {
            if depth > 0 {
                depth -= 1;
            }
        } else if depth == 0 {
            out.push(c);
        }
    }
    assert(v@.take(v.len() as int) =~= v@);
    out
}

/// `s` with every bracketed part (`[...]`, `(...)`, `（...）`, `【...】`, nested
/// or not) removed, so that domain tags and clarifications do not pollute the
/// terms.
pub fn strip_brackets(s: &str) -> (r: String)
    ensures
        r@ == unbracketed(s@).0,
        // No bracket is left.
        bracket_free(r@),
        // What is left is `s` with characters left out, in order.
        is_subsequence(r@, s@),
        // A text without brackets is kept as it is.
        bracket_free(s@) ==> r@ == s@,
        // Stripping twice is stripping once.
        unbracketed(r@).0 == r@,
{
    let r = string_of(&strip_brackets_chars(&chars_of(s)));
    proof {
        lemma_unbracketed_laws(s@);
        lemma_unbracketed_laws(r@);
    }
    r
}

/// The characters that separate Chinese terms.
pub open spec fn cn_separators() -> Seq<char> {
    seq![',', '，', ';', '；', '、', '/', ' ', '\t']
}

/// A piece is kept as a term when, trimmed, it has 1 to
/// [`MAX_CN_TERM_CHARS`] characters, all CJK ideographs.
pub open spec fn term_ok(t: Seq<char>) -> bool {
    1 <= t.len() <= MAX_CN_TERM_CHARS && all_cjk(t)
}

/// The kept (trimmed) terms among `ps`, in order.
pub open spec fn ok_terms(ps: Seq<Seq<char>>) -> Seq<Seq<char>>
    decreases ps.len(),
{
    if ps.len() == 0 {
        Seq::empty()
    } else {
        let r = ok_terms(ps.drop_last());
        if term_ok(trim(ps.last())) {
            r.push(trim(ps.last()))
        } else {
            r
        }
    }
}

/// The candidate terms of one translation line: its body after the
/// part-of-speech token, without brackets, split at the separators.
pub open spec fn line_terms(line: Seq<char>) -> Seq<Seq<char>> {
    ok_terms(pieces(unbracketed(pos_split(trim(line)).1).0, cn_separators()))
}

proof fn lemma_pieces_at_sep(a: Seq<char>, c: char, b: Seq<char>, seps: Seq<char>)
    requires
        seps.contains(c),
    ensures
        pieces(a + seq![c] + b, seps) == pieces(a, seps) + pieces(b, seps),
    decreases b.len(),
{
    let s = a + seq![c] + b;
    if b.len() == 0 {
        assert(s.drop_last() =~= a);
        assert(s.last() == c);
        assert(pieces(b, seps) =~= seq![Seq::<char>::empty()]);
        assert(pieces(a, seps).push(Seq::<char>::empty()) =~= pieces(a, seps) + pieces(b, seps));
    } else {
        let b1 = b.drop_last();
        lemma_pieces_at_sep(a, c, b1, seps);
        assert(s.drop_last() =~= a + seq![c] + b1);
        assert(s.last() == b.last());
        lemma_pieces_nonempty(b1, seps);
        let (pa, pb) = (pieces(a, seps), pieces(b1, seps));
        if seps.contains(b.last()) {
            assert((pa + pb).push(Seq::<char>::empty()) =~= pa + pb.push(Seq::<char>::empty()));
        } else {
            assert((pa + pb).update((pa + pb).len() - 1, (pa + pb).last().push(b.last())) =~= pa
                + pb.update(pb.len() - 1, pb.last().push(b.last())));
        }
    }
}

proof fn lemma_pieces_no_sep(s: Seq<char>, seps: Seq<char>)
    requires
        forall|k: int| 0 <= k < s.len() ==> !seps.contains(#[trigger] s[k]),
    ensures
        pieces(s, seps) == seq![s],
    decreases s.len(),
{
    if s.len() == 0 {
        assert(seq![s] =~= seq![Seq::<char>::empty()]) by {
            assert(s =~= Seq::<char>::empty());
        }
    } else {
        let d = s.drop_last();
        assert forall|k: int| 0 <= k < d.len() implies !seps.contains(#[trigger] d[k]) by {
            assert(d[k] == s[k]);
        }
        lemma_pieces_no_sep(d, seps);
        assert(!seps.contains(s[s.len() - 1]));
        assert(d.push(s.last()) =~= s);
        assert(seq![d].update(0, d.push(s.last())) =~= seq![s]);
    }
}

proof fn lemma_pieces_front(c: char, s: Seq<char>, seps: Seq<char>)
    requires
        !seps.contains(c),
    ensures
        pieces(s, seps).len() > 0,
        pieces(seq![c] + s, seps) == pieces(s, seps).update(0, seq![c] + pieces(s, seps)[0]),
    decreases s.len(),
{
    lemma_pieces_nonempty(s, seps);
    let t = seq![c] + s;
    if s.len() == 0 {
        assert(s =~= Seq::<char>::empty());
        assert(t.drop_last() =~= Seq::<char>::empty());
        assert(t.last() == c);
        assert(pieces(s, seps) == seq![Seq::<char>::empty()]);
        assert(pieces(t, seps) == seq![Seq::<char>::empty()].update(0, Seq::<char>::empty().push(c)));
        assert(Seq::<char>::empty().push(c) =~= seq![c] + s);
    } else {
        let s1 = s.drop_last();
        lemma_pieces_front(c, s1, seps);
        assert(t.drop_last() =~= seq![c] + s1);
        assert(t.last() == s.last());
        let p = pieces(s1, seps);
        if seps.contains(s.last()) {
            assert(p.update(0, seq![c] + p[0]).push(Seq::<char>::empty()) =~= p.push(
                Seq::<char>::empty(),
            ).update(0, seq![c] + p.push(Seq::<char>::empty())[0]));
        } else {
            let q = p.update(p.len() - 1, p.last().push(s.last()));
            let pc = p.update(0, seq![c] + p[0]);
            assert(pc.update(pc.len() - 1, pc.last().push(s.last())) =~= q.update(0, seq![c] + q[0]));
        }
    }
}

proof fn lemma_ok_terms_concat(p: Seq<Seq<char>>, q: Seq<Seq<char>>)
    ensures
        ok_terms(p + q) == ok_terms(p) + ok_terms(q),
    decreases q.len(),
{
    if q.len() == 0 {
        assert(p + q =~= p);
        assert(ok_terms(p) + ok_terms(q) =~= ok_terms(p));
    } else {
        lemma_ok_terms_concat(p, q.drop_last());
        assert((p + q).drop_last() =~= p + q.drop_last());
        assert((p + q).last() == q.last());
        let (a, b) = (ok_terms(p), ok_terms(q.drop_last()));
        assert((a + b).push(trim(q.last())) =~= a + b.push(trim(q.last())));
    }
}

proof fn lemma_ok_terms_first(p: Seq<Seq<char>>, x: Seq<char>)
    requires
        p.len() > 0,
        trim(x) == trim(p[0]),
    ensures
        ok_terms(p.update(0, x)) == ok_terms(p),
    decreases p.len(),
{
    let u = p.update(0, x);
    if p.len() == 1 {
        assert(u.drop_last() =~= p.drop_last());
    } else {
        lemma_ok_terms_first(p.drop_last(), x);
        assert(u.drop_last() =~= p.drop_last().update(0, x));
    }
}

proof fn lemma_trim_ws_front(c: char, p: Seq<char>)
    requires
        is_white_space(c),
    ensures
        trim(seq![c] + p) == trim(p),
{
    assert((seq![c] + p).drop_first() =~= p);
}

proof fn lemma_trim_start_push(p: Seq<char>, c: char)
    requires
        is_white_space(c),
    ensures
        trim_start(p.push(c)) == if trim_start(p).len() == 0 {
            Seq::<char>::empty()
        } else {
            trim_start(p).push(c)
        },
    decreases p.len(),
{
    if p.len() == 0 {
        assert(p.push(c).drop_first() =~= Seq::<char>::empty());
        assert(p.push(c)[0] == c);
        assert(trim_start(p.push(c).drop_first()) == Seq::<char>::empty());
    } else if is_white_space(p[0]) {
        assert(p.push(c)[0] == p[0]);
        assert(p.push(c).drop_first() =~= p.drop_first().push(c));
        lemma_trim_start_push(p.drop_first(), c);
    } else {
        assert(p.push(c)[0] == p[0]);
    }
}

proof fn lemma_trim_ws_back(p: Seq<char>, c: char)
    requires
        is_white_space(c),
    ensures
        trim(p.push(c)) == trim(p),
{
    lemma_trim_start_push(p, c);
    let q = trim_start(p);
    if q.len() > 0 {
        assert(q.push(c).drop_last() =~= q);
    }
}

proof fn lemma_terms_ws_front(c: char, x: Seq<char>)
    requires
        is_white_space(c),
    ensures
        ok_terms(pieces(seq![c] + x, cn_separators())) == ok_terms(pieces(x, cn_separators())),
{
    let seps = cn_separators();
    if seps.contains(c) {
        lemma_pieces_at_sep(Seq::<char>::empty(), c, x, seps);
        assert(Seq::<char>::empty() + seq![c] + x =~= seq![c] + x);
        lemma_ok_terms_concat(pieces(Seq::<char>::empty(), seps), pieces(x, seps));
        let e = seq![Seq::<char>::empty()];
        assert(e.drop_last() =~= Seq::<Seq<char>>::empty());
        assert(trim(Seq::<char>::empty()) =~= Seq::<char>::empty());
        assert(e.last() == Seq::<char>::empty());
        assert(!term_ok(trim(e.last())));
        assert(ok_terms(e.drop_last()) == Seq::<Seq<char>>::empty());
        assert(ok_terms(e) =~= Seq::<Seq<char>>::empty());
        assert(ok_terms(pieces(x, seps)) =~= Seq::<Seq<char>>::empty() + ok_terms(pieces(x, seps)));
    } else {
        lemma_pieces_front(c, x, seps);
        lemma_trim_ws_front(c, pieces(x, seps)[0]);
        lemma_ok_terms_first(pieces(x, seps), seq![c] + pieces(x, seps)[0]);
    }
}

proof fn lemma_terms_ws_back(x: Seq<char>, c: char)
    requires
        is_white_space(c),
    ensures
        ok_terms(pieces(x.push(c), cn_separators())) == ok_terms(pieces(x, cn_separators())),
{
    let seps = cn_separators();
    let p = pieces(x, seps);
    lemma_pieces_nonempty(x, seps);
    assert(x.push(c).drop_last() =~= x);
    if seps.contains(c) {
        let q = p.push(Seq::<char>::empty());
        assert(q.drop_last() =~= p);
        assert(trim(Seq::<char>::empty()) =~= Seq::<char>::empty());
    } else {
        let q = p.update(p.len() - 1, p.last().push(c));
        lemma_trim_ws_back(p.last(), c);
        assert(q.drop_last() =~= p.drop_last());
    }
}

proof fn lemma_unbracketed_after_free(a: Seq<char>, b: Seq<char>)
    requires
        bracket_free(a),
    ensures
        unbracketed(a + b) == (a + unbracketed(b).0, unbracketed(b).1),
    decreases b.len(),
{
    if b.len() == 0 {
        lemma_unbracketed_laws(a);
        assert(a + b =~= a);
        assert(a + Seq::<char>::empty() =~= a);
    } else {
        lemma_unbracketed_after_free(a, b.drop_last());
        assert((a + b).drop_last() =~= a + b.drop_last());
        assert((a + b).last() == b.last());
        let o = unbracketed(b.drop_last()).0;
        assert((a + o).push(b.last()) =~= a + o.push(b.last()));
    }
}

proof fn lemma_terms_trim_start(s: Seq<char>)
    ensures
        ok_terms(pieces(unbracketed(trim_start(s)).0, cn_separators())) == ok_terms(
            pieces(unbracketed(s).0, cn_separators()),
        ),
    decreases s.len(),
{
    if s.len() > 0 && is_white_space(s[0]) {
        let r = s.drop_first();
        lemma_terms_trim_start(r);
        assert(s =~= seq![s[0]] + r);
        assert(bracket_free(seq![s[0]]));
        lemma_unbracketed_after_free(seq![s[0]], r);
        lemma_terms_ws_front(s[0], unbracketed(r).0);
    }
}

proof fn lemma_terms_trim_end(s: Seq<char>)
    ensures
        ok_terms(pieces(unbracketed(trim_end(s)).0, cn_separators())) == ok_terms(
            pieces(unbracketed(s).0, cn_separators()),
        ),
    decreases s.len(),
{
    if s.len() > 0 && is_white_space(s.last()) {
        let r = s.drop_last();
        lemma_terms_trim_end(r);
        if unbracketed(r).1 == 0 {
            lemma_terms_ws_back(unbracketed(r).0, s.last());
        }
    }
}

proof fn lemma_terms_trim(s: Seq<char>)
    ensures
        ok_terms(pieces(unbracketed(trim(s)).0, cn_separators())) == ok_terms(
            pieces(unbracketed(s).0, cn_separators()),
        ),
{
    lemma_terms_trim_end(trim_start(s));
    lemma_terms_trim_start(s);
}

/// The Chinese terms of a translation line are the clean pure-CJK pieces of
/// the line with its bracketed parts removed: no bracketed text reaches a
/// piece, a bracketed tag never hides the text around it (a line `（使）弯曲`
/// gives the term `弯曲`), and removing the brackets first changes nothing.
/// The part-of-speech token, never a Chinese term, plays no part.
pub proof fn law_line_terms_without_brackets(line: Seq<char>)
    ensures
        line_terms(line) == ok_terms(pieces(unbracketed(line).0, cn_separators())),
        line_terms(line) == line_terms(unbracketed(line).0),
        forall|k: int| 0 <= k < line_terms(line).len() ==> bracket_free(#[trigger] line_terms(line)[k]),
{
    lemma_line_terms_unbracketed(line);
    lemma_line_terms_unbracketed(unbracketed(line).0);
    lemma_unbracketed_laws(line);
    lemma_unbracketed_laws(unbracketed(line).0);
    assert forall|k: int| 0 <= k < line_terms(line).len() implies bracket_free(
        #[trigger] line_terms(line)[k],
    ) by {
        lemma_ok_terms_cjk(pieces(unbracketed(line).0, cn_separators()), k);
    }
}

proof fn lemma_ok_terms_cjk(ps: Seq<Seq<char>>, k: int)
    requires
        0 <= k < ok_terms(ps).len(),
    ensures
        all_cjk(ok_terms(ps)[k]),
        bracket_free(ok_terms(ps)[k]),
    decreases ps.len(),
{
    let r = ok_terms(ps.drop_last());
    if k < r.len() {
        lemma_ok_terms_cjk(ps.drop_last(), k);
    }
    let t = ok_terms(ps)[k];
    assert forall|i: int| 0 <= i < t.len() implies !is_bracket(#[trigger] t[i]) by {
        assert(is_cjk(t[i]));
    }
}

proof fn lemma_line_terms_unbracketed(line: Seq<char>)
    ensures
        line_terms(line) == ok_terms(pieces(unbracketed(line).0, cn_separators())),
{
    let seps = cn_separators();
    let t = trim(line);
    lemma_terms_trim(line);
    if exists|i: int| first_space_at(t, i) {
        let sp = choose|i: int| first_space_at(t, i);
        let head = t.take(sp);
        if pos_token(head) {
            let rest = t.skip(sp + 1);
            assert(t =~= head + seq![' '] + rest);
            let hs = head + seq![' '];
            assert(bracket_free(hs)) by {
                assert forall|k: int| 0 <= k < hs.len() implies !is_bracket(#[trigger] hs[k]) by {
                    if k < head.len() - 1 {
                        assert(is_ascii_alpha(head[k]));
                    }
                }
            }
            lemma_unbracketed_after_free(hs, rest);
            let u = unbracketed(rest).0;
            assert(head + seq![' '] + u =~= hs + u);
            assert(seps.contains(' ')) by {
                assert(seps[6] == ' ');
            }
            lemma_pieces_at_sep(head, ' ', u, seps);
            assert forall|k: int| 0 <= k < head.len() implies !seps.contains(#[trigger] head[k]) by {
                if seps.contains(head[k]) {
                    let j = choose|j: int| 0 <= j < seps.len() && seps[j] == head[k];
                    if k < head.len() - 1 {
                        assert(is_ascii_alpha(head[k]));
                    }
                }
            }
            lemma_pieces_no_sep(head, seps);
            lemma_ok_terms_concat(pieces(head, seps), pieces(u, seps));
            let hh = seq![head];
            assert(hh.drop_last() =~= Seq::<Seq<char>>::empty());
            assert(!is_white_space(head[0])) by {
                assert(is_ascii_alpha(head[0]));
            }
            assert(trim_start(head) == head);
            assert(trim(head) == head);
            assert(!all_cjk(head)) by {
                assert(head[head.len() - 1] == '.');
            }
            assert(hh.last() == head);
            assert(!term_ok(trim(hh.last())));
            assert(ok_terms(hh.drop_last()) == Seq::<Seq<char>>::empty());
            assert(ok_terms(hh) =~= Seq::<Seq<char>>::empty());
            assert(ok_terms(pieces(u, seps)) =~= Seq::<Seq<char>>::empty() + ok_terms(pieces(u, seps)));
            lemma_terms_trim(rest);
        }
    }
}

/// The candidate terms of `lines`, in order.
pub open spec fn all_line_terms(lines: Seq<Seq<char>>) -> Seq<Seq<char>>
    decreases lines.len(),
{
    if lines.len() == 0 {
        Seq::empty()
    } else {
        all_line_terms(lines.drop_last()) + line_terms(lines.last())
    }
}

/// `s` with repeats removed, keeping first occurrences.
pub open spec fn first_occurrences(s: Seq<Seq<char>>) -> Seq<Seq<char>>
    decreases s.len(),
{
    if s.len() == 0 {
        Seq::empty()
    } else {
        let r = first_occurrences(s.drop_last());
        if r.contains(s.last()) {
            r
        } else {
            r.push(s.last())
        }
    }
}

fn contains_text(v: &Vec<String>, t: &String) -> (r: bool)
    ensures
        r == v@.map_values(|s: String| s@).contains(t@),
{
    for i in 0..v.len()
        invariant
            forall|k: int| 0 <= k < i ==> v@[k]@ != t@,
    {
        if v[i] == *t {
            assert(v@.map_values(|s: String| s@)[i as int] == t@);
            return true;
        }
    }
    proof {
        if v@.map_values(|s: String| s@).contains(t@) {
            let vs = v@.map_values(|s: String| s@);
            let k = choose|k: int| 0 <= k < vs.len() && #[trigger] vs[k] == t@;
            assert(v@[k]@ == t@);
        }
    }
    false
}

/// The clean Chinese terms of a translation field, in order of first
/// appearance and without repeats: each line loses its part-of-speech token
/// and bracketed tags, is split at the separators, and its trimmed pure-CJK
/// pieces of 1 to [`MAX_CN_TERM_CHARS`] characters are kept.
pub fn extract_cn_terms(translation: &str) -> (r: Vec<String>)
    ensures
        r@.map_values(|s: String| s@) == first_occurrences(
            all_line_terms(pieces(translation@, seq!['\n'])),
        ),
{
    let v = chars_of(translation);
    let mut nl: Vec<char> = Vec::new();
    nl.push('\n');
    assert(nl@ =~= seq!['\n']);
    let lines = split_on(&v, &nl);
    let ghost ls = pieces(translation@, seq!['\n']);
    let mut seps: Vec<char> = Vec::new();
    seps.push(',');
    seps.push('，');
    seps.push(';');
    seps.push('；');
    seps.push('、');
    seps.push('/');
    seps.push(' ');
    seps.push('\t');
    assert(seps@ =~= cn_separators());
    let mut out: Vec<String> = Vec::new();
    for i in 0..lines.len()
        invariant
            chars_views(lines@) == ls,
            seps@ == cn_separators(),
            out@.map_values(|s: String| s@) == first_occurrences(all_line_terms(ls.take(i as int))),
    {
        let line = &lines[i];
        let tl = trim_chars(line);
        let (_, body) = pos_split_chars(&tl);
        let stripped = strip_brackets_chars(&body);
        let ps = split_on(&stripped, &seps);
        let ghost prefix = all_line_terms(ls.take(i as int));
        proof {
            assert(ls.take(i + 1).drop_last() =~= ls.take(i as int));
            assert(ls[i as int] == line@);
        }
        for j in 0..ps.len()
            invariant
                chars_views(ps@) == pieces(unbracketed(pos_split(trim(line@)).1).0, cn_separators()),
                out@.map_values(|s: String| s@) == first_occurrences(
                    prefix + ok_terms(chars_views(ps@).take(j as int)),
                ),
        {
            let ghost before = prefix + ok_terms(chars_views(ps@).take(j as int));
            proof {
                assert(chars_views(ps@).take(j + 1).drop_last() =~= chars_views(ps@).take(
                    j as int,
                ));
                assert(chars_views(ps@).take(j + 1).last() == ps@[j as int]@);
            }
            let term = trim_chars(&ps[j]);
            if term.len() <= MAX_CN_TERM_CHARS && all_cjk_chars(&term) {
                let t = string_of(&term);
                proof {
                    assert(prefix + ok_terms(chars_views(ps@).take(j + 1)) =~= before.push(t@));
                    assert(before.push(t@).drop_last() =~= before);
                }
                if !contains_text(&out, &t) {
                    let ghost old_out = out@;
                    out.push(t);
                    assert(out@.map_values(|s: String| s@) =~= old_out.map_values(|s: String| s@).push(
                        t@,
                    ));
                }
            } else {
                assert(prefix + ok_terms(chars_views(ps@).take(j + 1)) =~= before);
            }
        }
        proof {
            assert(chars_views(ps@).take(ps.len() as int) =~= chars_views(ps@));
        }
    }
    assert(ls.take(lines.len() as int) =~= ls);
    out
}

// ---------------------------------------------------------------------------
// Translation field
// ---------------------------------------------------------------------------
/// The trimmed non-blank lines among `ls`, in order.
pub open spec fn nonblank_lines(ls: Seq<Seq<char>>) -> Seq<Seq<char>>
    decreases ls.len(),
{
    if ls.len() == 0 {
        Seq::empty()
    } else {
        let r = nonblank_lines(ls.drop_last());
        if trim(ls.last()).len() > 0 {
            r.push(trim(ls.last()))
        } else {
            r
        }
    }
}

proof fn lemma_nonblank_prefix(ls: Seq<Seq<char>>, k: int)
    requires
        0 <= k <= ls.len(),
    ensures
        nonblank_lines(ls.take(k)).len() <= nonblank_lines(ls).len(),
        nonblank_lines(ls).take(nonblank_lines(ls.take(k)).len() as int) == nonblank_lines(
            ls.take(k),
        ),
    decreases ls.len() - k,
{
    if k == ls.len() {
        assert(ls.take(k) =~= ls);
        assert(nonblank_lines(ls).take(nonblank_lines(ls).len() as int) =~= nonblank_lines(ls));
    } else {
        lemma_nonblank_prefix(ls, k + 1);
        assert(ls.take(k + 1).drop_last() =~= ls.take(k));
        let a = nonblank_lines(ls.take(k));
        let b = nonblank_lines(ls.take(k + 1));
        let all = nonblank_lines(ls);
        assert(all.take(b.len() as int).take(a.len() as int) =~= all.take(a.len() as int));
        assert(b.take(a.len() as int) =~= a);
    }
}

/// The text a translation line contributes: its meaning after the
/// part-of-speech token, or the whole line when that is empty.
pub open spec fn gloss(line: Seq<char>) -> Seq<char> {
    if pos_split(line).1.len() == 0 {
        line
    } else {
        pos_split(line).1
    }
}

/// A definition as plain values: part of speech and meanings.
pub type DefinitionView = (Seq<char>, Seq<Seq<char>>);

pub open spec fn definition_view(d: Definition) -> DefinitionView {
    (d.pos@, d.meanings@.map_values(|m: String| m@))
}

/// The definition a translation line gives.
pub open spec fn line_definition(line: Seq<char>) -> DefinitionView {
    (pos_split(line).0, seq![gloss(line)])
}

/// The lines of a translation field that become definitions: the first
/// [`MAX_DEFINITIONS`] non-blank lines, trimmed.
pub open spec fn definition_lines(translation: Seq<char>) -> Seq<Seq<char>> {
    let l = nonblank_lines(pieces(translation, seq!['\n']));
    if l.len() <= MAX_DEFINITIONS {
        l
    } else {
        l.take(MAX_DEFINITIONS as int)
    }
}

/// The definitions a translation field gives, if any.
pub open spec fn translation_definitions(translation: Seq<char>) -> Option<Seq<DefinitionView>> {
    let l = definition_lines(translation);
    if l.len() == 0 {
        None
    } else {
        Some(l.map_values(|line: Seq<char>| line_definition(line)))
    }
}

/// The concise gloss of a translation field: that of its first definition.
pub open spec fn translation_major(translation: Seq<char>) -> Option<Seq<char>> {
    let l = definition_lines(translation);
    if l.len() == 0 {
        None
    } else {
        Some(gloss(l[0]))
    }
}

pub open spec fn definitions_view(o: Option<Vec<Definition>>) -> Option<Seq<DefinitionView>> {
    match o {
        Some(v) => Some(v@.map_values(|d: Definition| definition_view(d))),
        None => None,
    }
}

/// Parses a multi-line translation field into a concise gloss (the first
/// line's meaning) and one definition per non-blank line, at most
/// [`MAX_DEFINITIONS`].
pub fn parse_translation(translation: &str) -> (r: (Option<String>, Option<Vec<Definition>>))
    ensures
        opt_string_view(r.0) == translation_major(translation@),
        definitions_view(r.1) == translation_definitions(translation@),
{
    let v = chars_of(translation);
    let mut nl: Vec<char> = Vec::new();
    nl.push('\n');
    assert(nl@ =~= seq!['\n']);
    let lines = split_on(&v, &nl);
    let ghost ls = pieces(translation@, seq!['\n']);
    let mut defs: Vec<Definition> = Vec::new();
    let mut major: Option<String> = None;
    let mut k: usize = 0;
    while k < lines.len() && defs.len() < MAX_DEFINITIONS
        invariant
            chars_views(lines@) == ls,
            ls == pieces(translation@, seq!['\n']),
            k <= lines.len(),
            defs.len() <= MAX_DEFINITIONS,
            defs@.map_values(|d: Definition| definition_view(d)) == nonblank_lines(
                ls.take(k as int),
            ).map_values(|line: Seq<char>| line_definition(line)),
            opt_string_view(major) == (if nonblank_lines(ls.take(k as int)).len()
                == 0 {
                None
            } else {
                Some(gloss(nonblank_lines(ls.take(k as int))[0]))
            }),
        decreases lines.len() - k,
    {
        let line = trim_chars(&lines[k]);
        proof {
            assert(ls.take(k + 1).drop_last() =~= ls.take(k as int));
            assert(ls.take(k + 1).last() == lines@[k as int]@);
        }
        if line.len() > 0 {
            let (pos, meaning) = pos_split_chars(&line);
            let text = if meaning.len() == 0 {
                string_of(&line)
            } else {
                string_of(&meaning)
            };
            if major.is_none() {
                major = Some(string_of(&text_chars(&text)));
            }
            let ghost tv = text@;
            let mut meanings: Vec<String> = Vec::new();
            meanings.push(text);
            assert(meanings@.map_values(|m: String| m@) =~= seq![tv]);
            assert(tv == gloss(line@));
            let ghost before = defs@;
            let d = Definition { pos: string_of(&pos), meanings };
            assert(definition_view(d) == line_definition(line@));
            defs.push(d);
            proof {
                let nb = nonblank_lines(ls.take(k as int));
                assert(nonblank_lines(ls.take(k + 1)) == nb.push(line@));
                assert(defs@.map_values(|d: Definition| definition_view(d)) =~= before.map_values(
                    |d: Definition| definition_view(d),
                ).push(line_definition(line@)));
                assert(nb.push(line@).map_values(|l: Seq<char>| line_definition(l)) =~= nb.map_values(
                    |l: Seq<char>| line_definition(l),
                ).push(line_definition(line@)));
                if nb.len() > 0 {
                    assert(nb.push(line@)[0] == nb[0]);
                }
            }
        } else {
            assert(nonblank_lines(ls.take(k + 1)) == nonblank_lines(ls.take(k as int)));
        }
        k += 1;
    }
    proof {
        lemma_nonblank_prefix(ls, k as int);
        let nb = nonblank_lines(ls.take(k as int));
        let all = nonblank_lines(ls);
        if k == lines.len() {
            assert(ls.take(k as int) =~= ls);
        } else {
            assert(nb.len() == MAX_DEFINITIONS);
        }
        assert(definition_lines(translation@) == nb);
    }
    let definitions = if defs.len() == 0 {
        None
    } else {
        Some(defs)
    };
    (major, definitions)
}

fn text_chars(s: &String) -> (r: Vec<char>)
    ensures
        r@ == s@,
{
    chars_of(s.as_str())
}

// ---------------------------------------------------------------------------
// Inflections
// ---------------------------------------------------------------------------
/// `i` is the index of the first `c` in `s`.
pub open spec fn first_at(s: Seq<char>, c: char, i: int) -> bool {
    0 <= i < s.len() && s[i] == c && forall|k: int| 0 <= k < i ==> s[k] != c
}

/// The kind of an exchange item: its text before the first `:`, trimmed.
pub open spec fn item_kind(item: Seq<char>) -> Seq<char> {
    if exists|i: int| first_at(item, ':', i) {
        trim(item.take(choose|i: int| first_at(item, ':', i)))
    } else {
        trim(item)
    }
}

/// The value of an exchange item: its text after the first `:`, trimmed;
/// empty without a `:`.
pub open spec fn item_value(item: Seq<char>) -> Seq<char> {
    if exists|i: int| first_at(item, ':', i) {
        trim(item.skip((choose|i: int| first_at(item, ':', i)) + 1))
    } else {
        Seq::empty()
    }
}

/// The inflection slots as plain values: plural, past tense, past
/// participle, present participle, third-person singular.
pub type InflectionsView = (
    Option<Seq<char>>,
    Option<Seq<char>>,
    Option<Seq<char>>,
    Option<Seq<char>>,
    Option<Seq<char>>,
);

pub open spec fn inflections_view(i: Inflections) -> InflectionsView {
    (
        opt_string_view(i.plural),
        opt_string_view(i.past_tense),
        opt_string_view(i.past_participle),
        opt_string_view(i.present_participle),
        opt_string_view(i.third_singular),
    )
}

/// The slots filled by the exchange items `items` (a later item overrides
/// an earlier one of the same kind), and whether any was filled. Kinds:
/// `p` past tense, `d` past participle, `i` present participle, `3` third
/// singular, `s` plural; other kinds and empty values are ignored.
pub open spec fn read_inflections(items: Seq<Seq<char>>) -> (InflectionsView, bool)
    decreases items.len(),
{
    if items.len() == 0 {
        ((None, None, None, None, None), false)
    } else {
        let (acc, any) = read_inflections(items.drop_last());
        let it = items.last();
        let v = item_value(it);
        let k = item_kind(it);
        if v.len() == 0 {
            (acc, any)
        } else if k == seq!['p'] {
            ((acc.0, Some(v), acc.2, acc.3, acc.4), true)
        } else if k == seq!['d'] {
            ((acc.0, acc.1, Some(v), acc.3, acc.4), true)
        } else if k == seq!['i'] {
            ((acc.0, acc.1, acc.2, Some(v), acc.4), true)
        } else if k == seq!['3'] {
            ((acc.0, acc.1, acc.2, acc.3, Some(v)), true)
        } else if k == seq!['s'] {
            ((Some(v), acc.1, acc.2, acc.3, acc.4), true)
        } else {
            (acc, any)
        }
    }
}

/// The item `it` gives a value of kind `kind`: its kind is `kind` and its
/// value is not empty.
pub open spec fn fills(it: Seq<char>, kind: Seq<char>) -> bool {
    item_kind(it) == kind && item_value(it).len() > 0
}

/// The value of the last of `items` that gives a value of kind `kind`;
/// `None` when none does.
pub open spec fn last_value_of(items: Seq<Seq<char>>, kind: Seq<char>) -> Option<Seq<char>>
    decreases items.len(),
{
    if items.len() == 0 {
        None
    } else if fills(items.last(), kind) {
        Some(item_value(items.last()))
    } else {
        last_value_of(items.drop_last(), kind)
    }
}

/// One of `items` gives a value of a known kind.
pub open spec fn fills_some_slot(items: Seq<Seq<char>>) -> bool {
    exists|j: int|
        0 <= j < items.len() && (fills(#[trigger] items[j], seq!['s']) || fills(items[j], seq!['p'])
            || fills(items[j], seq!['d']) || fills(items[j], seq!['i']) || fills(
            items[j],
            seq!['3'],
        ))
}

/// Each inflection slot holds the value of the last item of its own kind
/// (`s` plural, `p` past tense, `d` past participle, `i` present
/// participle, `3` third singular), and only of that kind: an item of one
/// kind never fills another slot. Some slot is filled exactly when some item
/// gives a value of a known kind.
pub proof fn law_inflection_slots(items: Seq<Seq<char>>)
    ensures
        read_inflections(items).0.0 == last_value_of(items, seq!['s']),
        read_inflections(items).0.1 == last_value_of(items, seq!['p']),
        read_inflections(items).0.2 == last_value_of(items, seq!['d']),
        read_inflections(items).0.3 == last_value_of(items, seq!['i']),
        read_inflections(items).0.4 == last_value_of(items, seq!['3']),
        read_inflections(items).1 == fills_some_slot(items),
    decreases items.len(),
{
    if items.len() > 0 {
        let prev = items.drop_last();
        law_inflection_slots(prev);
        let it = items.last();
        assert(items[items.len() - 1] == it);
        assert forall|j: int| 0 <= j < prev.len() implies #[trigger] prev[j] == items[j] by {}
        if fills_some_slot(prev) {
            let j = choose|j: int|
                0 <= j < prev.len() && (fills(#[trigger] prev[j], seq!['s']) || fills(
                    prev[j],
                    seq!['p'],
                ) || fills(prev[j], seq!['d']) || fills(prev[j], seq!['i']) || fills(
                    prev[j],
                    seq!['3'],
                ));
            assert(items[j] == prev[j]);
        }
        if fills_some_slot(items) {
            let j = choose|j: int|
                0 <= j < items.len() && (fills(#[trigger] items[j], seq!['s']) || fills(
                    items[j],
                    seq!['p'],
                ) || fills(items[j], seq!['d']) || fills(items[j], seq!['i']) || fills(
                    items[j],
                    seq!['3'],
                ));
            if j < prev.len() {
                assert(prev[j] == items[j]);
            }
        }
        assert(seq!['s'] != seq!['p']) by { assert(seq!['s'][0] != seq!['p'][0]); }
        assert(seq!['s'] != seq!['d']) by { assert(seq!['s'][0] != seq!['d'][0]); }
        assert(seq!['s'] != seq!['i']) by { assert(seq!['s'][0] != seq!['i'][0]); }
        assert(seq!['s'] != seq!['3']) by { assert(seq!['s'][0] != seq!['3'][0]); }
        assert(seq!['p'] != seq!['d']) by { assert(seq!['p'][0] != seq!['d'][0]); }
        assert(seq!['p'] != seq!['i']) by { assert(seq!['p'][0] != seq!['i'][0]); }
        assert(seq!['p'] != seq!['3']) by { assert(seq!['p'][0] != seq!['3'][0]); }
        assert(seq!['d'] != seq!['i']) by { assert(seq!['d'][0] != seq!['i'][0]); }
        assert(seq!['d'] != seq!['3']) by { assert(seq!['d'][0] != seq!['3'][0]); }
        assert(seq!['i'] != seq!['3']) by { assert(seq!['i'][0] != seq!['3'][0]); }
    }
}

/// The inflections an exchange field gives, if any.
pub open spec fn exchange_inflections(exchange: Seq<char>) -> Option<InflectionsView> {
    let (acc, any) = read_inflections(pieces(exchange, seq!['/']));
    if any {
        Some(acc)
    } else {
        None
    }
}

fn split_item(item: &Vec<char>) -> (r: (Vec<char>, Vec<char>))
    ensures
        r.0@ == item_kind(item@),
        r.1@ == item_value(item@),
{
    let mut c: usize = 0;
    while c < item.len() && item[c] != ':'
        invariant
            c <= item.len(),
            forall|k: int| 0 <= k < c ==> item@[k] != ':',
        decreases item.len() - c,
    {
        c += 1;
    }
    if c == item.len() {
        assert(!exists|i: int| first_at(item@, ':', i));
        return (trim_chars(item), Vec::new());
    }
    proof {
        assert(first_at(item@, ':', c as int));
        let w = choose|i: int| first_at(item@, ':', i);
        assert(w == c);
    }
    let kind = slice_chars(item, 0, c);
    let value = slice_chars(item, c + 1, item.len());
    assert(kind@ =~= item@.take(c as int));
    assert(value@ =~= item@.skip(c + 1));
    (trim_chars(&kind), trim_chars(&value))
}

fn is_kind(k: &Vec<char>, c: char) -> (r: bool)
    ensures
        r == (k@ == seq![c]),
{
    if k.len() == 1 && k[0] == c {
        assert(k@ =~= seq![c]);
        true
    } else {
        false
    }
}

/// Reads an exchange field (`p:.../d:.../i:.../3:.../s:...`) into the
/// inflections it names; `None` when it names none.
pub fn parse_inflections(exchange: &str) -> (r: Option<Inflections>)
    ensures
        match r {
            Some(inf) => exchange_inflections(exchange@) == Some(inflections_view(inf)),
            None => exchange_inflections(exchange@) is None,
        },
        // Each slot holds the value of the last `/`-separated item of its own
        // kind; the field gives inflections exactly when some item fills a
        // slot.
        r is Some <==> fills_some_slot(pieces(exchange@, seq!['/'])),
        r matches Some(inf) ==> {
            let items = pieces(exchange@, seq!['/']);
            &&& opt_string_view(inf.plural) == last_value_of(items, seq!['s'])
            &&& opt_string_view(inf.past_tense) == last_value_of(items, seq!['p'])
            &&& opt_string_view(inf.past_participle) == last_value_of(items, seq!['d'])
            &&& opt_string_view(inf.present_participle) == last_value_of(items, seq!['i'])
            &&& opt_string_view(inf.third_singular) == last_value_of(items, seq!['3'])
        },
{
    let v = chars_of(exchange);
    let mut slash: Vec<char> = Vec::new();
    slash.push('/');
    assert(slash@ =~= seq!['/']);
    let items = split_on(&v, &slash);
    let ghost its = pieces(exchange@, seq!['/']);
    let mut inf = Inflections {
        plural: None,
        past_tense: None,
        past_participle: None,
        present_participle: None,
        third_singular: None,
    };
    let mut any = false;
    for i in 0..items.len()
        invariant
            chars_views(items@) == its,
            its == pieces(exchange@, seq!['/']),
            (inflections_view(inf), any) == read_inflections(its.take(i as int)),
    {
        proof {
            assert(its.take(i + 1).drop_last() =~= its.take(i as int));
            assert(its.take(i + 1).last() == items@[i as int]@);
        }
        let (kind, value) = split_item(&items[i]);
        if value.len() > 0 {
            if is_kind(&kind, 'p') {
                inf.past_tense = Some(string_of(&value));
                any = true;
            } else if is_kind(&kind, 'd') {
                inf.past_participle = Some(string_of(&value));
                any = true;
            } else if is_kind(&kind, 'i') {
                inf.present_participle = Some(string_of(&value));
                any = true;
            } else if is_kind(&kind, '3') {
                inf.third_singular = Some(string_of(&value));
                any = true;
            } else if is_kind(&kind, 's') {
                inf.plural = Some(string_of(&value));
                any = true;
            }
        }
    }
    assert(its.take(items.len() as int) =~= its);
    proof {
        law_inflection_slots(its);
    }
    if any {
        Some(inf)
    } else {
        None
    }
}

// ---------------------------------------------------------------------------
// Word record
// ---------------------------------------------------------------------------
/// `r` is the English word record of a source row: the key as the word, the
/// trimmed phonetic spelling as its pronunciation (none when blank), the
/// definitions of the translation field and the inflections of the exchange
/// field; no examples.
pub open spec fn built_word_en(
    r: WordEn,
    key: Seq<char>,
    phonetic: Seq<char>,
    translation: Seq<char>,
    exchange: Seq<char>,
) -> bool {
    &&& r.word@ == key
    &&& trim(phonetic).len() == 0 ==> r.pronunciation is None
    &&& trim(phonetic).len() > 0 ==> (r.pronunciation matches Some(p) && p.ipa@ == trim(phonetic)
        && p.audio is None && p.audio_url is None)
    &&& definitions_view(r.definitions) == translation_definitions(translation)
    &&& match r.inflections {
        Some(inf) => exchange_inflections(exchange) == Some(inflections_view(inf)),
        None => exchange_inflections(exchange) is None,
    }
    &&& r.examples is None
}

/// Maps a source row into an English word record (see [`built_word_en`]).
pub fn build_word_en(key: &str, phonetic: &str, translation: &str, exchange: &str) -> (r: WordEn)
    ensures
        built_word_en(r, key@, phonetic@, translation@, exchange@),
{
    let (_major, definitions) = parse_translation(translation);
    let ipa = trim_chars(&chars_of(phonetic));
    let pronunciation = if ipa.len() == 0 {
        None
    } else {
        Some(Pronunciation { ipa: string_of(&ipa), audio: None, audio_url: None })
    };
    WordEn {
        word: string_of(&chars_of(key)),
        pronunciation,
        definitions,
        inflections: parse_inflections(exchange),
        examples: None,
    }
}

} // verus!
