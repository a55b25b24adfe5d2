//! Picking the newest dataset file: dataset files are named after a base
//! name, `_v` and a version number (`word_en_v2.sqlite` for a database,
//! `word_en_v2` for a word list); the file with the highest version wins.
use vstd::prelude::*;
use crate::text::{chars_of, concat};

verus! {

/// `c` is an ASCII decimal digit.
pub open spec fn is_digit(c: char) -> bool {
    '0' <= c && c <= '9'
}

/// The value of a string of decimal digits.
pub open spec fn digits_value(s: Seq<char>) -> int
    decreases s.len(),
{
    if s.len() == 0 {
        0
    } else {
        digits_value(s.drop_last()) * 10 + (s.last() as int - '0' as int)
    }
}

/// `s` without one leading `+`.
pub open spec fn unsigned_part(s: Seq<char>) -> Seq<char> {
    if s.len() > 0 && s[0] == '+' {
        s.drop_first()
    } else {
        s
    }
}

/// The `usize` that `str::parse::<usize>` reads from `s`: an optional `+`,
/// then one or more decimal digits, whose value fits in a `usize`.
pub open spec fn parsed_usize(s: Seq<char>) -> Option<int> {
    let d = unsigned_part(s);
    if d.len() > 0 && (forall|k: int| 0 <= k < d.len() ==> is_digit(#[trigger] d[k]))
        && 0 <= digits_value(d) <= usize::MAX {
        Some(digits_value(d))
    } else {
        None
    }
}

proof fn lemma_digits_value_nonneg(s: Seq<char>)
    requires
        forall|k: int| 0 <= k < s.len() ==> is_digit(#[trigger] s[k]),
    ensures
        digits_value(s) >= 0,
    decreases s.len(),
{
    if s.len() > 0 {
        lemma_digits_value_nonneg(s.drop_last());
    }
}

/// A longer string of digits is worth at least as much as its prefix.
proof fn lemma_digits_value_prefix(s: Seq<char>, i: int)
    requires
        0 <= i <= s.len(),
        forall|k: int| 0 <= k < s.len() ==> is_digit(#[trigger] s[k]),
    ensures
        digits_value(s.take(i)) <= digits_value(s),
    decreases s.len() - i,
{
    if i < s.len() {
        lemma_digits_value_prefix(s, i + 1);
        assert(s.take(i + 1).drop_last() =~= s.take(i));
        lemma_digits_value_nonneg(s.take(i));
    } else {
        assert(s.take(i) =~= s);
    }
}

/// `str::parse::<usize>`, as [`parsed_usize`] states it.
pub fn parse_usize(s: &str) -> (r: Option<usize>)
    ensures
        match r {
            Some(v) => parsed_usize(s@) == Some(v as int),
            None => parsed_usize(s@) is None,
        },
{
    let v = chars_of(s);
    let start: usize = if v.len() > 0 && v[0] == '+' {
        1
    } else {
        0
    };
    let ghost d = unsigned_part(s@);
    assert(d =~= v@.skip(start as int));
    if start >= v.len() {
        return None;
    }
    let mut value: usize = 0;
    let mut i: usize = start;
    while i < v.len()
        invariant
            start <= i <= v.len(),
            d == v@.skip(start as int),
            d == unsigned_part(s@),
            d.len() > 0,
            forall|k: int| 0 <= k < i - start ==> is_digit(#[trigger] d[k]),
            value == digits_value(d.take(i - start)),
        decreases v.len() - i,
    {
        let c = v[i];
        if !('0' <= c && c <= '9') {
            assert(!is_digit(d[i - start]));
            assert(parsed_usize(s@) is None);
            return None;
        }
        let digit = (c as u32 - '0' as u32) as usize;
        proof {
            assert(d.take(i - start + 1).drop_last() =~= d.take(i - start));
            assert(d.take(i - start + 1).last() == c);
        }
        if value > (usize::MAX - digit) / 10 {
            proof {
                assert(value * 10 + digit > usize::MAX) by (nonlinear_arith)
                    requires
                        value > (usize::MAX - digit) / 10,
                        digit <= 9,
                ;
                assert(digits_value(d.take(i - start + 1)) == value * 10 + digit);
                if forall|k: int| 0 <= k < d.len() ==> is_digit(#[trigger] d[k]) {
                    lemma_digits_value_prefix(d, i - start + 1);
                }
                assert(parsed_usize(s@) is None);
            }
            return None;
        }
        assert(value * 10 + digit <= usize::MAX) by (nonlinear_arith)
            requires
                value <= (usize::MAX - digit) / 10,
                digit <= 9,
        ;
        value = value * 10 + digit;
        i += 1;
    }
    assert(d.take(i - start) =~= d);
    proof {
        lemma_digits_value_nonneg(d);
    }
    Some(value)
}

/// The version of a dataset file name: for a database (`sqlite`), the
/// number between `prefix` and `.sqlite`; for a word list, what follows
/// `prefix` in a name that does not end in `.sqlite`.
pub open spec fn file_version(name: Seq<char>, prefix: Seq<char>, sqlite: bool) -> Option<int> {
    let ext = ".sqlite"@;
    let has_ext = name.len() >= ext.len() && name.skip(name.len() - ext.len()) == ext;
    if name.len() < prefix.len() || name.take(prefix.len() as int) != prefix {
        None
    } else if sqlite {
        if has_ext && name.len() >= prefix.len() + ext.len() {
            parsed_usize(name.subrange(prefix.len() as int, name.len() - ext.len()))
        } else {
            None
        }
    } else if has_ext {
        None
    } else {
        parsed_usize(name.skip(prefix.len() as int))
    }
}

/// Whether `v` starts with `p`.
fn starts_with_chars(v: &Vec<char>, p: &Vec<char>) -> (r: bool)
    ensures
        r == (v.len() >= p.len() && v@.take(p.len() as int) == p@),
{
    if v.len() < p.len() {
        return false;
    }
    for i in 0..p.len()
        invariant
            v.len() >= p.len(),
            forall|k: int| 0 <= k < i ==> v@[k] == p@[k],
    {
        if v[i] != p[i] {
            assert(v@.take(p.len() as int)[i as int] != p@[i as int]);
            return false;
        }
    }
    assert(v@.take(p.len() as int) =~= p@);
    true
}

/// Whether `v` ends with `p`.
fn ends_with_chars(v: &Vec<char>, p: &Vec<char>) -> (r: bool)
    ensures
        r == (v.len() >= p.len() && v@.skip(v.len() - p.len()) == p@),
{
    if v.len() < p.len() {
        return false;
    }
    let off = v.len() - p.len();
    for i in 0..p.len()
        invariant
            v.len() >= p.len(),
            off == v.len() - p.len(),
            forall|k: int| 0 <= k < i ==> v@[off + k] == p@[k],
    {
        if v[off + i] != p[i] {
            assert(v@.skip(off as int)[i as int] != p@[i as int]);
            return false;
        }
    }
    assert(v@.skip(off as int) =~= p@);
    true
}

/// The version of a dataset file name (see [`file_version`]).
pub fn version_of(name: &str, prefix: &str, sqlite: bool) -> (r: Option<usize>)
    ensures
        match r {
            Some(v) => file_version(name@, prefix@, sqlite) == Some(v as int),
            None => file_version(name@, prefix@, sqlite) is None,
        },
{
    let n = chars_of(name);
    let p = chars_of(prefix);
    let ext = chars_of(".sqlite");
    proof {
        reveal_strlit(".sqlite");
    }
    if !starts_with_chars(&n, &p) {
        return None;
    }
    let has_ext = ends_with_chars(&n, &ext);
    let start = p.len();
    if sqlite {
        if has_ext && n.len() - ext.len() >= p.len() {
            let end = n.len() - ext.len();
            let mut part = String::new();
            for i in start..end
                invariant
                    start <= end <= n.len(),
                    part@ == n@.subrange(start as int, i as int),
            {
                crate::text::push_char(&mut part, n[i]);
                assert(n@.subrange(start as int, i + 1) =~= n@.subrange(start as int, i as int).push(
                    n@[i as int],
                ));
            }
            parse_usize(part.as_str())
        } else {
            None
        }
    } else if has_ext {
        None
    } else {
        let mut part = String::new();
        for i in start..n.len()
            invariant
                start <= n.len(),
                part@ == n@.subrange(start as int, i as int),
        {
            crate::text::push_char(&mut part, n[i]);
            assert(n@.subrange(start as int, i + 1) =~= n@.subrange(start as int, i as int).push(
                n@[i as int],
            ));
        }
        assert(n@.subrange(start as int, n.len() as int) =~= n@.skip(start as int));
        parse_usize(part.as_str())
    }
}

/// The positive version of each name (0 when it has none).
pub open spec fn version_or_zero(name: Seq<char>, prefix: Seq<char>, sqlite: bool) -> int {
    match file_version(name, prefix, sqlite) {
        Some(v) => v,
        None => 0,
    }
}

/// Which of `names` is the newest dataset file: the first name with the
/// highest positive version; `None` when no name has one. `base` is the
/// dataset's base name (such as `word_en`), `sqlite` tells whether the
/// database or the word list is looked for.
pub fn highest_version(names: &Vec<String>, base: &str, sqlite: bool) -> (r: Option<usize>)
    ensures
        ({
            let prefix = base@ + "_v"@;
            match r {
                Some(i) => i < names.len() && version_or_zero(names@[i as int]@, prefix, sqlite) > 0
                    && (forall|j: int| 0 <= j < names.len() ==> version_or_zero(
                        #[trigger] names@[j]@,
                        prefix,
                        sqlite,
                    ) <= version_or_zero(names@[i as int]@, prefix, sqlite)) && (forall|j: int|
                    0 <= j < i ==> version_or_zero(#[trigger] names@[j]@, prefix, sqlite)
                        < version_or_zero(names@[i as int]@, prefix, sqlite)),
                None => forall|j: int| 0 <= j < names.len() ==> version_or_zero(
                    #[trigger] names@[j]@,
                    prefix,
                    sqlite,
                ) == 0,
            }
        }),
{
    let prefix = concat(base, "_v");
    let ghost pv = prefix@;
    let mut best: usize = 0;
    let mut found: Option<usize> = None;
    for i in 0..names.len()
        invariant
            pv == prefix@,
            found is None ==> best == 0,
            forall|j: int| 0 <= j < i ==> version_or_zero(#[trigger] names@[j]@, pv, sqlite) <= best,
            match found {
                Some(f) => f < i && best == version_or_zero(names@[f as int]@, pv, sqlite) && best > 0
                    && forall|j: int| 0 <= j < f ==> version_or_zero(#[trigger] names@[j]@, pv, sqlite) < best,
                None => true,
            },
    {
        match version_of(names[i].as_str(), prefix.as_str(), sqlite) {
            Some(v) => {
                if v > best {
                    best = v;
                    found = Some(i);
                }
            },
            None => {},
        }
    }
    found
}

} // verus!
