//! Levenshtein edit distance: its mathematical definition, the laws it obeys,
//! and the rolling-row dynamic programs that compute it.
use vstd::prelude::*;
use crate::text::{ascii_lower_seq, to_ascii_lower};

verus! {

pub open spec fn min3(a: nat, b: nat, c: nat) -> nat {
    if a <= b && a <= c {
        a
    } else if b <= c {
        b
    } else {
        c
    }
}

/// The Levenshtein distance between `a` and `b`: the least number of
/// single-element insertions, deletions and substitutions that turn `a`
/// into `b`.
pub open spec fn edit_distance<A>(a: Seq<A>, b: Seq<A>) -> nat
    decreases a.len() + b.len(),
{
    if a.len() == 0 {
        b.len()
    } else if b.len() == 0 {
        a.len()
    } else {
        min3(
            edit_distance(a.drop_last(), b) + 1,
            edit_distance(a, b.drop_last()) + 1,
            edit_distance(a.drop_last(), b.drop_last()) + if a.last() == b.last() {
                0nat
            } else {
                1nat
            },
        )
    }
}

/// The distance is symmetric.
pub proof fn lemma_edit_distance_symmetric<A>(a: Seq<A>, b: Seq<A>)
    ensures
        edit_distance(a, b) == edit_distance(b, a),
    decreases a.len() + b.len(),
{
    if a.len() > 0 && b.len() > 0 {
        lemma_edit_distance_symmetric(a.drop_last(), b);
        lemma_edit_distance_symmetric(a, b.drop_last());
        lemma_edit_distance_symmetric(a.drop_last(), b.drop_last());
    }
}

/// The distance is at most the length of the longer sequence.
pub proof fn lemma_edit_distance_upper_bound<A>(a: Seq<A>, b: Seq<A>)
    ensures
        edit_distance(a, b) <= if a.len() >= b.len() {
            a.len()
        } else {
            b.len()
        },
    decreases a.len() + b.len(),
{
    if a.len() > 0 && b.len() > 0 {
        lemma_edit_distance_upper_bound(a.drop_last(), b);
        lemma_edit_distance_upper_bound(a, b.drop_last());
        lemma_edit_distance_upper_bound(a.drop_last(), b.drop_last());
    }
}

/// The distance is at least the difference of the lengths.
pub proof fn lemma_edit_distance_lower_bound<A>(a: Seq<A>, b: Seq<A>)
    ensures
        edit_distance(a, b) >= a.len() - b.len(),
        edit_distance(a, b) >= b.len() - a.len(),
    decreases a.len() + b.len(),
{
    if a.len() > 0 && b.len() > 0 {
        lemma_edit_distance_lower_bound(a.drop_last(), b);
        lemma_edit_distance_lower_bound(a, b.drop_last());
        lemma_edit_distance_lower_bound(a.drop_last(), b.drop_last());
    }
}

/// A sequence is at distance zero from itself.
pub proof fn lemma_edit_distance_self<A>(a: Seq<A>)
    ensures
        edit_distance(a, a) == 0,
    decreases a.len(),
{
    if a.len() > 0 {
        lemma_edit_distance_self(a.drop_last());
    }
}

/// Distance zero means equality.
pub proof fn lemma_edit_distance_zero<A>(a: Seq<A>, b: Seq<A>)
    requires
        edit_distance(a, b) == 0,
    ensures
        a == b,
    decreases a.len() + b.len(),
{
    if a.len() > 0 && b.len() > 0 {
        lemma_edit_distance_lower_bound(a.drop_last(), b);
        lemma_edit_distance_lower_bound(a, b.drop_last());
        lemma_edit_distance_zero(a.drop_last(), b.drop_last());
        assert(a =~= a.drop_last().push(a.last()));
        assert(b =~= b.drop_last().push(b.last()));
    } else {
        assert(a =~= b);
    }
}

/// One step of the table: the distance between `a[..i+1]` and `b[..k+1]`
/// in terms of its three neighbours.
proof fn lemma_edit_distance_step<A>(a: Seq<A>, b: Seq<A>, i: int, k: int)
    requires
        0 <= i < a.len(),
        0 <= k < b.len(),
    ensures
        edit_distance(a.take(i + 1), b.take(k + 1)) == min3(
            edit_distance(a.take(i), b.take(k + 1)) + 1,
            edit_distance(a.take(i + 1), b.take(k)) + 1,
            edit_distance(a.take(i), b.take(k)) + if a[i] == b[k] {
                0nat
            } else {
                1nat
            },
        ),
{
    assert(a.take(i + 1).drop_last() =~= a.take(i));
    assert(b.take(k + 1).drop_last() =~= b.take(k));
}

/// The first column of the table.
proof fn lemma_edit_distance_column<A>(a: Seq<A>, b: Seq<A>, i: int)
    requires
        0 <= i <= a.len(),
    ensures
        edit_distance(a.take(i), b.take(0)) == i,
        edit_distance(b.take(0), a.take(i)) == i,
{
}

/// If every entry of row `i` of the table is at least `lo`, so is every entry
/// of every later row, in particular the distance itself.
proof fn lemma_rows_bounded_below<A>(a: Seq<A>, b: Seq<A>, i: int, lo: int)
    requires
        0 <= i <= a.len(),
        forall|k: int| 0 <= k <= b.len() ==> edit_distance(a.take(i), #[trigger] b.take(k)) >= lo,
    ensures
        edit_distance(a, b) >= lo,
    decreases a.len() - i,
{
    if i < a.len() {
        assert forall|k: int| 0 <= k <= b.len() implies edit_distance(
            a.take(i + 1),
            #[trigger] b.take(k),
        ) >= lo by {
            lemma_next_row_bounded_below(a, b, i, lo, k);
        }
        lemma_rows_bounded_below(a, b, i + 1, lo);
    } else {
        assert(a.take(i) =~= a);
        assert(b.take(b.len() as int) =~= b);
    }
}

proof fn lemma_next_row_bounded_below<A>(a: Seq<A>, b: Seq<A>, i: int, lo: int, k: int)
    requires
        0 <= i < a.len(),
        0 <= k <= b.len(),
        forall|k: int| 0 <= k <= b.len() ==> edit_distance(a.take(i), #[trigger] b.take(k)) >= lo,
    ensures
        edit_distance(a.take(i + 1), b.take(k)) >= lo,
    decreases k,
{
    if k == 0 {
        lemma_edit_distance_column(a, b, i + 1);
        lemma_edit_distance_column(a, b, i);
        assert(edit_distance(a.take(i), b.take(0)) >= lo);
    } else {
        lemma_next_row_bounded_below(a, b, i, lo, k - 1);
        lemma_edit_distance_step(a, b, i, k - 1);
        assert(edit_distance(a.take(i), b.take(k)) >= lo);
        assert(edit_distance(a.take(i), b.take(k - 1)) >= lo);
    }
}

/// The first row of the table: `0, 1, ..., n`.
fn initial_row(n: usize) -> (v: Vec<usize>)
    ensures
        v.len() == n + 1,
        forall|k: int| 0 <= k <= n ==> v@[k] == k,
{
    let mut v: Vec<usize> = Vec::new();
    let mut j: usize = 0;
    while j < n
        invariant
            j <= n,
            v.len() == j,
            forall|k: int| 0 <= k < j ==> v@[k] == k,
        decreases n - j,
    {
        v.push(j);
        j += 1;
    }
    v.push(n);
    v
}

/// The distance between `outer` and `inner`, computed row by row over
/// `inner` with two rolling rows.
fn distance_rows(outer: &Vec<char>, inner: &Vec<char>) -> (d: usize)
    ensures
        d == edit_distance(outer@, inner@),
{
    let n = inner.len();
    let mut prev: Vec<usize> = initial_row(n);
    let mut curr: Vec<usize> = prev.clone();
    proof {
        assert forall|k: int| 0 <= k <= n implies #[trigger] prev@[k] == edit_distance(
            outer@.take(0),
            inner@.take(k),
        ) by {
            assert(outer@.take(0).len() == 0);
        }
    }
    let mut i: usize = 0;
    while i < outer.len()
        invariant
            i <= outer.len(),
            n == inner.len(),
            prev.len() == n + 1,
            curr.len() == n + 1,
            forall|k: int| 0 <= k <= n ==> #[trigger] prev@[k] == edit_distance(
                outer@.take(i as int),
                inner@.take(k),
            ),
        decreases outer.len() - i,
    {
        curr.set(0, i + 1);
        proof {
            lemma_edit_distance_column(outer@, inner@, i + 1);
        }
        let oc = outer[i];
        let mut k: usize = 0;
        while k < n
            invariant
                i < outer.len(),
                k <= n,
                n == inner.len(),
                prev.len() == n + 1,
                curr.len() == n + 1,
                oc == outer@[i as int],
                forall|x: int| 0 <= x <= n ==> #[trigger] prev@[x] == edit_distance(
                    outer@.take(i as int),
                    inner@.take(x),
                ),
                forall|x: int| 0 <= x <= k ==> #[trigger] curr@[x] == edit_distance(
                    outer@.take(i + 1),
                    inner@.take(x),
                ),
            decreases n - k,
        {
            let cost: u128 = if oc == inner[k] {
                0
            } else {
                1
            };
            let ins = curr[k] as u128 + 1;
            let del = prev[k + 1] as u128 + 1;
            let sub = prev[k] as u128 + cost;
            let m = if ins <= del && ins <= sub {
                ins
            } else if del <= sub {
                del
            } else {
                sub
            };
            proof {
                lemma_edit_distance_step(outer@, inner@, i as int, k as int);
                lemma_edit_distance_upper_bound(outer@.take(i + 1), inner@.take(k + 1));
                assert(curr@[k as int] == edit_distance(outer@.take(i + 1), inner@.take(k as int)));
            }
            curr.set(k + 1, m as usize);
            k += 1;
        }
        std::mem::swap(&mut prev, &mut curr);
        i += 1;
    }
    proof {
        assert(outer@.take(i as int) =~= outer@);
        assert(inner@.take(n as int) =~= inner@);
    }
    prev[n]
}

/// Levenshtein distance between two character sequences, keeping only rows as
/// long as the shorter one.
pub fn char_distance(a: &Vec<char>, b: &Vec<char>) -> (d: usize)
    ensures
        d == edit_distance(a@, b@),
{
    if a.len() == 0 {
        return b.len();
    }
    if b.len() == 0 {
        return a.len();
    }
    if a.len() < b.len() {
        proof {
            lemma_edit_distance_symmetric(a@, b@);
        }
        distance_rows(b, a)
    } else {
        distance_rows(a, b)
    }
}

/// The distance between `q` and the ASCII-lower-cased `candidate` when it is
/// at most `max`; `None` when it is larger. Stops as soon as a whole row of the
/// table exceeds `max`, since later rows can only be larger. `prev` and `curr`
/// are scratch rows reused across calls.
pub fn bounded_distance_ci(
    q: &Vec<char>,
    candidate: &Vec<char>,
    max: usize,
    prev: &mut Vec<usize>,
    curr: &mut Vec<usize>,
) -> (r: Option<usize>)
    ensures
        r == (if edit_distance(ascii_lower_seq(candidate@), q@) <= max {
            Some(edit_distance(ascii_lower_seq(candidate@), q@) as usize)
        } else {
            None::<usize>
        }),
{
    let ghost cl = ascii_lower_seq(candidate@);
    let qn = q.len();
    *prev = initial_row(qn);
    proof {
        assert forall|k: int| 0 <= k <= qn implies #[trigger] prev@[k] == edit_distance(
            cl.take(0),
            q@.take(k),
        ) by {
            assert(cl.take(0).len() == 0);
        }
    }
    let mut rows: usize = 0;
    while rows < candidate.len()
        invariant
            rows <= candidate.len(),
            cl == ascii_lower_seq(candidate@),
            qn == q.len(),
            prev.len() == qn + 1,
            forall|k: int| 0 <= k <= qn ==> #[trigger] prev@[k] == edit_distance(
                cl.take(rows as int),
                q@.take(k),
            ),
        decreases candidate.len() - rows,
    {
        let cc = to_ascii_lower(candidate[rows]);
        rows += 1;
        curr.clear();
        curr.push(rows);
        proof {
            lemma_edit_distance_column(cl, q@, rows as int);
        }
        let mut row_min = rows;
        let mut k: usize = 0;
        while k < qn
            invariant
                0 < rows <= candidate.len(),
                k <= qn,
                qn == q.len(),
                cl == ascii_lower_seq(candidate@),
                prev.len() == qn + 1,
                curr.len() == k + 1,
                cc == cl[rows - 1],
                forall|x: int| 0 <= x <= qn ==> #[trigger] prev@[x] == edit_distance(
                    cl.take(rows - 1),
                    q@.take(x),
                ),
                forall|x: int| 0 <= x <= k ==> #[trigger] curr@[x] == edit_distance(
                    cl.take(rows as int),
                    q@.take(x),
                ),
                forall|x: int| 0 <= x <= k ==> #[trigger] curr@[x] >= row_min,
            decreases qn - k,
        {
            let cost: u128 = if q[k] == cc {
                0
            } else {
                1
            };
            let ins = curr[k] as u128 + 1;
            let del = prev[k + 1] as u128 + 1;
            let sub = prev[k] as u128 + cost;
            let m = if ins <= del && ins <= sub {
                ins
            } else if del <= sub {
                del
            } else {
                sub
            };
            proof {
                lemma_edit_distance_step(cl, q@, rows - 1, k as int);
                lemma_edit_distance_upper_bound(cl.take(rows as int), q@.take(k + 1));
                assert(curr@[k as int] == edit_distance(cl.take(rows as int), q@.take(k as int)));
            }
            let v = m as usize;
            curr.push(v);
            if v < row_min {
                row_min = v;
            }
            k += 1;
        }
        std::mem::swap(prev, curr);
        if row_min > max {
            proof {
                assert forall|k: int| 0 <= k <= qn implies edit_distance(
                    cl.take(rows as int),
                    #[trigger] q@.take(k),
                ) >= row_min by {
                    assert(prev@[k] >= row_min);
                }
                lemma_rows_bounded_below(cl, q@, rows as int, row_min as int);
            }
            return None;
        }
    }
    proof {
        assert(cl.take(rows as int) =~= cl);
        assert(q@.take(qn as int) =~= q@);
    }
    let dist = prev[qn];
    if dist <= max {
        Some(dist)
    } else {
        None
    }
}

/// Levenshtein distance between two byte sequences, with rows over `b`.
pub fn byte_distance(a: &[u8], b: &[u8]) -> (d: usize)
    ensures
        d == edit_distance(a@, b@),
{
    if a.len() == 0 {
        return b.len();
    }
    if b.len() == 0 {
        return a.len();
    }
    let n = b.len();
    let mut prev: Vec<usize> = initial_row(n);
    let mut curr: Vec<usize> = prev.clone();
    proof {
        assert forall|k: int| 0 <= k <= n implies #[trigger] prev@[k] == edit_distance(
            a@.take(0),
            b@.take(k),
        ) by {
            assert(a@.take(0).len() == 0);
        }
    }
    let mut i: usize = 0;
    while i < a.len()
        invariant
            i <= a.len(),
            n == b.len(),
            prev.len() == n + 1,
            curr.len() == n + 1,
            forall|k: int| 0 <= k <= n ==> #[trigger] prev@[k] == edit_distance(
                a@.take(i as int),
                b@.take(k),
            ),
        decreases a.len() - i,
    {
        curr.set(0, i + 1);
        proof {
            lemma_edit_distance_column(a@, b@, i + 1);
        }
        let ac = a[i];
        let mut k: usize = 0;
        while k < n
            invariant
                i < a.len(),
                k <= n,
                n == b.len(),
                prev.len() == n + 1,
                curr.len() == n + 1,
                ac == a@[i as int],
                forall|x: int| 0 <= x <= n ==> #[trigger] prev@[x] == edit_distance(
                    a@.take(i as int),
                    b@.take(x),
                ),
                forall|x: int| 0 <= x <= k ==> #[trigger] curr@[x] == edit_distance(
                    a@.take(i + 1),
                    b@.take(x),
                ),
            decreases n - k,
        {
            let cost: u128 = if ac == b[k] {
                0
            } else {
                1
            };
            let del = prev[k + 1] as u128 + 1;
            let ins = curr[k] as u128 + 1;
            let sub = prev[k] as u128 + cost;
            let m = if del <= ins && del <= sub {
                del
            } else if ins <= sub {
                ins
            } else {
                sub
            };
            proof {
                lemma_edit_distance_step(a@, b@, i as int, k as int);
                lemma_edit_distance_upper_bound(a@.take(i + 1), b@.take(k + 1));
                assert(curr@[k as int] == edit_distance(a@.take(i + 1), b@.take(k as int)));
            }
            curr.set(k + 1, m as usize);
            k += 1;
        }
        std::mem::swap(&mut prev, &mut curr);
        i += 1;
    }
    proof {
        assert(a@.take(i as int) =~= a@);
        assert(b@.take(n as int) =~= b@);
    }
    prev[n]
}

} // verus!
