//! Stable sorting by composite keys. A key is a list of parts (integers or
//! texts) compared lexicographically; sorting returns the positions of the
//! items in ascending key order, items with equal keys keeping their input
//! order. The result is computed by merge sort.
use vstd::prelude::*;
use crate::text::{compare_chars, seq_lt};

verus! {

broadcast use vstd::seq_lib::group_to_multiset_ensures;

/// One part of a sort key.
#[derive(Debug)]
pub enum KeyPart {
    Num(i64),
    Text(Vec<char>),
}

/// A key part as a plain value.
pub enum PartView {
    Num(int),
    Text(Seq<char>),
}

pub open spec fn part_view(p: KeyPart) -> PartView {
    match p {
        KeyPart::Num(n) => PartView::Num(n as int),
        KeyPart::Text(t) => PartView::Text(t@),
    }
}

pub open spec fn key_view(k: Vec<KeyPart>) -> Seq<PartView> {
    k@.map_values(|p: KeyPart| part_view(p))
}

pub open spec fn keys_view(ks: Seq<Vec<KeyPart>>) -> Seq<Seq<PartView>> {
    ks.map_values(|k: Vec<KeyPart>| key_view(k))
}

/// Order of key parts: numbers numerically, texts alphabetically, any number
/// before any text.
pub open spec fn part_lt(a: PartView, b: PartView) -> bool {
    match (a, b) {
        (PartView::Num(x), PartView::Num(y)) => x < y,
        (PartView::Text(x), PartView::Text(y)) => seq_lt(x, y),
        (PartView::Num(_), PartView::Text(_)) => true,
        (PartView::Text(_), PartView::Num(_)) => false,
    }
}

/// Lexicographic order of keys.
pub open spec fn key_lt(a: Seq<PartView>, b: Seq<PartView>) -> bool
    decreases a.len(),
{
    if a.len() == 0 {
        b.len() > 0
    } else if b.len() == 0 {
        false
    } else if part_lt(a[0], b[0]) {
        true
    } else if a[0] == b[0] {
        key_lt(a.drop_first(), b.drop_first())
    } else {
        false
    }
}

proof fn lemma_part_lt_irreflexive(a: PartView)
    ensures
        !part_lt(a, a),
{
    if let PartView::Text(x) = a {
        crate::text::lemma_seq_lt_irreflexive(x);
    }
}

proof fn lemma_part_lt_transitive(a: PartView, b: PartView, c: PartView)
    requires
        part_lt(a, b),
        part_lt(b, c),
    ensures
        part_lt(a, c),
{
    if let (PartView::Text(x), PartView::Text(y), PartView::Text(z)) = (a, b, c) {
        crate::text::lemma_seq_lt_transitive(x, y, z);
    }
}

proof fn lemma_part_lt_total(a: PartView, b: PartView)
    ensures
        a == b || part_lt(a, b) || part_lt(b, a),
{
    if let (PartView::Text(x), PartView::Text(y)) = (a, b) {
        crate::text::lemma_seq_lt_total(x, y);
    }
}

pub proof fn lemma_key_lt_irreflexive(a: Seq<PartView>)
    ensures
        !key_lt(a, a),
    decreases a.len(),
{
    if a.len() > 0 {
        lemma_part_lt_irreflexive(a[0]);
        lemma_key_lt_irreflexive(a.drop_first());
    }
}

pub proof fn lemma_key_lt_transitive(a: Seq<PartView>, b: Seq<PartView>, c: Seq<PartView>)
    requires
        key_lt(a, b),
        key_lt(b, c),
    ensures
        key_lt(a, c),
    decreases a.len(),
{
    if a.len() > 0 && b.len() > 0 && c.len() > 0 {
        if part_lt(a[0], b[0]) && part_lt(b[0], c[0]) {
            lemma_part_lt_transitive(a[0], b[0], c[0]);
        } else if a[0] == b[0] && b[0] == c[0] {
            lemma_key_lt_transitive(a.drop_first(), b.drop_first(), c.drop_first());
        }
    }
}

pub proof fn lemma_key_lt_total(a: Seq<PartView>, b: Seq<PartView>)
    ensures
        a == b || key_lt(a, b) || key_lt(b, a),
    decreases a.len(),
{
    if a.len() > 0 && b.len() > 0 {
        lemma_part_lt_total(a[0], b[0]);
        if a[0] == b[0] {
            lemma_key_lt_total(a.drop_first(), b.drop_first());
            if a.drop_first() == b.drop_first() {
                assert(a =~= seq![a[0]] + a.drop_first());
                assert(b =~= seq![b[0]] + b.drop_first());
            }
        }
    } else if a.len() == 0 && b.len() == 0 {
        assert(a =~= b);
    }
}

fn compare_parts(a: &KeyPart, b: &KeyPart) -> (r: i8)
    ensures
        r == 0 <==> part_view(*a) == part_view(*b),
        r < 0 <==> part_lt(part_view(*a), part_view(*b)),
        r > 0 <==> part_lt(part_view(*b), part_view(*a)),
{
    match (a, b) {
        (KeyPart::Num(x), KeyPart::Num(y)) => if *x < *y {
            -1
        } else if *x == *y {
            0
        } else {
            1
        },
        (KeyPart::Text(x), KeyPart::Text(y)) => compare_chars(x, y),
        (KeyPart::Num(_), KeyPart::Text(_)) => -1,
        (KeyPart::Text(_), KeyPart::Num(_)) => 1,
    }
}

proof fn lemma_key_lt_common_prefix(a: Seq<PartView>, b: Seq<PartView>, i: int)
    requires
        0 <= i <= a.len(),
        i <= b.len(),
        a.take(i) == b.take(i),
    ensures
        key_lt(a, b) == key_lt(a.skip(i), b.skip(i)),
    decreases i,
{
    if i > 0 {
        assert(a[0] == a.take(i)[0]);
        assert(b[0] == b.take(i)[0]);
        lemma_part_lt_irreflexive(a[0]);
        assert(a.drop_first().take(i - 1) =~= a.take(i).drop_first());
        assert(b.drop_first().take(i - 1) =~= b.take(i).drop_first());
        lemma_key_lt_common_prefix(a.drop_first(), b.drop_first(), i - 1);
        assert(a.drop_first().skip(i - 1) =~= a.skip(i));
        assert(b.drop_first().skip(i - 1) =~= b.skip(i));
    } else {
        assert(a.skip(0) =~= a);
        assert(b.skip(0) =~= b);
    }
}

/// Whether key `a` is below key `b`.
fn key_below(a: &Vec<KeyPart>, b: &Vec<KeyPart>) -> (r: bool)
    ensures
        r == key_lt(key_view(*a), key_view(*b)),
{
    let ghost av = key_view(*a);
    let ghost bv = key_view(*b);
    let mut i: usize = 0;
    while i < a.len() && i < b.len()
        invariant
            i <= a.len(),
            i <= b.len(),
            av == key_view(*a),
            bv == key_view(*b),
            av.take(i as int) == bv.take(i as int),
        decreases a.len() - i,
    {
        let c = compare_parts(&a[i], &b[i]);
        proof {
            lemma_key_lt_common_prefix(av, bv, i as int);
            assert(av.skip(i as int)[0] == av[i as int]);
            assert(bv.skip(i as int)[0] == bv[i as int]);
            assert(av.skip(i as int).drop_first() =~= av.skip(i + 1));
            assert(bv.skip(i as int).drop_first() =~= bv.skip(i + 1));
        }
        if c < 0 {
            return true;
        }
        if c > 0 {
            proof {
                crate::sort::lemma_part_lt_irreflexive(av[i as int]);
                if part_lt(av[i as int], bv[i as int]) {
                    lemma_part_lt_transitive(av[i as int], bv[i as int], av[i as int]);
                }
            }
            return false;
        }
        proof {
            assert(av.take(i + 1) =~= av.take(i as int).push(av[i as int]));
            assert(bv.take(i + 1) =~= bv.take(i as int).push(bv[i as int]));
            lemma_key_lt_common_prefix(av, bv, i + 1);
        }
        i += 1;
    }
    proof {
        lemma_key_lt_common_prefix(av, bv, i as int);
    }
    i < b.len()
}

// ---------------------------------------------------------------------------
// Sorted order of positions
// ---------------------------------------------------------------------------
/// Position `x` comes before position `y`: its key is lower, or the keys are
/// equal and `x` is earlier.
pub open spec fn before(keys: Seq<Seq<PartView>>, x: nat, y: nat) -> bool {
    key_lt(keys[x as int], keys[y as int]) || (keys[x as int] == keys[y as int] && x < y)
}

/// `s` lists positions in strictly ascending [`before`] order.
pub open spec fn strictly_sorted(keys: Seq<Seq<PartView>>, s: Seq<nat>) -> bool {
    forall|i: int, j: int| 0 <= i < j < s.len() ==> before(keys, #[trigger] s[i], #[trigger] s[j])
}

/// The positions `lo..hi`.
pub open spec fn positions(lo: nat, hi: nat) -> Seq<nat> {
    Seq::new((hi - lo) as nat, |i: int| (lo + i) as nat)
}

/// The positions `0..n` in stable ascending key order.
pub open spec fn sorted_positions(keys: Seq<Seq<PartView>>) -> Seq<nat> {
    choose|s: Seq<nat>|
        strictly_sorted(keys, s) && s.to_multiset() == positions(0, keys.len()).to_multiset()
}

proof fn lemma_before_transitive(keys: Seq<Seq<PartView>>, x: nat, y: nat, z: nat)
    requires
        before(keys, x, y),
        before(keys, y, z),
    ensures
        before(keys, x, z),
{
    let (a, b, c) = (keys[x as int], keys[y as int], keys[z as int]);
    if key_lt(a, b) && key_lt(b, c) {
        lemma_key_lt_transitive(a, b, c);
    }
}

proof fn lemma_before_irreflexive(keys: Seq<Seq<PartView>>, x: nat)
    ensures
        !before(keys, x, x),
{
    lemma_key_lt_irreflexive(keys[x as int]);
}

proof fn lemma_before_total(keys: Seq<Seq<PartView>>, x: nat, y: nat)
    requires
        x != y,
    ensures
        before(keys, x, y) || before(keys, y, x),
{
    lemma_key_lt_total(keys[x as int], keys[y as int]);
}

/// A strictly sorted list holds no position twice.
pub proof fn lemma_sorted_distinct(keys: Seq<Seq<PartView>>, s: Seq<nat>)
    requires
        strictly_sorted(keys, s),
    ensures
        forall|i: int, j: int| 0 <= i < j < s.len() ==> #[trigger] s[i] != #[trigger] s[j],
{
    assert forall|i: int, j: int| 0 <= i < j < s.len() implies #[trigger] s[i] != #[trigger] s[j] by {
        assert(before(keys, s[i], s[j]));
        lemma_before_irreflexive(keys, s[i]);
    }
}

/// Two strictly sorted lists of the same positions are equal.
pub proof fn lemma_sorted_unique(keys: Seq<Seq<PartView>>, s: Seq<nat>, t: Seq<nat>)
    requires
        strictly_sorted(keys, s),
        strictly_sorted(keys, t),
        s.to_multiset() == t.to_multiset(),
    ensures
        s == t,
    decreases s.len(),
{
    assert(s.len() == s.to_multiset().len() && t.len() == t.to_multiset().len());
    if s.len() == 0 {
        assert(t.len() == 0);
        assert(s =~= t);
    } else {
        assert(t.len() == s.len());
        let a = s[0];
        let b = t[0];
        assert(t.to_multiset().count(a) > 0);
        assert(s.to_multiset().count(b) > 0);
        if a != b {
            let i = choose|i: int| 0 <= i < t.len() && t[i] == a;
            let j = choose|j: int| 0 <= j < s.len() && s[j] == b;
            assert(i != 0 && j != 0);
            assert(before(keys, b, a));
            assert(before(keys, a, b));
            lemma_before_transitive(keys, a, b, a);
            lemma_before_irreflexive(keys, a);
        }
        assert(s.drop_first().to_multiset() == s.to_multiset().remove(a)) by {
            assert(s.remove(0) =~= s.drop_first());
        }
        assert(t.drop_first().to_multiset() == t.to_multiset().remove(b)) by {
            assert(t.remove(0) =~= t.drop_first());
        }
        lemma_sorted_unique(keys, s.drop_first(), t.drop_first());
        assert(s =~= seq![a] + s.drop_first());
        assert(t =~= seq![b] + t.drop_first());
    }
}

pub open spec fn index_view(v: Seq<usize>) -> Seq<nat> {
    v.map_values(|x: usize| x as nat)
}

fn merge(keys: &Vec<Vec<KeyPart>>, a: Vec<usize>, b: Vec<usize>) -> (r: Vec<usize>)
    requires
        forall|i: int| 0 <= i < a.len() ==> a@[i] < keys.len(),
        forall|i: int| 0 <= i < b.len() ==> b@[i] < keys.len(),
        strictly_sorted(keys_view(keys@), index_view(a@)),
        strictly_sorted(keys_view(keys@), index_view(b@)),
        forall|i: int, j: int| 0 <= i < a.len() && 0 <= j < b.len() ==> a@[i] != b@[j],
    ensures
        strictly_sorted(keys_view(keys@), index_view(r@)),
        index_view(r@).to_multiset() == index_view(a@).to_multiset().add(
            index_view(b@).to_multiset(),
        ),
        forall|i: int| 0 <= i < r.len() ==> r@[i] < keys.len(),
{
    let ghost kv = keys_view(keys@);
    let mut r: Vec<usize> = Vec::new();
    let mut i: usize = 0;
    let mut j: usize = 0;
    while i < a.len() || j < b.len()
        invariant
            kv == keys_view(keys@),
            i <= a.len(),
            j <= b.len(),
            forall|k: int| 0 <= k < a.len() ==> a@[k] < keys.len(),
            forall|k: int| 0 <= k < b.len() ==> b@[k] < keys.len(),
            forall|k: int| 0 <= k < r.len() ==> r@[k] < keys.len(),
            strictly_sorted(kv, index_view(a@)),
            strictly_sorted(kv, index_view(b@)),
            forall|x: int, y: int| 0 <= x < a.len() && 0 <= y < b.len() ==> a@[x] != b@[y],
            strictly_sorted(kv, index_view(r@)),
            index_view(r@).to_multiset() == index_view(a@.take(i as int)).to_multiset().add(
                index_view(b@.take(j as int)).to_multiset(),
            ),
            r.len() == i + j,
            // Everything placed so far comes before what remains.
            forall|k: int, x: int|
                0 <= k < r.len() && i <= x < a.len() ==> before(kv, r@[k] as nat, a@[x] as nat),
            forall|k: int, y: int|
                0 <= k < r.len() && j <= y < b.len() ==> before(kv, r@[k] as nat, b@[y] as nat),
        decreases a.len() + b.len() - i - j,
    {
        let take_a = if i < a.len() && j < b.len() {
            let x = a[i];
            let y = b[j];
            if key_below(&keys[y], &keys[x]) {
                false
            } else if key_below(&keys[x], &keys[y]) {
                true
            } else {
                x < y
            }
        } else {
            i < a.len()
        };
        let ghost old_r = r@;
        let ghost old_i = i;
        let ghost old_j = j;
        let next = if take_a {
            a[i]
        } else {
            b[j]
        };
        proof {
            // `next` comes before everything still remaining.
            assert forall|x: int| i <= x < a.len() && (x != i || !take_a) implies before(
                kv,
                next as nat,
                a@[x] as nat,
            ) by {
                if take_a {
                    assert(before(kv, index_view(a@)[i as int], index_view(a@)[x]));
                } else {
                    let y = b@[j as int];
                    if i < a.len() {
                        let ai = a@[i as int];
                        assert(y != ai);
                        lemma_before_total(kv, y as nat, ai as nat);
                        if x > i {
                            assert(before(kv, index_view(a@)[i as int], index_view(a@)[x]));
                            lemma_before_transitive(kv, y as nat, ai as nat, a@[x] as nat);
                        }
                    }
                }
            }
            assert forall|y: int| j <= y < b.len() && (y != j || take_a) implies before(
                kv,
                next as nat,
                b@[y] as nat,
            ) by {
                if !take_a {
                    assert(before(kv, index_view(b@)[j as int], index_view(b@)[y]));
                } else {
                    let x = a@[i as int];
                    if j < b.len() {
                        let bj = b@[j as int];
                        assert(x != bj);
                        lemma_before_total(kv, x as nat, bj as nat);
                        if y > j {
                            assert(before(kv, index_view(b@)[j as int], index_view(b@)[y]));
                            lemma_before_transitive(kv, x as nat, bj as nat, b@[y] as nat);
                        }
                    }
                }
            }
        }
        r.push(next);
        if take_a {
            i += 1;
        } else {
            j += 1;
        }
        proof {
            assert(index_view(r@) =~= index_view(old_r).push(next as nat));
            if take_a {
                assert(a@.take(i as int) =~= a@.take(old_i as int).push(next));
                assert(index_view(a@.take(i as int)) =~= index_view(a@.take(old_i as int)).push(
                    next as nat,
                ));
                assert(b@.take(j as int) =~= b@.take(old_j as int));
            } else {
                assert(b@.take(j as int) =~= b@.take(old_j as int).push(next));
                assert(index_view(b@.take(j as int)) =~= index_view(b@.take(old_j as int)).push(
                    next as nat,
                ));
                assert(a@.take(i as int) =~= a@.take(old_i as int));
            }
            assert(index_view(r@).to_multiset() =~= index_view(a@.take(i as int)).to_multiset().add(
                index_view(b@.take(j as int)).to_multiset(),
            ));
            assert forall|p: int, q: int| 0 <= p < q < r.len() implies before(
                kv,
                #[trigger] index_view(r@)[p],
                #[trigger] index_view(r@)[q],
            ) by {
                if q == r.len() - 1 {
                    assert(index_view(r@)[q] == next as nat);
                    assert(index_view(r@)[p] == index_view(old_r)[p]);
                    if take_a {
                        assert(before(kv, old_r[p] as nat, a@[old_i as int] as nat));
                    } else {
                        assert(before(kv, old_r[p] as nat, b@[old_j as int] as nat));
                    }
                } else {
                    assert(index_view(r@)[p] == index_view(old_r)[p]);
                    assert(index_view(r@)[q] == index_view(old_r)[q]);
                }
            }
        }
    }
    proof {
        assert(a@.take(a.len() as int) =~= a@);
        assert(b@.take(b.len() as int) =~= b@);
    }
    r
}

/// The positions `lo..hi` of `keys` in stable ascending key order.
fn sort_range(keys: &Vec<Vec<KeyPart>>, lo: usize, hi: usize) -> (r: Vec<usize>)
    requires
        lo <= hi <= keys.len(),
    ensures
        strictly_sorted(keys_view(keys@), index_view(r@)),
        index_view(r@).to_multiset() == positions(lo as nat, hi as nat).to_multiset(),
        forall|i: int| 0 <= i < r.len() ==> lo <= #[trigger] r@[i] && r@[i] < hi,
    decreases hi - lo,
{
    if hi - lo <= 1 {
        let mut r: Vec<usize> = Vec::new();
        if hi > lo {
            r.push(lo);
        }
        assert(index_view(r@) =~= positions(lo as nat, hi as nat));
        return r;
    }
    let mid = lo + (hi - lo) / 2;
    let a = sort_range(keys, lo, mid);
    let b = sort_range(keys, mid, hi);
    proof {
        assert forall|i: int, j: int| 0 <= i < a.len() && 0 <= j < b.len() implies a@[i] != b@[j] by {
            assert(a@[i] < mid && mid <= b@[j]);
        }
        assert(positions(lo as nat, hi as nat) =~= positions(lo as nat, mid as nat) + positions(
            mid as nat,
            hi as nat,
        ));
        vstd::seq_lib::lemma_multiset_commutative(
            positions(lo as nat, mid as nat),
            positions(mid as nat, hi as nat),
        );
    }
    let r = merge(keys, a, b);
    proof {
        assert forall|i: int| 0 <= i < r.len() implies lo <= #[trigger] r@[i] && r@[i] < hi by {
            let x = index_view(r@)[i];
            assert(index_view(r@).to_multiset().count(x) > 0);
            assert(positions(lo as nat, hi as nat).to_multiset().count(x) > 0);
            let k = choose|k: int|
                0 <= k < positions(lo as nat, hi as nat).len() && positions(
                    lo as nat,
                    hi as nat,
                )[k] == x;
        }
    }
    r
}

/// The positions of `keys` in stable ascending key order: lower keys first,
/// equal keys in their input order.
pub fn sort_positions(keys: &Vec<Vec<KeyPart>>) -> (r: Vec<usize>)
    ensures
        index_view(r@) == sorted_positions(keys_view(keys@)),
        strictly_sorted(keys_view(keys@), index_view(r@)),
        index_view(r@).to_multiset() == positions(0, keys.len() as nat).to_multiset(),
        r.len() == keys.len(),
        forall|i: int| 0 <= i < r.len() ==> r@[i] < keys.len(),
{
    let r = sort_range(keys, 0, keys.len());
    proof {
        let kv = keys_view(keys@);
        let s = index_view(r@);
        assert(strictly_sorted(kv, s) && s.to_multiset() == positions(0, kv.len()).to_multiset());
        let c = sorted_positions(kv);
        lemma_sorted_unique(kv, s, c);
        assert(s.len() == s.to_multiset().len());
        assert(positions(0, kv.len()).len() == positions(0, kv.len()).to_multiset().len());
    }
    r
}

/// The stable sorted order is a permutation of the positions, in ascending
/// key order, and it is the only list with both properties.
pub proof fn law_sorted_positions(keys: Seq<Seq<PartView>>, other: Seq<nat>)
    requires
        exists|s: Seq<nat>|
            strictly_sorted(keys, s) && s.to_multiset() == positions(0, keys.len()).to_multiset(),
        strictly_sorted(keys, other),
        other.to_multiset() == positions(0, keys.len()).to_multiset(),
    ensures
        strictly_sorted(keys, sorted_positions(keys)),
        sorted_positions(keys).to_multiset() == positions(0, keys.len()).to_multiset(),
        other == sorted_positions(keys),
{
    lemma_sorted_unique(keys, other, sorted_positions(keys));
}

} // verus!
