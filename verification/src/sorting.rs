//! Sorting of numbers.
use crate::single::{self, Bits};
use vstd::prelude::*;

verus! {

/// Are the numbers in ascending order?
pub open spec fn ascending(s: Seq<u64>) -> bool {
    forall|i: int, j: int| 0 <= i <= j < s.len() ==> s[i] <= s[j]
}

/// `s` holds the numbers of `v` in ascending order.
pub open spec fn sorted_of(v: Seq<u64>, s: Seq<u64>) -> bool {
    ascending(s) && s.to_multiset() == v.to_multiset()
}

/// Two ascending runs as one.
fn merge(a: &Vec<u64>, b: &Vec<u64>) -> (s: Vec<u64>)
    requires
        ascending(a@),
        ascending(b@),
        a@.len() + b@.len() <= usize::MAX,
    ensures
        ascending(s@),
        s@.to_multiset() == a@.to_multiset().add(b@.to_multiset()),
{
    let mut s: Vec<u64> = Vec::with_capacity(a.len() + b.len());
    let mut i: usize = 0;
    let mut j: usize = 0;
    assert(a@.take(0) =~= Seq::<u64>::empty());
    assert(b@.take(0) =~= Seq::<u64>::empty());
    proof {
        broadcast use vstd::seq_lib::group_to_multiset_ensures;

        assert(s@.to_multiset() =~= a@.take(0).to_multiset().add(b@.take(0).to_multiset()));
    }
    while i < a.len() || j < b.len()
        invariant
            i <= a@.len(),
            j <= b@.len(),
            ascending(a@),
            ascending(b@),
            ascending(s@),
            s@.len() > 0 && i < a@.len() ==> s@.last() <= a@[i as int],
            s@.len() > 0 && j < b@.len() ==> s@.last() <= b@[j as int],
            s@.to_multiset() == a@.take(i as int).to_multiset().add(
                b@.take(j as int).to_multiset(),
            ),
        decreases a@.len() - i + b@.len() - j,
    {
        let ghost before = s@;
        if j >= b.len() || (i < a.len() && a[i] <= b[j]) {
            s.push(a[i]);
            proof {
                assert(a@.take(i + 1) =~= a@.take(i as int).push(a@[i as int]));
                vstd::seq_lib::to_multiset_build(a@.take(i as int), a@[i as int]);
                vstd::seq_lib::to_multiset_build(before, a@[i as int]);
                assert(s@.to_multiset() =~= a@.take(i + 1).to_multiset().add(
                    b@.take(j as int).to_multiset(),
                ));
            }
            i = i + 1;
        } else {
            s.push(b[j]);
            proof {
                assert(b@.take(j + 1) =~= b@.take(j as int).push(b@[j as int]));
                vstd::seq_lib::to_multiset_build(b@.take(j as int), b@[j as int]);
                vstd::seq_lib::to_multiset_build(before, b@[j as int]);
                assert(s@.to_multiset() =~= a@.take(i as int).to_multiset().add(
                    b@.take(j + 1).to_multiset(),
                ));
            }
            j = j + 1;
        }
    }
    assert(a@.take(i as int) =~= a@);
    assert(b@.take(j as int) =~= b@);
    s
}

fn sorted_range(v: &Vec<u64>, from: usize, to: usize) -> (s: Vec<u64>)
    requires
        from <= to <= v@.len(),
    ensures
        sorted_of(v@.subrange(from as int, to as int), s@),
        s@.len() == to - from,
    decreases to - from,
{
    let ghost part = v@.subrange(from as int, to as int);
    let s: Vec<u64>;
    if to - from < 2 {
        let mut one: Vec<u64> = Vec::new();
        if from < to {
            one.push(v[from]);
        }
        assert(one@ =~= part);
        s = one;
    } else {
        let mid: usize = from + (to - from) / 2;
        let a: Vec<u64> = sorted_range(v, from, mid);
        let b: Vec<u64> = sorted_range(v, mid, to);
        s = merge(&a, &b);
        proof {
            let x = v@.subrange(from as int, mid as int);
            let y = v@.subrange(mid as int, to as int);
            assert(part =~= x + y);
            vstd::seq_lib::lemma_multiset_commutative(x, y);
        }
    }
    proof {
        broadcast use vstd::seq_lib::group_to_multiset_ensures;

        assert(s@.len() == s@.to_multiset().len());
        assert(part.len() == part.to_multiset().len());
    }
    s
}

/// The numbers in ascending order.
pub fn sorted(v: &Vec<u64>) -> (s: Vec<u64>)
    ensures
        sorted_of(v@, s@),
        s@.len() == v@.len(),
{
    let s: Vec<u64> = sorted_range(v, 0, v.len());
    assert(v@.subrange(0, v@.len() as int) =~= v@);
    s
}

/// The places of single-precision numbers in their order.
pub open spec fn places(v: Seq<Bits>) -> Seq<u64> {
    Seq::new(v.len(), |i: int| single::place(v[i]) as u64)
}

/// `s` holds the single-precision numbers of `v` in ascending order.
pub open spec fn ordered(v: Seq<Bits>, s: Seq<Bits>) -> bool {
    s.len() == v.len() && sorted_of(places(v), places(s))
}

/// `m` is number `k`, from zero, of `v` in ascending order.
pub open spec fn is_nth(v: Seq<Bits>, k: int, m: Bits) -> bool {
    exists|s: Seq<Bits>| #[trigger] ordered(v, s) && 0 <= k < s.len() && s[k] == m
}

/// The single-precision numbers in ascending order.
pub fn in_order(v: &Vec<Bits>) -> (s: Vec<Bits>)
    ensures
        ordered(v@, s@),
{
    let mut codes: Vec<u64> = Vec::with_capacity(v.len());
    let mut i: usize = 0;
    while i < v.len()
        invariant
            i <= v@.len(),
            codes@.len() == i,
            forall|j: int|
                0 <= j < i ==> #[trigger] codes@[j] == single::place(v@[j]) && codes@[j] <= u32::MAX,
        decreases v@.len() - i,
    {
        codes.push(single::to_place(v[i]));
        i = i + 1;
    }
    assert(codes@ =~= places(v@));
    let sorted_codes: Vec<u64> = sorted(&codes);
    assert forall|j: int| 0 <= j < sorted_codes@.len() implies #[trigger] sorted_codes@[j]
        <= u32::MAX by {
        broadcast use vstd::seq_lib::group_to_multiset_ensures;

        let c = sorted_codes@[j];
        assert(sorted_codes@.contains(c));
        assert(sorted_codes@.to_multiset().count(c) > 0);
        assert(codes@.contains(c));
    }
    let mut s: Vec<Bits> = Vec::with_capacity(v.len());
    let mut k: usize = 0;
    while k < sorted_codes.len()
        invariant
            k <= sorted_codes@.len(),
            s@.len() == k,
            forall|j: int| 0 <= j < sorted_codes@.len() ==> #[trigger] sorted_codes@[j] <= u32::MAX,
            forall|j: int| 0 <= j < k ==> single::place(#[trigger] s@[j]) == sorted_codes@[j],
        decreases sorted_codes@.len() - k,
    {
        s.push(single::from_place(sorted_codes[k]));
        k = k + 1;
    }
    assert(places(s@) =~= sorted_codes@);
    s
}

/// Number `k`, from zero, of the numbers in ascending order.
pub fn nth(v: &Vec<Bits>, k: usize) -> (m: Bits)
    requires
        k < v@.len(),
    ensures
        is_nth(v@, k as int, m),
{
    let s: Vec<Bits> = in_order(v);
    assert(ordered(v@, s@));
    s[k]
}

/// What comes out at a place is one of the numbers.
pub proof fn ordering_invents_nothing(v: Seq<Bits>, k: int, m: Bits)
    requires
        is_nth(v, k, m),
    ensures
        v.contains(m),
{
    broadcast use vstd::seq_lib::group_to_multiset_ensures;

    let s = choose|s: Seq<Bits>| #[trigger] ordered(v, s) && 0 <= k < s.len() && s[k] == m;
    let c = places(s)[k];
    assert(places(s).contains(c));
    assert(places(s).to_multiset().count(c) > 0);
    assert(places(v).contains(c));
    let j = choose|j: int| 0 <= j < places(v).len() && places(v)[j] == c;
    single::places_differ(v[j], m);
}

/// There is one number at each place of the order.
pub proof fn each_place_has_one_number(v: Seq<Bits>, k: int, a: Bits, b: Bits)
    requires
        is_nth(v, k, a),
        is_nth(v, k, b),
    ensures
        a == b,
{
    let s = choose|s: Seq<Bits>| #[trigger] ordered(v, s) && 0 <= k < s.len() && s[k] == a;
    let t = choose|t: Seq<Bits>| #[trigger] ordered(v, t) && 0 <= k < t.len() && t[k] == b;
    the_ascending_order_is_unique(places(v), places(s), places(t));
    assert(places(s)[k] == places(t)[k]);
    single::places_differ(a, b);
}

/// A later place holds no smaller number, as long as all are numbers.
pub proof fn later_places_hold_no_smaller_numbers(v: Seq<Bits>, j: int, k: int, a: Bits, b: Bits)
    requires
        is_nth(v, j, a),
        is_nth(v, k, b),
        j <= k,
        forall|i: int| 0 <= i < v.len() ==> !single::nan(#[trigger] v[i]),
    ensures
        single::at_most(a, b),
{
    let s = choose|s: Seq<Bits>| #[trigger] ordered(v, s) && 0 <= j < s.len() && s[j] == a;
    let t = choose|t: Seq<Bits>| #[trigger] ordered(v, t) && 0 <= k < t.len() && t[k] == b;
    the_ascending_order_is_unique(places(v), places(s), places(t));
    assert(places(s)[j] <= places(s)[k]);
    assert(places(t)[k] == single::place(b) as u64);
    assert(places(s)[j] == single::place(a) as u64);
    if single::value(b) < single::value(a) {
        single::places_follow_the_numbers(b, a);
    }
    ordering_invents_nothing(v, j, a);
    ordering_invents_nothing(v, k, b);
}

proof fn lemma_places_follow(v: Seq<Bits>, w: Seq<Bits>)
    requires
        v.to_multiset() == w.to_multiset(),
    ensures
        places(v).to_multiset() == places(w).to_multiset(),
        v.len() == w.len(),
    decreases v.len(),
{
    broadcast use vstd::seq_lib::group_to_multiset_ensures;

    assert(v.len() == v.to_multiset().len());
    assert(w.len() == w.to_multiset().len());
    if v.len() == 0 {
        assert(places(v) =~= places(w));
    } else {
        let n = v.len() - 1;
        let x = v[n];
        assert(v.contains(x));
        assert(v.to_multiset().count(x) > 0);
        assert(w.contains(x));
        let i = choose|i: int| 0 <= i < w.len() && w[i] == x;
        assert(v.remove(n).to_multiset() == v.to_multiset().remove(x));
        assert(w.remove(i).to_multiset() == w.to_multiset().remove(x));
        lemma_places_follow(v.remove(n), w.remove(i));
        let p = places(v)[n];
        assert(places(v).remove(n) =~= places(v.remove(n)));
        assert(places(w).remove(i) =~= places(w.remove(i)));
        assert(places(w)[i] == p);
        assert(places(v).remove(n).to_multiset() == places(v).to_multiset().remove(p));
        assert(places(w).remove(i).to_multiset() == places(w).to_multiset().remove(p));
        assert(places(v).contains(p) && places(w).contains(p));
        assert(places(v).to_multiset().count(p) > 0 && places(w).to_multiset().count(p) > 0);
        assert(places(v).to_multiset() =~= places(v).to_multiset().remove(p).insert(p));
        assert(places(w).to_multiset() =~= places(w).to_multiset().remove(p).insert(p));
    }
}

/// The order in which numbers come in does not matter: what stands at a place of
/// the ascending order depends on the numbers alone.
pub proof fn the_order_of_arrival_does_not_matter(
    v: Seq<Bits>,
    w: Seq<Bits>,
    k: int,
    a: Bits,
    b: Bits,
)
    requires
        v.to_multiset() == w.to_multiset(),
        is_nth(v, k, a),
        is_nth(w, k, b),
    ensures
        a == b,
{
    lemma_places_follow(v, w);
    let t = choose|t: Seq<Bits>| #[trigger] ordered(w, t) && 0 <= k < t.len() && t[k] == b;
    assert(ordered(v, t));
    each_place_has_one_number(v, k, a, b);
}

/// There is one ascending order of given numbers.
pub proof fn the_ascending_order_is_unique(v: Seq<u64>, a: Seq<u64>, b: Seq<u64>)
    requires
        sorted_of(v, a),
        sorted_of(v, b),
    ensures
        a == b,
    decreases a.len(),
{
    broadcast use vstd::seq_lib::group_to_multiset_ensures;

    assert(a.len() == a.to_multiset().len());
    assert(b.len() == b.to_multiset().len());
    if a.len() == 0 {
        assert(a =~= b);
    } else {
        let n = a.len() - 1;
        assert(a.contains(a[n as int]));
        assert(a.to_multiset().count(a[n as int]) > 0);
        assert(b.contains(a[n as int]));
        assert(b.contains(b[n as int]));
        assert(b.to_multiset().count(b[n as int]) > 0);
        assert(a.contains(b[n as int]));
        assert(a[n as int] == b[n as int]);
        let w = a.drop_last();
        assert(a.drop_last() =~= a.remove(n as int));
        assert(b.drop_last() =~= b.remove(n as int));
        assert(a.remove(n as int).to_multiset() == a.to_multiset().remove(a[n as int]));
        assert(b.remove(n as int).to_multiset() == b.to_multiset().remove(b[n as int]));
        the_ascending_order_is_unique(w, a.drop_last(), b.drop_last());
        assert(a =~= a.drop_last().push(a[n as int]));
        assert(b =~= b.drop_last().push(b[n as int]));
    }
}

/// The number of places whose number passes a test.
pub open spec fn how_many(v: Seq<Bits>, test: spec_fn(Bits) -> bool) -> nat
    decreases v.len(),
{
    if v.len() == 0 {
        0
    } else {
        how_many(v.drop_last(), test) + (if test(v.last()) {
            1nat
        } else {
            0nat
        })
    }
}

spec fn how_many_codes(s: Seq<u64>, test: spec_fn(u64) -> bool) -> nat
    decreases s.len(),
{
    if s.len() == 0 {
        0
    } else {
        how_many_codes(s.drop_last(), test) + (if test(s.last()) {
            1nat
        } else {
            0nat
        })
    }
}

proof fn lemma_codes_by_multiset(s: Seq<u64>, test: spec_fn(u64) -> bool)
    ensures
        how_many_codes(s, test) == s.to_multiset().filter(test).len(),
    decreases s.len(),
{
    broadcast use vstd::seq_lib::group_to_multiset_ensures;

    if s.len() == 0 {
        assert(s.to_multiset().len() == 0);
        assert(s.to_multiset().filter(test) =~= vstd::multiset::Multiset::empty());
    } else {
        let front = s.drop_last();
        lemma_codes_by_multiset(front, test);
        assert(s =~= front.push(s.last()));
        let m = front.to_multiset();
        assert(s.to_multiset() =~= m.insert(s.last()));
        if test(s.last()) {
            assert(s.to_multiset().filter(test) =~= m.filter(test).insert(s.last()));
        } else {
            assert(s.to_multiset().filter(test) =~= m.filter(test));
        }
    }
}

proof fn lemma_places_count(v: Seq<Bits>, test: spec_fn(Bits) -> bool, code_test: spec_fn(u64) -> bool)
    requires
        forall|i: int|
            0 <= i < v.len() ==> (code_test(single::place(#[trigger] v[i]) as u64) ==> test(v[i])),
    ensures
        how_many_codes(places(v), code_test) <= how_many(v, test),
    decreases v.len(),
{
    if v.len() > 0 {
        let front = v.drop_last();
        assert(places(front) =~= places(v).drop_last());
        assert forall|i: int| 0 <= i < front.len() implies (code_test(
            single::place(#[trigger] front[i]) as u64,
        ) ==> test(front[i])) by {
            assert(front[i] == v[i]);
        }
        lemma_places_count(front, test, code_test);
        assert(v[v.len() - 1] == v.last());
        assert(places(v).last() == single::place(v.last()) as u64);
    }
}

proof fn lemma_stretch_count(s: Seq<u64>, test: spec_fn(u64) -> bool, from: int, to: int)
    requires
        0 <= from <= to <= s.len(),
        forall|i: int| from <= i < to ==> test(#[trigger] s[i]),
    ensures
        how_many_codes(s, test) >= to - from,
    decreases s.len(),
{
    if s.len() > 0 {
        let front = s.drop_last();
        let n = s.len() - 1;
        let end = if to <= n {
            to
        } else {
            n
        };
        let start = if from <= end {
            from
        } else {
            end
        };
        assert forall|i: int| start <= i < end implies test(#[trigger] front[i]) by {
            assert(front[i] == s[i]);
        }
        lemma_stretch_count(front, test, start, end);
        if from <= n < to {
            assert(test(s[n]));
        }
    }
}

/// What stands at a place of the ascending order splits the numbers: besides it, at least
/// as many are no larger as stand before it, and at least as many are no smaller as stand
/// behind it.
pub proof fn a_place_splits_the_numbers(v: Seq<Bits>, k: int, m: Bits)
    requires
        is_nth(v, k, m),
        forall|i: int| 0 <= i < v.len() ==> !single::nan(#[trigger] v[i]),
    ensures
        0 <= k < v.len(),
        how_many(v, |x: Bits| single::value(x) <= single::value(m)) >= k + 1,
        how_many(v, |x: Bits| single::value(x) >= single::value(m)) >= v.len() - k,
{
    ordering_invents_nothing(v, k, m);
    let s = choose|s: Seq<Bits>| #[trigger] ordered(v, s) && 0 <= k < s.len() && s[k] == m;
    let p = single::place(m) as u64;
    let up = |x: u64| x <= p;
    let down = |x: u64| x >= p;
    let c = places(s);
    assert(c[k] == p);
    lemma_codes_by_multiset(c, up);
    lemma_codes_by_multiset(places(v), up);
    lemma_codes_by_multiset(c, down);
    lemma_codes_by_multiset(places(v), down);
    assert(c.to_multiset() == places(v).to_multiset());
    assert forall|i: int| 0 <= i < k + 1 implies up(#[trigger] c[i]) by {
        assert(c[i] <= c[k]);
    }
    assert forall|i: int| k <= i < c.len() implies down(#[trigger] c[i]) by {
        assert(c[k] <= c[i]);
    }
    lemma_stretch_count(c, up, 0, k + 1);
    lemma_stretch_count(c, down, k, c.len() as int);
    let no_larger = |x: Bits| single::value(x) <= single::value(m);
    let no_smaller = |x: Bits| single::value(x) >= single::value(m);
    assert forall|i: int| 0 <= i < v.len() implies (up(single::place(#[trigger] v[i]) as u64)
        ==> no_larger(v[i])) && (down(single::place(v[i]) as u64) ==> no_smaller(v[i])) by {
        if single::value(m) < single::value(v[i]) {
            single::places_follow_the_numbers(m, v[i]);
        }
        if single::value(v[i]) < single::value(m) {
            single::places_follow_the_numbers(v[i], m);
        }
    }
    lemma_places_count(v, no_larger, up);
    lemma_places_count(v, no_smaller, down);
}

proof fn lemma_how_many_splits(v: Seq<Bits>, a: spec_fn(Bits) -> bool, b: spec_fn(Bits) -> bool)
    requires
        forall|i: int| 0 <= i < v.len() ==> !(a(#[trigger] v[i]) && b(v[i])),
    ensures
        how_many(v, a) + how_many(v, b) <= v.len(),
    decreases v.len(),
{
    if v.len() > 0 {
        let front = v.drop_last();
        assert forall|i: int| 0 <= i < front.len() implies !(a(#[trigger] front[i]) && b(front[i])) by {
            assert(front[i] == v[i]);
        }
        lemma_how_many_splits(front, a, b);
        assert(v[v.len() - 1] == v.last());
    }
}

/// A majority decides the median: where more than half of the numbers are one number, the
/// median is that number, however far off the others lie. So a single spike never comes
/// through.
pub proof fn a_majority_decides_the_median(v: Seq<Bits>, m: Bits, p: Bits)
    requires
        is_nth(v, v.len() as int / 2, m),
        forall|i: int| 0 <= i < v.len() ==> !single::nan(#[trigger] v[i]),
        2 * how_many(v, |x: Bits| single::value(x) == single::value(p)) > v.len(),
    ensures
        single::value(m) == single::value(p),
{
    a_place_splits_the_numbers(v, v.len() as int / 2, m);
    let same = |x: Bits| single::value(x) == single::value(p);
    if single::value(m) > single::value(p) {
        lemma_how_many_splits(v, same, |x: Bits| single::value(x) >= single::value(m));
    }
    if single::value(m) < single::value(p) {
        lemma_how_many_splits(v, same, |x: Bits| single::value(x) <= single::value(m));
    }
}

/// The ascending order is ascending: no number stands before a smaller one.
pub proof fn no_number_stands_before_a_smaller_one(v: Seq<Bits>, s: Seq<Bits>, i: int, j: int)
    requires
        ordered(v, s),
        0 <= i <= j < s.len(),
        !single::nan(s[i]),
        !single::nan(s[j]),
    ensures
        single::value(s[i]) <= single::value(s[j]),
        s.len() == v.len(),
{
    assert(places(s)[i] <= places(s)[j]);
    if single::value(s[j]) < single::value(s[i]) {
        single::places_follow_the_numbers(s[j], s[i]);
    }
}

} // verus!
