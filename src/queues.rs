use vstd::prelude::*;

verus! {

/// Item `i` of level `l` is the first, scanning levels top-down and each level
/// front to back, for which the outcome `sel(p, true)` holds; every item before
/// it has the outcome `sel(q, false)`.
pub open spec fn first_match_at(
    levels: Seq<Seq<i32>>,
    sel: spec_fn(i32, bool) -> bool,
    l: int,
    i: int,
) -> bool {
    &&& 0 <= l < levels.len()
    &&& 0 <= i < levels[l].len()
    &&& sel(levels[l][i], true)
    &&& forall|l2: int, j: int|
        0 <= l2 < l && 0 <= j < levels[l2].len() ==> #[trigger] sel(levels[l2][j], false)
    &&& forall|j: int| 0 <= j < i ==> #[trigger] sel(levels[l][j], false)
}

/// Every item of every level has the outcome `sel(q, false)`.
pub open spec fn no_match(levels: Seq<Seq<i32>>, sel: spec_fn(i32, bool) -> bool) -> bool {
    forall|l: int, j: int|
        0 <= l < levels.len() && 0 <= j < levels[l].len() ==> #[trigger] sel(levels[l][j], false)
}

/// The outcome relation of a predicate on processes that is a plain function.
pub open spec fn outcome_of(pred: spec_fn(i32) -> bool) -> spec_fn(i32, bool) -> bool {
    |q: i32, b: bool| b == pred(q)
}

/// The outcomes that an executable predicate may return.
pub open spec fn outcomes<F: Fn(i32) -> bool>(pred: F) -> spec_fn(i32, bool) -> bool {
    |q: i32, b: bool| pred.ensures((q,), b)
}

/// `after` is `before` with the first match of `sel`, process `p` at index `i`
/// of level `l`, taken out.
pub open spec fn popped_at(
    before: Seq<Seq<i32>>,
    after: Seq<Seq<i32>>,
    sel: spec_fn(i32, bool) -> bool,
    p: i32,
    l: int,
    i: int,
) -> bool {
    &&& first_match_at(before, sel, l, i)
    &&& p == before[l][i]
    &&& after == before.update(l, before[l].remove(i))
}

/// What `pop_process` leaves and returns for a predicate that is a plain
/// function: the first matching process, its level, and the levels without it.
pub open spec fn pop_first_spec(levels: Seq<Seq<i32>>, pred: spec_fn(i32) -> bool) -> Option<
    (i32, int, Seq<Seq<i32>>),
> {
    if exists|l: int, i: int| first_match_at(levels, outcome_of(pred), l, i) {
        let (l, i) = choose|l: int, i: int| first_match_at(levels, outcome_of(pred), l, i);
        Some((levels[l][i], l, levels.update(l, levels[l].remove(i))))
    } else {
        None
    }
}

pub open spec fn push_front_spec(levels: Seq<Seq<i32>>, p: i32) -> Seq<Seq<i32>> {
    levels.update(0, seq![p] + levels[0])
}

pub open spec fn push_back_spec(levels: Seq<Seq<i32>>, l: int, p: i32) -> Seq<Seq<i32>> {
    levels.update(l, levels[l].push(p))
}

/// Every level drained into the top one, in level order.
pub open spec fn boost_spec(levels: Seq<Seq<i32>>) -> Seq<Seq<i32>> {
    Seq::new(levels.len(), |l: int| if l == 0 { levels.flatten() } else { Seq::<i32>::empty() })
}

pub open spec fn contains_spec(levels: Seq<Seq<i32>>, p: i32) -> bool {
    exists|l: int, i: int| 0 <= l < levels.len() && 0 <= i < levels[l].len() && levels[l][i] == p
}

/// A first match for a plain predicate is unique.
pub proof fn lemma_first_match_unique(
    levels: Seq<Seq<i32>>,
    pred: spec_fn(i32) -> bool,
    l1: int,
    i1: int,
    l2: int,
    i2: int,
)
    requires
        first_match_at(levels, outcome_of(pred), l1, i1),
        first_match_at(levels, outcome_of(pred), l2, i2),
    ensures
        l1 == l2 && i1 == i2,
{
    let sel = outcome_of(pred);
    if l1 < l2 {
        assert(sel(levels[l1][i1], false));
    } else if l2 < l1 {
        assert(sel(levels[l2][i2], false));
    } else if i1 < i2 {
        assert(sel(levels[l1][i1], false));
    } else if i2 < i1 {
        assert(sel(levels[l2][i2], false));
    }
}

/// A first match under outcomes `a` is one under any `b` that `a` implies.
pub proof fn lemma_first_match_weaken(
    levels: Seq<Seq<i32>>,
    a: spec_fn(i32, bool) -> bool,
    b: spec_fn(i32, bool) -> bool,
    l: int,
    i: int,
)
    requires
        first_match_at(levels, a, l, i),
        forall|q: i32, r: bool| #[trigger] a(q, r) ==> b(q, r),
    ensures
        first_match_at(levels, b, l, i),
{
    assert forall|l2: int, j: int| 0 <= l2 < l && 0 <= j < levels[l2].len() implies #[trigger] b(
        levels[l2][j],
        false,
    ) by {
        assert(a(levels[l2][j], false));
    }
    assert forall|j: int| 0 <= j < i implies #[trigger] b(levels[l][j], false) by {
        assert(a(levels[l][j], false));
    }
}

/// The matching process found under exact outcomes is what `pop_first_spec` names.
pub proof fn lemma_pop_first_spec(levels: Seq<Seq<i32>>, pred: spec_fn(i32) -> bool, l: int, i: int)
    requires
        first_match_at(levels, outcome_of(pred), l, i),
    ensures
        pop_first_spec(levels, pred) == Some(
            (levels[l][i], l, levels.update(l, levels[l].remove(i))),
        ),
{
    let (l2, i2) = choose|l2: int, i2: int| first_match_at(levels, outcome_of(pred), l2, i2);
    lemma_first_match_unique(levels, pred, l, i, l2, i2);
}

pub open spec fn always(p: i32) -> bool {
    true
}

pub open spec fn all_empty(levels: Seq<Seq<i32>>) -> bool {
    forall|l: int| 0 <= l < levels.len() ==> #[trigger] levels[l].len() == 0
}

/// Three processes put at the back of the top level of empty levels, one after
/// another, are taken out by `pop_process` with a predicate that always
/// holds in the same order, from the top level, leaving the levels empty.
pub proof fn lemma_fifo_order(levels: Seq<Seq<i32>>, p: i32, q: i32, r: i32)
    requires
        levels.len() > 0,
        all_empty(levels),
    ensures
        ({
            let s = push_back_spec(push_back_spec(push_back_spec(levels, 0, p), 0, q), 0, r);
            let s1 = s.update(0, seq![q, r]);
            let s2 = s.update(0, seq![r]);
            &&& pop_first_spec(s, |x: i32| always(x)) == Some((p, 0int, s1))
            &&& pop_first_spec(s1, |x: i32| always(x)) == Some((q, 0int, s2))
            &&& pop_first_spec(s2, |x: i32| always(x)) == Some((r, 0int, levels))
        }),
{
    let s = push_back_spec(push_back_spec(push_back_spec(levels, 0, p), 0, q), 0, r);
    let s1 = s.update(0, seq![q, r]);
    let s2 = s.update(0, seq![r]);
    let f = |x: i32| always(x);
    assert(levels[0].len() == 0);
    assert(s[0] =~= seq![p, q, r]);
    assert(first_match_at(s, outcome_of(f), 0, 0));
    lemma_pop_first_spec(s, f, 0, 0);
    assert(s[0].remove(0) =~= seq![q, r]);
    assert(s.update(0, s[0].remove(0)) =~= s1);
    assert(first_match_at(s1, outcome_of(f), 0, 0));
    lemma_pop_first_spec(s1, f, 0, 0);
    assert(s1[0].remove(0) =~= seq![r]);
    assert(s1.update(0, s1[0].remove(0)) =~= s2);
    assert(first_match_at(s2, outcome_of(f), 0, 0));
    lemma_pop_first_spec(s2, f, 0, 0);
    assert(s2[0].remove(0) =~= Seq::<i32>::empty());
    assert(s2.update(0, s2[0].remove(0))[0] =~= levels[0]);
    assert(s2.update(0, s2[0].remove(0)) =~= levels);
}

/// On three empty levels: `p` put at the top, taken out and put at the back of
/// the level below twice so that it reaches the bottom, then `q` put at the top
/// and a boost, leave the top level holding `q` and then `p`.
pub proof fn lemma_boost_order(levels: Seq<Seq<i32>>, p: i32, q: i32)
    requires
        levels.len() == 3,
        all_empty(levels),
    ensures
        ({
            let f = |x: i32| always(x);
            let s0 = push_front_spec(levels, p);
            let (p1, l1, s1) = pop_first_spec(s0, f).unwrap();
            let s2 = push_back_spec(s1, l1 + 1, p1);
            let (p2, l2, s3) = pop_first_spec(s2, f).unwrap();
            let s4 = push_back_spec(s3, l2 + 1, p2);
            let s5 = push_front_spec(s4, q);
            &&& pop_first_spec(s0, f) is Some
            &&& pop_first_spec(s2, f) is Some
            &&& l1 == 0 && l2 == 1
            &&& s4[2] == seq![p]
            &&& boost_spec(s5)[0] == seq![q, p]
        }),
{
    let f = |x: i32| always(x);
    assert(levels[0].len() == 0 && levels[1].len() == 0 && levels[2].len() == 0);
    let s0 = push_front_spec(levels, p);
    assert(s0[0] =~= seq![p]);
    assert(first_match_at(s0, outcome_of(f), 0, 0));
    lemma_pop_first_spec(s0, f, 0, 0);
    let s1 = s0.update(0, s0[0].remove(0));
    assert(s1[0] =~= levels[0]);
    assert(s1 =~= levels);
    let s2 = push_back_spec(s1, 1, p);
    assert(s2[1] =~= seq![p]);
    assert(first_match_at(s2, outcome_of(f), 1, 0));
    lemma_pop_first_spec(s2, f, 1, 0);
    let s3 = s2.update(1, s2[1].remove(0));
    assert(s3[1] =~= levels[1]);
    assert(s3 =~= levels);
    let s4 = push_back_spec(s3, 2, p);
    assert(s4[2] =~= seq![p]);
    let s5 = push_front_spec(s4, q);
    assert(s5[0] =~= seq![q]);
    assert(s5[1] =~= Seq::<i32>::empty());
    let t = s5.drop_first().drop_first();
    assert(t.drop_first() =~= Seq::<Seq<i32>>::empty());
    assert(t.drop_first().flatten() =~= Seq::<i32>::empty());
    assert(t.first() =~= seq![p]);
    assert(t.flatten() =~= seq![p]);
    assert(s5.drop_first().flatten() =~= seq![p]);
    assert(s5.flatten() =~= seq![q, p]);
}

/// No process id appears twice, within a level or across levels.
pub open spec fn distinct(levels: Seq<Seq<i32>>) -> bool {
    forall|l1: int, i1: int, l2: int, i2: int|
        0 <= l1 < levels.len() && 0 <= i1 < levels[l1].len() && 0 <= l2 < levels.len() && 0 <= i2
            < levels[l2].len() && (l1 != l2 || i1 != i2) ==> #[trigger] levels[l1][i1]
            != #[trigger] levels[l2][i2]
}

proof fn lemma_flatten_distinct(levels: Seq<Seq<i32>>)
    requires
        distinct(levels),
    ensures
        levels.flatten().no_duplicates(),
        forall|x: i32| levels.flatten().contains(x) <==> contains_spec(levels, x),
    decreases levels.len(),
{
    if levels.len() > 0 {
        let rest = levels.drop_first();
        let f = levels[0];
        assert(distinct(rest)) by {
            assert forall|l1: int, i1: int, l2: int, i2: int|
                0 <= l1 < rest.len() && 0 <= i1 < rest[l1].len() && 0 <= l2 < rest.len() && 0 <= i2
                    < rest[l2].len() && (l1 != l2 || i1 != i2) implies #[trigger] rest[l1][i1]
                != #[trigger] rest[l2][i2] by {
                assert(levels[l1 + 1][i1] != levels[l2 + 1][i2]);
            }
        }
        lemma_flatten_distinct(rest);
        assert(f.no_duplicates()) by {
            assert forall|i: int, j: int| 0 <= i < f.len() && 0 <= j < f.len() && i != j implies f[i]
                != f[j] by {
                assert(levels[0][i] != levels[0][j]);
            }
        }
        assert(f.disjoint(rest.flatten())) by {
            assert forall|i: int, j: int|
                0 <= i < f.len() && 0 <= j < rest.flatten().len() implies f[i] != rest.flatten()[j] by {
                let x = rest.flatten()[j];
                assert(rest.flatten().contains(x));
                assert(contains_spec(rest, x));
                let (l2, i2) = choose|l2: int, i2: int|
                    0 <= l2 < rest.len() && 0 <= i2 < rest[l2].len() && rest[l2][i2] == x;
                assert(levels[0][i] != levels[l2 + 1][i2]);
            }
        }
        vstd::seq_lib::lemma_no_dup_in_concat(f, rest.flatten());
        assert(levels.flatten() == f + rest.flatten());
        assert forall|x: i32| levels.flatten().contains(x) <==> contains_spec(levels, x) by {
            if levels.flatten().contains(x) {
                let k = choose|k: int| 0 <= k < levels.flatten().len() && levels.flatten()[k] == x;
                if k < f.len() {
                    assert(levels[0][k] == x);
                } else {
                    assert(rest.flatten()[k - f.len()] == x);
                    assert(rest.flatten().contains(x));
                    assert(contains_spec(rest, x));
                    let (l2, i2) = choose|l2: int, i2: int|
                        0 <= l2 < rest.len() && 0 <= i2 < rest[l2].len() && rest[l2][i2] == x;
                    assert(levels[l2 + 1][i2] == x);
                }
            }
            if contains_spec(levels, x) {
                let (l, i) = choose|l: int, i: int|
                    0 <= l < levels.len() && 0 <= i < levels[l].len() && levels[l][i] == x;
                if l == 0 {
                    assert((f + rest.flatten())[i] == x);
                } else {
                    assert(contains_spec(rest, x)) by {
                        assert(rest[l - 1][i] == x);
                    }
                    let j = choose|j: int| 0 <= j < rest.flatten().len() && rest.flatten()[j] == x;
                    assert((f + rest.flatten())[f.len() + j] == x);
                }
            }
        }
    }
}

/// A boost keeps every process, each still once.
pub proof fn lemma_boost_distinct(levels: Seq<Seq<i32>>)
    requires
        distinct(levels),
        levels.len() > 0,
    ensures
        distinct(boost_spec(levels)),
        forall|x: i32| contains_spec(boost_spec(levels), x) <==> contains_spec(levels, x),
{
    lemma_flatten_distinct(levels);
    let b = boost_spec(levels);
    assert forall|x: i32| contains_spec(b, x) <==> contains_spec(levels, x) by {
        if contains_spec(b, x) {
            let (l, i) = choose|l: int, i: int| 0 <= l < b.len() && 0 <= i < b[l].len() && b[l][i] == x;
            assert(levels.flatten().contains(x));
        }
        if contains_spec(levels, x) {
            let i = choose|i: int| 0 <= i < levels.flatten().len() && levels.flatten()[i] == x;
            assert(b[0][i] == x);
        }
    }
}

/// Taking out one entry keeps the others distinct, and the entry is gone.
pub proof fn lemma_remove_distinct(levels: Seq<Seq<i32>>, l: int, i: int)
    requires
        distinct(levels),
        0 <= l < levels.len(),
        0 <= i < levels[l].len(),
    ensures
        distinct(levels.update(l, levels[l].remove(i))),
        !contains_spec(levels.update(l, levels[l].remove(i)), levels[l][i]),
        forall|x: i32|
            contains_spec(levels.update(l, levels[l].remove(i)), x) ==> contains_spec(levels, x),
{
    let r = levels.update(l, levels[l].remove(i));
    let orig = |l1: int, i1: int| if l1 == l && i1 >= i { i1 + 1 } else { i1 };
    assert forall|l1: int, i1: int| 0 <= l1 < r.len() && 0 <= i1 < r[l1].len() implies r[l1][i1]
        == levels[l1][orig(l1, i1)] && 0 <= orig(l1, i1) < levels[l1].len() && (l1 == l ==> orig(
        l1,
        i1,
    ) != i) by {}
    assert forall|l1: int, i1: int, l2: int, i2: int|
        0 <= l1 < r.len() && 0 <= i1 < r[l1].len() && 0 <= l2 < r.len() && 0 <= i2 < r[l2].len() && (
        l1 != l2 || i1 != i2) implies #[trigger] r[l1][i1] != #[trigger] r[l2][i2] by {
        assert(levels[l1][orig(l1, i1)] != levels[l2][orig(l2, i2)]);
    }
    if contains_spec(r, levels[l][i]) {
        let (l1, i1) = choose|l1: int, i1: int|
            0 <= l1 < r.len() && 0 <= i1 < r[l1].len() && r[l1][i1] == levels[l][i];
        assert(levels[l1][orig(l1, i1)] != levels[l][i]);
    }
    assert forall|x: i32| contains_spec(r, x) implies contains_spec(levels, x) by {
        let (l1, i1) = choose|l1: int, i1: int| 0 <= l1 < r.len() && 0 <= i1 < r[l1].len() && r[l1][i1] == x;
        assert(levels[l1][orig(l1, i1)] == x);
    }
}

/// Adding a process that is not queued keeps the levels distinct.
pub proof fn lemma_push_distinct(levels: Seq<Seq<i32>>, l: int, p: i32)
    requires
        distinct(levels),
        0 <= l < levels.len(),
        !contains_spec(levels, p),
    ensures
        distinct(push_back_spec(levels, l, p)),
        distinct(push_front_spec(levels, p)),
        forall|x: i32| contains_spec(push_back_spec(levels, l, p), x) <==> (contains_spec(levels, x) || x == p),
        forall|x: i32| contains_spec(push_front_spec(levels, p), x) <==> (contains_spec(levels, x) || x == p),
{
    let b = push_back_spec(levels, l, p);
    assert forall|l1: int, i1: int, l2: int, i2: int|
        0 <= l1 < b.len() && 0 <= i1 < b[l1].len() && 0 <= l2 < b.len() && 0 <= i2 < b[l2].len() && (
        l1 != l2 || i1 != i2) implies #[trigger] b[l1][i1] != #[trigger] b[l2][i2] by {
        let last1 = l1 == l && i1 == levels[l].len();
        let last2 = l2 == l && i2 == levels[l].len();
        if last1 && !last2 {
            assert(levels[l2][i2] != p);
        } else if last2 && !last1 {
            assert(levels[l1][i1] != p);
        } else if !last1 && !last2 {
            assert(levels[l1][i1] != levels[l2][i2]);
        }
    }
    assert forall|x: i32| contains_spec(b, x) <==> (contains_spec(levels, x) || x == p) by {
        if contains_spec(b, x) {
            let (l1, i1) = choose|l1: int, i1: int| 0 <= l1 < b.len() && 0 <= i1 < b[l1].len() && b[l1][i1] == x;
            if !(l1 == l && i1 == levels[l].len()) {
                assert(levels[l1][i1] == x);
            }
        }
        if contains_spec(levels, x) {
            let (l1, i1) = choose|l1: int, i1: int|
                0 <= l1 < levels.len() && 0 <= i1 < levels[l1].len() && levels[l1][i1] == x;
            assert(b[l1][i1] == x);
        }
        if x == p {
            assert(b[l][levels[l].len() as int] == p);
        }
    }
    let f = push_front_spec(levels, p);
    let orig = |l1: int, i1: int| if l1 == 0 { i1 - 1 } else { i1 };
    assert forall|l1: int, i1: int, l2: int, i2: int|
        0 <= l1 < f.len() && 0 <= i1 < f[l1].len() && 0 <= l2 < f.len() && 0 <= i2 < f[l2].len() && (
        l1 != l2 || i1 != i2) implies #[trigger] f[l1][i1] != #[trigger] f[l2][i2] by {
        let first1 = l1 == 0 && i1 == 0;
        let first2 = l2 == 0 && i2 == 0;
        if first1 && !first2 {
            assert(f[l2][i2] == levels[l2][orig(l2, i2)]);
        } else if first2 && !first1 {
            assert(f[l1][i1] == levels[l1][orig(l1, i1)]);
        } else if !first1 && !first2 {
            assert(f[l1][i1] == levels[l1][orig(l1, i1)]);
            assert(f[l2][i2] == levels[l2][orig(l2, i2)]);
        }
    }
    assert forall|x: i32| contains_spec(f, x) <==> (contains_spec(levels, x) || x == p) by {
        if contains_spec(f, x) {
            let (l1, i1) = choose|l1: int, i1: int| 0 <= l1 < f.len() && 0 <= i1 < f[l1].len() && f[l1][i1] == x;
            if !(l1 == 0 && i1 == 0) {
                assert(levels[l1][orig(l1, i1)] == x);
            }
        }
        if contains_spec(levels, x) {
            let (l1, i1) = choose|l1: int, i1: int|
                0 <= l1 < levels.len() && 0 <= i1 < levels[l1].len() && levels[l1][i1] == x;
            if l1 == 0 {
                assert(f[0][i1 + 1] == x);
            } else {
                assert(f[l1][i1] == x);
            }
        }
        if x == p {
            assert(f[0][0] == p);
        }
    }
}

proof fn lemma_filter_no_dup(s: Seq<i32>, f: spec_fn(i32) -> bool)
    requires
        s.no_duplicates(),
    ensures
        s.filter(f).no_duplicates(),
    decreases s.len(),
{
    reveal(Seq::filter);
    if s.len() > 0 {
        let init = s.drop_last();
        assert(init.no_duplicates());
        lemma_filter_no_dup(init, f);
        if f(s.last()) {
            let g = init.filter(f);
            if g.contains(s.last()) {
                init.lemma_filter_contains_rev(f, s.last());
                let j = choose|j: int| 0 <= j < init.len() && init[j] == s.last();
                assert(s[j] == s[s.len() - 1]);
            }
            let h = g.push(s.last());
            assert forall|i: int, j: int| 0 <= i < h.len() && 0 <= j < h.len() && i != j implies h[i]
                != h[j] by {
                if i == g.len() {
                    assert(g.contains(h[j]));
                } else if j == g.len() {
                    assert(g.contains(h[i]));
                }
            }
        }
    }
}

/// Taking every copy of `p` out keeps the levels distinct, and adds nothing.
pub proof fn lemma_without_distinct(levels: Seq<Seq<i32>>, p: i32)
    requires
        distinct(levels),
    ensures
        distinct(without_spec(levels, p)),
        forall|x: i32| contains_spec(without_spec(levels, p), x) ==> contains_spec(levels, x),
{
    let w = without_spec(levels, p);
    assert forall|l: int| 0 <= l < levels.len() implies (#[trigger] levels[l]).no_duplicates() by {
        assert forall|i: int, j: int| 0 <= i < levels[l].len() && 0 <= j < levels[l].len() && i != j
            implies levels[l][i] != levels[l][j] by {
            assert(levels[l][i] != levels[l][j]);
        }
    }
    assert forall|l: int, i: int| 0 <= l < w.len() && 0 <= i < w[l].len() implies exists|j: int|
        0 <= j < levels[l].len() && levels[l][j] == #[trigger] w[l][i] by {
        assert(w[l].contains(w[l][i]));
        levels[l].lemma_filter_contains_rev(is_not(p), w[l][i]);
    }
    assert forall|l1: int, i1: int, l2: int, i2: int|
        0 <= l1 < w.len() && 0 <= i1 < w[l1].len() && 0 <= l2 < w.len() && 0 <= i2 < w[l2].len() && (
        l1 != l2 || i1 != i2) implies #[trigger] w[l1][i1] != #[trigger] w[l2][i2] by {
        if l1 == l2 {
            lemma_filter_no_dup(levels[l1], is_not(p));
        } else {
            let j1 = choose|j: int| 0 <= j < levels[l1].len() && levels[l1][j] == w[l1][i1];
            let j2 = choose|j: int| 0 <= j < levels[l2].len() && levels[l2][j] == w[l2][i2];
            assert(levels[l1][j1] != levels[l2][j2]);
        }
    }
    assert forall|x: i32| contains_spec(w, x) implies contains_spec(levels, x) by {
        let (l, i) = choose|l: int, i: int| 0 <= l < w.len() && 0 <= i < w[l].len() && w[l][i] == x;
        let j = choose|j: int| 0 <= j < levels[l].len() && levels[l][j] == w[l][i];
    }
}

/// What `pop_first_spec` takes out was queued once, and is no longer.
pub proof fn lemma_pop_distinct(levels: Seq<Seq<i32>>, pred: spec_fn(i32) -> bool)
    requires
        distinct(levels),
    ensures
        pop_first_spec(levels, pred) matches Some((p, l, rest)) ==> {
            &&& distinct(rest)
            &&& contains_spec(levels, p)
            &&& !contains_spec(rest, p)
            &&& forall|x: i32| contains_spec(rest, x) ==> contains_spec(levels, x)
            &&& 0 <= l < levels.len()
            &&& rest.len() == levels.len()
        },
{
    if exists|l: int, i: int| first_match_at(levels, outcome_of(pred), l, i) {
        let (l, i) = choose|l: int, i: int| first_match_at(levels, outcome_of(pred), l, i);
        lemma_remove_distinct(levels, l, i);
    }
}

/// One priority level: its quantum in timer ticks and its FIFO of process ids.
pub struct QueueLevel {
    quantum: u32,
    items: Vec<i32>,
}

impl QueueLevel {
    pub closed spec fn quantum_spec(&self) -> u32 {
        self.quantum
    }

    /// The level's quantum in timer ticks.
    pub fn quantum(&self) -> (q: u32)
        ensures
            q == self.quantum_spec(),
    {
        self.quantum
    }
}

/// An ordered sequence of priority levels; level 0 is the highest. The level
/// above `l` is `l - 1` and the level below is `l + 1`.
pub struct MultiLevelQueue {
    levels: Vec<QueueLevel>,
}

impl MultiLevelQueue {
    /// The process ids of each level, front first.
    pub closed spec fn levels(&self) -> Seq<Seq<i32>> {
        Seq::new(self.levels@.len(), |l: int| self.levels@[l].items@)
    }

    /// The quantum of each level.
    pub closed spec fn quanta(&self) -> Seq<u32> {
        Seq::new(self.levels@.len(), |l: int| self.levels@[l].quantum)
    }

    pub open spec fn wf(&self) -> bool {
        self.levels().len() > 0 && self.quanta().len() == self.levels().len()
    }

    proof fn lemma_lens(&self)
        ensures
            self.levels().len() == self.levels@.len(),
            self.quanta().len() == self.levels@.len(),
    {
    }

    /// One empty level per quantum, in the given order.
    pub fn new(quanta: Vec<u32>) -> (q: Self)
        requires
            quanta@.len() > 0,
        ensures
            q.wf(),
            q.quanta() == quanta@,
            q.levels() == Seq::new(quanta@.len(), |l: int| Seq::<i32>::empty()),
    {
        let mut levels: Vec<QueueLevel> = Vec::new();
        let mut k: usize = 0;
        while k < quanta.len()
            invariant
                k <= quanta@.len(),
                levels@.len() == k,
                forall|l: int| 0 <= l < k ==> levels@[l].quantum == quanta@[l],
                forall|l: int| 0 <= l < k ==> levels@[l].items@.len() == 0,
            decreases quanta@.len() - k,
        {
            levels.push(QueueLevel { quantum: quanta[k], items: Vec::new() });
            k = k + 1;
        }
        let q = MultiLevelQueue { levels };
        assert(q.quanta() =~= quanta@);
        assert forall|l: int| 0 <= l < q.levels().len() implies q.levels()[l] =~= Seq::<i32>::empty() by {}
        assert(q.levels() =~= Seq::new(quanta@.len(), |l: int| Seq::<i32>::empty()));
        q
    }

    pub fn num_levels(&self) -> (n: usize)
        ensures
            n == self.levels().len(),
    {
        self.levels.len()
    }

    /// The highest level.
    pub fn top_queue(&self) -> (l: usize)
        ensures
            l == 0,
    {
        0
    }

    /// The next lower level, if there is one.
    pub fn below(&self, l: usize) -> (r: Option<usize>)
        ensures
            r == (if l + 1 < self.levels().len() {
                Some((l + 1) as usize)
            } else {
                None::<usize>
            }),
    {
        if l < self.levels.len() && l + 1 < self.levels.len() {
            Some(l + 1)
        } else {
            None
        }
    }

    /// The next higher level, if there is one.
    pub fn above(&self, l: usize) -> (r: Option<usize>)
        ensures
            r == (if 0 < l <= self.levels().len() - 1 {
                Some((l - 1) as usize)
            } else {
                None::<usize>
            }),
    {
        if 0 < l && l < self.levels.len() {
            Some(l - 1)
        } else {
            None
        }
    }

    pub fn quantum(&self, l: usize) -> (q: u32)
        requires
            l < self.levels().len(),
        ensures
            q == self.quanta()[l as int],
    {
        self.levels[l].quantum()
    }

    /// The process ids of level `l`, front first.
    pub fn level_items(&self, l: usize) -> (v: Vec<i32>)
        requires
            l < self.levels().len(),
        ensures
            v@ == self.levels()[l as int],
    {
        self.levels[l].items.clone()
    }

    /// Puts `p` at the front of the top level.
    pub fn push_front_top(&mut self, p: i32)
        requires
            old(self).wf(),
        ensures
            final(self).wf(),
            final(self).quanta() == old(self).quanta(),
            final(self).levels() == push_front_spec(old(self).levels(), p),
    {
        let ghost old_levels = self.levels();
        let mut level = self.levels.remove(0);
        level.items.insert(0, p);
        self.levels.insert(0, level);
        assert(self.levels()[0] =~= seq![p] + old_levels[0]);
        assert(self.levels() =~= push_front_spec(old_levels, p));
        assert(self.quanta() =~= old(self).quanta());
    }

    /// Puts `p` at the back of level `l`.
    pub fn push_back(&mut self, l: usize, p: i32)
        requires
            old(self).wf(),
            l < old(self).levels().len(),
        ensures
            final(self).wf(),
            final(self).quanta() == old(self).quanta(),
            final(self).levels() == push_back_spec(old(self).levels(), l as int, p),
    {
        let ghost old_levels = self.levels();
        let mut level = self.levels.remove(l);
        level.items.push(p);
        self.levels.insert(l, level);
        assert(self.levels() =~= push_back_spec(old_levels, l as int, p));
        assert(self.quanta() =~= old(self).quanta());
    }

    /// Whether some level holds `p`.
    pub fn contains(&self, p: i32) -> (r: bool)
        ensures
            r == contains_spec(self.levels(), p),
    {
        let mut l: usize = 0;
        while l < self.levels.len()
            invariant
                l <= self.levels@.len(),
                forall|l2: int, i: int|
                    0 <= l2 < l && 0 <= i < self.levels()[l2].len() ==> self.levels()[l2][i] != p,
            decreases self.levels@.len() - l,
        {
            let items = &self.levels[l].items;
            let mut i: usize = 0;
            while i < items.len()
                invariant
                    l < self.levels@.len(),
                    items@ == self.levels()[l as int],
                    i <= items@.len(),
                    forall|j: int| 0 <= j < i ==> items@[j] != p,
                decreases items@.len() - i,
            {
                if items[i] == p {
                    assert(self.levels()[l as int][i as int] == p);
                    return true;
                }
                i = i + 1;
            }
            l = l + 1;
        }
        false
    }

    /// Removes and returns the first process, top level first and each level
    /// front to back, for which `pred` returns true, with the level it was on.
    /// The other processes keep their places.
    pub fn pop_process<F: Fn(i32) -> bool>(&mut self, pred: F) -> (r: Option<(i32, usize)>)
        requires
            old(self).wf(),
            forall|q: i32| pred.requires((q,)),
        ensures
            final(self).wf(),
            final(self).quanta() == old(self).quanta(),
            match r {
                Some(x) => exists|i: int|
                    popped_at(old(self).levels(), final(self).levels(), outcomes(pred), x.0, x.1 as int, i),
                None => {
                    &&& no_match(old(self).levels(), outcomes(pred))
                    &&& final(self).levels() == old(self).levels()
                },
            },
    {
        let ghost sel = outcomes(pred);
        let ghost lv = self.levels();
        let mut l: usize = 0;
        while l < self.levels.len()
            invariant
                l <= self.levels@.len(),
                self.levels() == lv,
                lv == old(self).levels(),
                self.wf(),
                self.quanta() == old(self).quanta(),
                forall|q: i32| pred.requires((q,)),
                sel == (outcomes(pred)),
                forall|l2: int, j: int|
                    0 <= l2 < l && 0 <= j < lv[l2].len() ==> #[trigger] sel(lv[l2][j], false),
            decreases self.levels@.len() - l,
        {
            let mut i: usize = 0;
            let n = self.levels[l].items.len();
            while i < n
                invariant
                    l < self.levels@.len(),
                    n == lv[l as int].len(),
                    self.levels() == lv,
                    lv == old(self).levels(),
                    self.quanta() == old(self).quanta(),
                    self.wf(),
                    i <= n,
                    forall|q: i32| pred.requires((q,)),
                    sel == (outcomes(pred)),
                    forall|l2: int, j: int|
                        0 <= l2 < l && 0 <= j < lv[l2].len() ==> #[trigger] sel(lv[l2][j], false),
                    forall|j: int| 0 <= j < i ==> #[trigger] sel(lv[l as int][j], false),
                decreases n - i,
            {
                let q = self.levels[l].items[i];
                assert(q == lv[l as int][i as int]);
                let b = pred(q);
                if b {
                    let mut level = self.levels.remove(l);
                    let p = level.items.remove(i);
                    self.levels.insert(l, level);
                    assert(p == lv[l as int][i as int]);
                    assert(self.levels() =~= lv.update(l as int, lv[l as int].remove(i as int)));
                    assert(self.quanta() =~= old(self).quanta());
                    assert(first_match_at(lv, sel, l as int, i as int));
                    assert(popped_at(old(self).levels(), self.levels(), sel, p, l as int, i as int));
                    let r = Some((p, l));
                    proof {
                        let x = r.unwrap();
                        assert(x.0 == p && x.1 == l);
                        assert(popped_at(old(self).levels(), self.levels(), sel, x.0, x.1 as int, i as int));
                    }
                    return r;
                }
                assert(sel(lv[l as int][i as int], false));
                i = i + 1;
            }
            l = l + 1;
        }
        None
    }

    /// Drains every level below the top into the top, keeping order: the top's
    /// entries first, then level 1's, then level 2's, and so on.
    pub fn boost(&mut self)
        requires
            old(self).wf(),
        ensures
            final(self).wf(),
            final(self).quanta() == old(self).quanta(),
            final(self).levels() == boost_spec(old(self).levels()),
    {
        let ghost lv = self.levels();
        let n = self.levels.len();
        let mut top = self.levels.remove(0);
        assert(lv.take(1).drop_last() =~= Seq::<Seq<i32>>::empty());
        assert(lv.take(1).drop_last().flatten_alt() =~= Seq::<i32>::empty());
        assert(lv.take(1).flatten_alt() =~= lv[0]);
        let mut k: usize = 1;
        while k < n
            invariant
                1 <= k <= n,
                n == lv.len(),
                old(self).wf(),
                lv == old(self).levels(),
                old(self).quanta().len() == n,
                self.levels@.len() == n - 1,
                forall|l: int| 0 <= l < k - 1 ==> self.levels@[l].items@.len() == 0,
                forall|l: int| k - 1 <= l < n - 1 ==> self.levels@[l].items@ == lv[l + 1],
                forall|l: int| 0 <= l < n - 1 ==> self.levels@[l].quantum == old(self).quanta()[l + 1],
                top.quantum == old(self).quanta()[0],
                top.items@ == lv.take(k as int).flatten_alt(),
            decreases n - k,
        {
            let mut level = self.levels.remove(k - 1);
            let ghost moved = level.items@;
            assert(moved == lv[k as int]);
            top.items.append(&mut level.items);
            self.levels.insert(k - 1, level);
            assert(self.levels@.len() == n - 1);
            assert(lv.take(k + 1).drop_last() =~= lv.take(k as int));
            assert(lv.take(k + 1).last() == lv[k as int]);
            assert(top.items@ == lv.take(k + 1).flatten_alt());
            k = k + 1;
        }
        self.levels.insert(0, top);
        assert(lv.take(n as int) =~= lv);
        proof {
            lv.lemma_flatten_and_flatten_alt_are_equivalent();
        }
        assert(self.levels()[0] == lv.flatten());
        assert forall|l: int| 1 <= l < n implies self.levels()[l] =~= Seq::<i32>::empty() by {}
        assert(self.levels() =~= boost_spec(lv));
        assert(self.quanta() =~= old(self).quanta());
    }

    /// Removes the first occurrence of `p`, top level first, and says whether
    /// there was one.
    pub fn remove_process(&mut self, p: i32) -> (r: bool)
        requires
            old(self).wf(),
        ensures
            final(self).wf(),
            final(self).quanta() == old(self).quanta(),
            r == contains_spec(old(self).levels(), p),
            r ==> exists|l: int, i: int|
                {
                    &&& first_match_at(
                        old(self).levels(),
                        outcome_of(|q: i32| q == p),
                        l,
                        i,
                    )
                    &&& final(self).levels() == old(self).levels().update(
                        l,
                        old(self).levels()[l].remove(i),
                    )
                },
            !r ==> final(self).levels() == old(self).levels(),
    {
        let ghost lv = self.levels();
        let is_p = |q: i32| -> (b: bool)
            ensures
                b == (q == p),
            { q == p };
        let r = self.pop_process(is_p);
        proof {
            let a = outcomes(is_p);
            let e = outcome_of(|q: i32| q == p);
            assert forall|q: i32, b: bool| #[trigger] a(q, b) implies e(q, b) by {}
            match r {
                Some((x, l)) => {
                    let i = choose|i: int| popped_at(lv, self.levels(), a, x, l as int, i);
                    lemma_first_match_weaken(lv, a, e, l as int, i);
                },
                None => {
                    if contains_spec(lv, p) {
                        let (l, i) = choose|l: int, i: int|
                            0 <= l < lv.len() && 0 <= i < lv[l].len() && lv[l][i] == p;
                        assert(a(lv[l][i], false));
                    }
                },
            }
        }
        match r {
            Some(_) => true,
            None => false,
        }
    }
}

pub open spec fn is_not(p: i32) -> spec_fn(i32) -> bool {
    |q: i32| q != p
}

/// The levels with every occurrence of `p` taken out, the rest in order.
pub open spec fn without_spec(levels: Seq<Seq<i32>>, p: i32) -> Seq<Seq<i32>> {
    Seq::new(levels.len(), |l: int| levels[l].filter(is_not(p)))
}

/// A level without `p` holds no `p`.
pub proof fn lemma_without_absent(levels: Seq<Seq<i32>>, p: i32)
    ensures
        !contains_spec(without_spec(levels, p), p),
{
    if contains_spec(without_spec(levels, p), p) {
        let (l, i) = choose|l: int, i: int|
            0 <= l < without_spec(levels, p).len() && 0 <= i < without_spec(levels, p)[l].len()
                && without_spec(levels, p)[l][i] == p;
        levels[l].lemma_filter_pred(is_not(p), i);
    }
}

impl MultiLevelQueue {
    /// Takes every occurrence of `p` out of every level, keeping the others in
    /// order.
    pub fn remove_all(&mut self, p: i32)
        requires
            old(self).wf(),
        ensures
            final(self).wf(),
            final(self).quanta() == old(self).quanta(),
            final(self).levels() == without_spec(old(self).levels(), p),
    {
        let ghost lv = self.levels();
        let n = self.levels.len();
        let mut l: usize = 0;
        while l < n
            invariant
                n == self.levels@.len(),
                lv == old(self).levels(),
                lv.len() == n,
                l <= n,
                self.quanta() == old(self).quanta(),
                forall|k: int| 0 <= k < l ==> self.levels()[k] == lv[k].filter(is_not(p)),
                forall|k: int| l <= k < n ==> self.levels()[k] == lv[k],
            decreases n - l,
        {
            let mut kept: Vec<i32> = Vec::new();
            let mut i: usize = 0;
            let m = self.levels[l].items.len();
            assert(self.levels@[l as int].items@ == lv[l as int]);
            while i < m
                invariant
                    n == self.levels@.len(),
                    l < n,
                    lv.len() == n,
                    m == lv[l as int].len(),
                    self.levels@[l as int].items@ == lv[l as int],
                    i <= m,
                    kept@ == lv[l as int].take(i as int).filter(is_not(p)),
                decreases m - i,
            {
                let q = self.levels[l].items[i];
                proof {
                    reveal(Seq::filter);
                    assert(lv[l as int].take(i + 1).drop_last() =~= lv[l as int].take(i as int));
                    assert(lv[l as int].take(i + 1).last() == q);
                }
                if q != p {
                    kept.push(q);
                }
                i = i + 1;
            }
            assert(lv[l as int].take(m as int) =~= lv[l as int]);
            let ghost before = self.levels@;
            let ghost view_before = self.levels();
            self.levels[l].items = kept;
            proof {
                assert forall|k: int| 0 <= k < n && k != l implies self.levels@[k] == before[k] by {}
                assert forall|k: int| 0 <= k <= l implies self.levels()[k] == lv[k].filter(is_not(p)) by {
                    if k < l {
                        assert(self.levels()[k] == self.levels@[k].items@);
                        assert(view_before[k] == before[k].items@);
                    }
                }
                assert forall|k: int| l < k < n implies self.levels()[k] == lv[k] by {
                    assert(self.levels()[k] == self.levels@[k].items@);
                    assert(view_before[k] == before[k].items@);
                }
                assert(self.quanta() =~= old(self).quanta());
            }
            l = l + 1;
        }
        assert(self.levels() =~= without_spec(lv, p));
    }
}

impl Default for MultiLevelQueue {
    /// Four levels with quanta 2, 4, 8 and 16 ticks.
    fn default() -> (q: Self)
        ensures
            q.wf(),
            q.quanta() == seq![2u32, 4, 8, 16],
            q.levels() == Seq::new(4, |l: int| Seq::<i32>::empty()),
    {
        let q = MultiLevelQueue::new(vec![2, 4, 8, 16]);
        assert(q.levels() =~= Seq::new(4, |l: int| Seq::<i32>::empty()));
        q
    }
}

} // verus!
