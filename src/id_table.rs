use std::collections::BTreeMap;
use vstd::prelude::*;

verus! {

broadcast use vstd::std_specs::btree::group_btree_axioms;

/// `k` is the greatest key of `keys`.
pub open spec fn is_max_key(keys: Set<i32>, k: i32) -> bool {
    keys.contains(k) && forall|j: i32| keys.contains(j) ==> j <= k
}

/// `k` is the least non-negative integer that `keys` does not hold.
pub open spec fn is_least_free(keys: Set<i32>, k: i32) -> bool {
    0 <= k && !keys.contains(k) && forall|j: i32| 0 <= j < k ==> keys.contains(j)
}

pub open spec fn max_key(keys: Set<i32>) -> i32 {
    choose|k: i32| is_max_key(keys, k)
}

pub open spec fn least_free(keys: Set<i32>) -> i32 {
    choose|k: i32| is_least_free(keys, k)
}

/// Some non-negative integer below `i32::MAX` is not a key.
pub open spec fn has_gap(keys: Set<i32>) -> bool {
    exists|k: i32| 0 <= k < i32::MAX && !keys.contains(k)
}

/// The key that the allocation rule hands out next: one past the greatest key
/// while that stays in range, else the least free non-negative integer, else
/// nothing.
pub open spec fn next_key_of(keys: Set<i32>) -> Option<i32> {
    if keys.is_empty() {
        Some(0)
    } else if max_key(keys) < i32::MAX {
        Some((max_key(keys) + 1) as i32)
    } else if has_gap(keys) {
        Some(least_free(keys))
    } else {
        None
    }
}

proof fn lemma_max_key_exists(keys: Set<i32>)
    requires
        keys.finite(),
        !keys.is_empty(),
    ensures
        is_max_key(keys, max_key(keys)),
    decreases keys.len(),
{
    let x = keys.choose();
    let rest = keys.remove(x);
    if rest.is_empty() {
        assert(is_max_key(keys, x));
    } else {
        lemma_max_key_exists(rest);
        let m = max_key(rest);
        if m > x {
            assert(is_max_key(keys, m));
        } else {
            assert(is_max_key(keys, x));
        }
    }
}

proof fn lemma_least_free_exists(keys: Set<i32>, k: i32)
    requires
        0 <= k,
        !keys.contains(k),
    ensures
        is_least_free(keys, least_free(keys)),
        least_free(keys) <= k,
    decreases k,
{
    if forall|j: i32| 0 <= j < k ==> keys.contains(j) {
        assert(is_least_free(keys, k));
        let l = least_free(keys);
        if l < k {
            assert(keys.contains(l));
        }
    } else {
        let j = choose|j: i32| 0 <= j < k && !keys.contains(j);
        lemma_least_free_exists(keys, j);
    }
}

/// The allocation rule on a table of non-negative keys: a key that it hands out
/// is non-negative and unused; it is one past the greatest key while that is in
/// range, and otherwise the least non-negative integer not in use; it hands out
/// nothing only when every non-negative integer is in use.
pub proof fn lemma_next_key_rule(keys: Set<i32>)
    requires
        keys.finite(),
        forall|k: i32| keys.contains(k) ==> k >= 0,
    ensures
        match next_key_of(keys) {
            Some(k) => {
                &&& k >= 0
                &&& !keys.contains(k)
                &&& forall|m: i32| is_max_key(keys, m) && m < i32::MAX ==> k == m + 1
                &&& forall|m: i32| is_max_key(keys, m) && m == i32::MAX ==> is_least_free(keys, k)
            },
            None => forall|j: i32| 0 <= j ==> keys.contains(j),
        },
{
    if !keys.is_empty() {
        lemma_max_key_exists(keys);
        let mx = max_key(keys);
        assert forall|m: i32| is_max_key(keys, m) implies m == mx by {
            assert(m <= mx && mx <= m);
        }
        if mx == i32::MAX && has_gap(keys) {
            let k = choose|k: i32| 0 <= k < i32::MAX && !keys.contains(k);
            lemma_least_free_exists(keys, k);
        }
    }
}

/// The allocation rule never hands out an identifier in use.
pub proof fn lemma_next_key_fresh(keys: Set<i32>)
    requires
        keys.finite(),
    ensures
        next_key_of(keys) matches Some(k) ==> !keys.contains(k),
{
    if !keys.is_empty() {
        lemma_max_key_exists(keys);
        if max_key(keys) == i32::MAX && has_gap(keys) {
            let k = choose|k: i32| 0 <= k < i32::MAX && !keys.contains(k);
            lemma_least_free_exists(keys, k);
        }
    }
}

/// A map from integer identifiers to values that can hand out fresh identifiers.
pub struct IdTable<V> {
    map: BTreeMap<i32, V>,
}

impl<V> View for IdTable<V> {
    type V = Map<i32, V>;

    closed spec fn view(&self) -> Map<i32, V> {
        self.map@
    }
}

/// Relies on BTreeMap::last_key_value: it returns the entry of the greatest key,
/// or `None` when the map is empty.
#[verifier::external_body]
fn last_key<V>(m: &BTreeMap<i32, V>) -> (r: Option<i32>)
    ensures
        match r {
            Some(k) => is_max_key(m@.dom(), k),
            None => m@.dom().is_empty(),
        },
{
    m.last_key_value().map(|kv| *kv.0)
}

impl<V> IdTable<V> {
    /// A table holds finitely many identifiers.
    pub proof fn lemma_finite(&self)
        ensures
            self@.dom().finite(),
    {
    }

    pub fn new() -> (t: Self)
        ensures
            t@ == Map::<i32, V>::empty(),
    {
        IdTable { map: BTreeMap::new() }
    }

    pub fn len(&self) -> (n: usize)
        ensures
            n == self@.len(),
    {
        self.map.len()
    }

    pub fn contains_key(&self, k: i32) -> (r: bool)
        ensures
            r == self@.contains_key(k),
    {
        self.map.contains_key(&k)
    }

    pub fn get(&self, k: i32) -> (r: Option<&V>)
        ensures
            match r {
                Some(v) => self@.contains_key(k) && *v == self@[k],
                None => !self@.contains_key(k),
            },
    {
        self.map.get(&k)
    }

    /// Binds `k` to `v`, returning the value it was bound to before.
    pub fn insert(&mut self, k: i32, v: V) -> (r: Option<V>)
        ensures
            final(self)@ == old(self)@.insert(k, v),
            match r {
                Some(w) => old(self)@.contains_key(k) && w == old(self)@[k],
                None => !old(self)@.contains_key(k),
            },
    {
        self.map.insert(k, v)
    }

    /// Unbinds `k`, returning its value; does nothing when `k` is absent.
    pub fn remove(&mut self, k: i32) -> (r: Option<V>)
        ensures
            final(self)@ == old(self)@.remove(k),
            match r {
                Some(w) => old(self)@.contains_key(k) && w == old(self)@[k],
                None => !old(self)@.contains_key(k),
            },
    {
        self.map.remove(&k)
    }

    /// The identifier that the allocation rule hands out next.
    pub fn new_key(&self) -> (r: Option<i32>)
        ensures
            r == next_key_of(self@.dom()),
    {
        let keys = Ghost(self@.dom());
        match last_key(&self.map) {
            None => {
                assert(keys@ =~= Set::<i32>::empty());
                Some(0)
            },
            Some(x) => {
                assert(max_key(keys@) == x) by {
                    assert(is_max_key(keys@, x));
                    let m = max_key(keys@);
                    assert(is_max_key(keys@, m));
                }
                assert(!keys@.is_empty()) by {
                    assert(keys@.contains(x));
                }
                if x < i32::MAX {
                    Some(x + 1)
                } else {
                    let mut i: i32 = 0;
                    while i < i32::MAX
                        invariant
                            0 <= i <= i32::MAX,
                            keys@ == self@.dom(),
                            max_key(keys@) == i32::MAX,
                            !keys@.is_empty(),
                            forall|j: i32| 0 <= j < i ==> keys@.contains(j),
                        decreases i32::MAX - i,
                    {
                        if !self.map.contains_key(&i) {
                            assert(is_least_free(keys@, i));
                            assert(has_gap(keys@));
                            assert(least_free(keys@) == i) by {
                                let l = least_free(keys@);
                                assert(is_least_free(keys@, l));
                                if l < i {
                                    assert(keys@.contains(l));
                                } else if l > i {
                                    assert(keys@.contains(i));
                                }
                            }
                            return Some(i);
                        }
                        i = i + 1;
                    }
                    assert(!has_gap(keys@));
                    None
                }
            },
        }
    }
}

impl<V: Clone> IdTable<V> {
    /// A copy of the table; values are cloned.
    pub fn duplicate(&self) -> (t: IdTable<V>)
        ensures
            t@ == self@,
    {
        IdTable { map: self.map.clone() }
    }
}

impl<V> Default for IdTable<V> {
    fn default() -> (t: Self)
        ensures
            t@ == Map::<i32, V>::empty(),
    {
        IdTable::new()
    }
}

} // verus!
