use crate::id_table::IdTable;
use vstd::prelude::*;

verus! {

/// A FIFO of identifiers that does not own what they name: an identifier whose
/// entry has left the table it refers to is skipped when it comes out.
pub struct WeakQueue {
    items: Vec<i32>,
}

impl View for WeakQueue {
    type V = Seq<i32>;

    closed spec fn view(&self) -> Seq<i32> {
        self.items@
    }
}

/// The index of the first identifier of `s` that `live` holds, if any.
pub open spec fn first_live(s: Seq<i32>, live: Set<i32>, i: int) -> bool {
    0 <= i < s.len() && live.contains(s[i]) && forall|j: int| 0 <= j < i ==> !live.contains(#[trigger] s[j])
}

/// `after` is `before` with everything up to its first live identifier `id`, at
/// index `i`, taken.
pub open spec fn taken_at(before: Seq<i32>, after: Seq<i32>, live: Set<i32>, id: i32, i: int) -> bool {
    first_live(before, live, i) && id == before[i] && after == before.skip(i + 1)
}

impl WeakQueue {
    pub fn new() -> (q: WeakQueue)
        ensures
            q@ == Seq::<i32>::empty(),
    {
        WeakQueue { items: Vec::new() }
    }

    pub fn push_back(&mut self, id: i32)
        ensures
            final(self)@ == old(self)@.push(id),
    {
        self.items.push(id);
    }

    /// Takes identifiers from the front until one that `table` holds, which is
    /// returned; the ones before it are dropped. `None` when there is none, and
    /// then the queue is empty.
    pub fn pop_front<V>(&mut self, table: &IdTable<V>) -> (r: Option<i32>)
        ensures
            match r {
                Some(id) => exists|i: int| taken_at(old(self)@, final(self)@, table@.dom(), id, i),
                None => final(self)@ == Seq::<i32>::empty() && forall|j: int|
                    0 <= j < old(self)@.len() ==> !table@.dom().contains(#[trigger] old(self)@[j]),
            },
    {
        let ghost s0 = self@;
        let ghost mut k: int = 0;
        while self.items.len() > 0
            invariant
                0 <= k <= s0.len(),
                s0 == old(self)@,
                self@ == s0.skip(k),
                forall|j: int| 0 <= j < k ==> !table@.dom().contains(#[trigger] s0[j]),
            decreases self@.len(),
        {
            let id = self.items.remove(0);
            assert(id == s0[k]);
            proof {
                assert(s0.skip(k).subrange(1, s0.skip(k).len() as int) =~= s0.skip(k + 1));
                k = k + 1;
            }
            if table.contains_key(id) {
                let r = Some(id);
                proof {
                    let x = r.unwrap();
                    assert(taken_at(s0, self@, table@.dom(), x, k - 1));
                }
                return r;
            }
        }
        None
    }

    pub fn is_empty(&self) -> (r: bool)
        ensures
            r == (self@.len() == 0),
    {
        self.items.len() == 0
    }

    pub fn len(&self) -> (n: usize)
        ensures
            n == self@.len(),
    {
        self.items.len()
    }
}

impl Default for WeakQueue {
    fn default() -> (q: WeakQueue)
        ensures
            q@ == Seq::<i32>::empty(),
    {
        WeakQueue::new()
    }
}

} // verus!
