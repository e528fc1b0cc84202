//! A vector that tracks its own capacity and grows by doubling.
use vstd::prelude::*;

verus! {

/// The capacity after pushing onto a vector of length `len` and capacity `cap`:
/// a full vector doubles its capacity, and an empty zero-capacity one grows to one slot.
pub open spec fn capacity_after_push(len: nat, cap: nat) -> nat {
    if len == cap {
        if cap == 0 { 1 } else { 2 * cap }
    } else {
        cap
    }
}

/// Pushing onto a vector whose length is within its capacity never shrinks the capacity
/// and always leaves room for the new element; only a full vector grows, and it doubles
/// (or goes from no slot to one).
pub proof fn lemma_push_capacity(len: nat, cap: nat)
    requires
        len <= cap,
    ensures
        cap <= capacity_after_push(len, cap),
        len + 1 <= capacity_after_push(len, cap),
        capacity_after_push(len, cap) <= if cap == 0 { 1 } else { 2 * cap },
        len < cap ==> capacity_after_push(len, cap) == cap,
        0 < cap && len == cap ==> capacity_after_push(len, cap) == 2 * cap,
        cap == 0 ==> capacity_after_push(len, cap) == 1,
{
}

/// A growable vector whose capacity follows a doubling policy.
pub struct FastVec<T> {
    data: Vec<T>,
    capacity: usize,
}

impl<T> View for FastVec<T> {
    type V = Seq<T>;

    closed spec fn view(&self) -> Seq<T> {
        self.data@
    }
}

impl<T> FastVec<T> {
    #[verifier::type_invariant]
    spec fn inv(self) -> bool {
        self.data.len() <= self.capacity
    }

    /// The number of slots the vector holds without growing.
    pub closed spec fn spec_capacity(&self) -> nat {
        self.capacity as nat
    }

    /// Creates an empty vector with room for one element.
    pub fn new() -> (v: FastVec<T>)
        ensures
            v@ == Seq::<T>::empty(),
            v.spec_capacity() == 1,
    {
        FastVec::with_capacity(1)
    }

    /// Creates an empty vector with room for `capacity` elements.
    pub fn with_capacity(capacity: usize) -> (v: FastVec<T>)
        ensures
            v@ == Seq::<T>::empty(),
            v.spec_capacity() == capacity,
    {
        let mut data: Vec<T> = Vec::new();
        // reserve the storage up front; where it cannot be had, `push` grows it later
        let _reserved = data.try_reserve(capacity);
        FastVec { data, capacity }
    }

    /// The number of elements.
    pub fn len(&self) -> (n: usize)
        ensures
            n == self@.len(),
    {
        self.data.len()
    }

    /// The number of slots; never less than the length.
    pub fn capacity(&self) -> (c: usize)
        ensures
            c == self.spec_capacity(),
            self@.len() <= c,
    {
        proof {
            use_type_invariant(self);
        }
        self.capacity
    }

    /// Moves the elements, in order, into a standard vector.
    pub fn into_vec(self) -> (v: Vec<T>)
        ensures
            v@ == self@,
    {
        self.data
    }

    /// Builds a vector holding exactly the elements of `vec`, with capacity equal to its length.
    pub fn from_vec(vec: Vec<T>) -> (v: FastVec<T>)
        ensures
            v@ == vec@,
            v.spec_capacity() == vec.len(),
    {
        let capacity = vec.len();
        FastVec { data: vec, capacity }
    }

    /// The element at position `i`.
    pub fn get(&self, i: usize) -> (r: &T)
        requires
            i < self@.len(),
        ensures
            *r == self@[i as int],
    {
        &self.data[i]
    }

    /// Appends `t`, doubling the capacity first when the vector is full.
    pub fn push(&mut self, t: T)
        requires
            old(self)@.len() == old(self).spec_capacity() ==> old(self).spec_capacity() * 2
                <= usize::MAX,
        ensures
            final(self)@ == old(self)@.push(t),
            final(self).spec_capacity() == capacity_after_push(
                old(self)@.len(),
                old(self).spec_capacity(),
            ),
    {
        proof {
            use_type_invariant(&*self);
        }
        let mut data: Vec<T> = Vec::new();
        std::mem::swap(&mut data, &mut self.data);
        if data.len() == self.capacity {
            let new_capacity = if self.capacity == 0 {
                1
            } else {
                self.capacity * 2
            };
            // grow the storage so it holds the new capacity; where it cannot be had,
            // `push` grows it by itself
            let additional = new_capacity - data.len();
            let _reserved = data.try_reserve(additional);
            self.capacity = new_capacity;
        }
        data.push(t);
        self.data = data;
    }

    /// Removes the element at position `i`, shifting the later ones left.
    pub fn remove(&mut self, i: usize)
        requires
            i < old(self)@.len(),
        ensures
            final(self)@ == old(self)@.remove(i as int),
            final(self).spec_capacity() == old(self).spec_capacity(),
    {
        proof {
            use_type_invariant(&*self);
        }
        let mut data: Vec<T> = Vec::new();
        std::mem::swap(&mut data, &mut self.data);
        data.remove(i);
        self.data = data;
    }

    /// Drops every element and releases the storage: length and capacity become zero.
    pub fn clear(&mut self)
        ensures
            final(self)@ == Seq::<T>::empty(),
            final(self).spec_capacity() == 0,
    {
        self.data = Vec::new();
        self.capacity = 0;
    }
}

/// Turning a standard vector into a `FastVec` and back gives the same elements in the
/// same order.
pub proof fn lemma_from_vec_into_vec<T>(vec: Vec<T>, fast: FastVec<T>, back: Vec<T>)
    requires
        fast@ == vec@,
        back@ == fast@,
    ensures
        back@ == vec@,
{
}

/// After a push, the vector is one longer, its last element is the pushed one, and the
/// earlier elements are unchanged.
pub proof fn lemma_push_then_get<T>(before: FastVec<T>, after: FastVec<T>, t: T)
    requires
        after@ == before@.push(t),
    ensures
        after@.len() == before@.len() + 1,
        after@[before@.len() as int] == t,
        forall|i: int| 0 <= i < before@.len() ==> after@[i] == before@[i],
{
}

/// Removing position `i` leaves one element less: those before `i` in place, those after
/// it one place to the left.
pub proof fn lemma_remove_shifts<T>(before: FastVec<T>, after: FastVec<T>, i: int)
    requires
        0 <= i < before@.len(),
        after@ == before@.remove(i),
    ensures
        after@.len() == before@.len() - 1,
        forall|j: int| 0 <= j < i ==> after@[j] == before@[j],
        forall|j: int| i <= j < after@.len() ==> after@[j] == before@[j + 1],
{
}

/// One change made to a vector: a push of an element, the removal of the element at a
/// position, or a clear.
pub enum VecChange<T> {
    Push(T),
    Remove(usize),
    Clear,
}

/// The elements after one change, as `push`, `remove` and `clear` state it.
pub open spec fn apply_change<T>(s: Seq<T>, c: VecChange<T>) -> Seq<T> {
    match c {
        VecChange::Push(t) => s.push(t),
        VecChange::Remove(i) => s.remove(i as int),
        VecChange::Clear => Seq::empty(),
    }
}

/// The elements after the changes `cs`, made in order, starting from `start`.
pub open spec fn apply_changes<T>(start: Seq<T>, cs: Seq<VecChange<T>>) -> Seq<T>
    decreases cs.len(),
{
    if cs.len() == 0 {
        start
    } else {
        apply_change(apply_changes(start, cs.drop_last()), cs.last())
    }
}

/// Every removal among `cs`, made in order from `start`, is at a position that exists:
/// what `remove` requires.
pub open spec fn removals_in_range<T>(start: Seq<T>, cs: Seq<VecChange<T>>) -> bool
    decreases cs.len(),
{
    if cs.len() == 0 {
        true
    } else {
        &&& removals_in_range(start, cs.drop_last())
        &&& (cs.last() matches VecChange::Remove(i) ==> (i as int) < apply_changes(start, cs.drop_last()).len())
    }
}

/// Some change among `cs` is a clear.
pub open spec fn has_clear<T>(cs: Seq<VecChange<T>>) -> bool {
    exists|k: int| 0 <= k < cs.len() && #[trigger] cs[k] is Clear
}

/// The changes after the last clear (all of them when there is none).
pub open spec fn changes_since_clear<T>(cs: Seq<VecChange<T>>) -> Seq<VecChange<T>>
    decreases cs.len(),
{
    if cs.len() == 0 {
        cs
    } else if cs.last() is Clear {
        Seq::empty()
    } else {
        changes_since_clear(cs.drop_last()).push(cs.last())
    }
}

/// The number of pushes among `cs`.
pub open spec fn push_count<T>(cs: Seq<VecChange<T>>) -> int
    decreases cs.len(),
{
    if cs.len() == 0 {
        0
    } else {
        push_count(cs.drop_last()) + if cs.last() is Push { 1int } else { 0int }
    }
}

/// The number of removals among `cs`.
pub open spec fn remove_count<T>(cs: Seq<VecChange<T>>) -> int
    decreases cs.len(),
{
    if cs.len() == 0 {
        0
    } else {
        remove_count(cs.drop_last()) + if cs.last() is Remove { 1int } else { 0int }
    }
}

/// Over any run of pushes, removals (each at a position that exists) and clears, the
/// length is the number of elements pushed less the number removed since the last
/// clear, counting from the starting length when there was no clear.
pub proof fn lemma_length_after_changes<T>(start: Seq<T>, cs: Seq<VecChange<T>>)
    requires
        removals_in_range(start, cs),
    ensures
        apply_changes(start, cs).len() == (if has_clear(cs) { 0 } else { start.len() as int })
            + push_count(changes_since_clear(cs)) - remove_count(changes_since_clear(cs)),
    decreases cs.len(),
{
    if cs.len() > 0 {
        let prev = cs.drop_last();
        lemma_length_after_changes(start, prev);
        let since = changes_since_clear(cs);
        if cs.last() is Clear {
            assert(cs[cs.len() - 1] is Clear);
            assert(has_clear(cs));
        } else {
            assert(since.drop_last() =~= changes_since_clear(prev));
            assert(has_clear(cs) == has_clear(prev)) by {
                if has_clear(cs) {
                    let k = choose|k: int| 0 <= k < cs.len() && #[trigger] cs[k] is Clear;
                    assert(prev[k] is Clear);
                }
                if has_clear(prev) {
                    let k = choose|k: int| 0 <= k < prev.len() && #[trigger] prev[k] is Clear;
                    assert(cs[k] is Clear);
                }
            }
        }
    } else {
        assert(!has_clear(cs));
    }
}

/// The items separated by `", "`.
pub open spec fn joined(items: Seq<Seq<char>>) -> Seq<char>
    decreases items.len(),
{
    if items.len() == 0 {
        Seq::empty()
    } else if items.len() == 1 {
        items[0]
    } else {
        joined(items.drop_last()) + ", "@ + items.last()
    }
}

impl FastVec<String> {
    /// The text `FastVec[a, b, c]` for a vector of the texts `a`, `b`, `c`.
    pub fn to_display_string(&self) -> (text: String)
        ensures
            text@ == "FastVec["@ + joined(self@.map_values(|s: String| s@)) + "]"@,
    {
        let ghost items = self@.map_values(|s: String| s@);
        let mut text = String::from_str("FastVec[");
        let n = self.len();
        let mut i: usize = 0;
        while i < n
            invariant
                n == self@.len(),
                items == self@.map_values(|s: String| s@),
                i <= n,
                text@ == "FastVec["@ + joined(items.take(i as int)),
            decreases n - i,
        {
            if i > 0 {
                text.append(", ");
            }
            text.append(self.get(i).as_str());
            proof {
                assert(items.take(i + 1).drop_last() =~= items.take(i as int));
                assert(items.take(i + 1).last() == self@[i as int]@);
                if i == 0 {
                    assert(items.take(1)[0] == self@[0]@);
                }
            }
            i = i + 1;
        }
        text.append("]");
        assert(items.take(n as int) =~= items);
        text
    }
}

} // verus!
