//! Laws of the bounded queue, stated and proved over the abstract model
//! ([`spec_push`], [`spec_pop`]) that the contracts of
//! [`crate::buffer::BoundedBuffer::push`] and
//! [`crate::buffer::BoundedBuffer::pop`] are written against: a queue's
//! observable contents are a sequence, oldest element first, together with
//! the fixed capacity.

use vstd::prelude::*;
use crate::buffer::spec_pop;
use crate::buffer::spec_push;
use crate::buffer::BufferError;

verus! {

/// Contents after pushing each element of `items` in order into a queue
/// holding `s`, every push taken through [`spec_push`] (so a refused push
/// leaves the contents unchanged).
pub open spec fn push_all<T>(s: Seq<T>, capacity: int, items: Seq<T>) -> Seq<T>
    decreases items.len(),
{
    if items.len() == 0 {
        s
    } else {
        push_all(spec_push(s, capacity, items[0]).1, capacity, items.drop_first())
    }
}

/// While there is room for all of `items`, every push is accepted and the
/// pushed elements end up appended in order.
pub proof fn lemma_push_all_in_capacity<T>(s: Seq<T>, capacity: int, items: Seq<T>)
    requires
        s.len() + items.len() <= capacity,
    ensures
        push_all(s, capacity, items) == s + items,
    decreases items.len(),
{
    if items.len() == 0 {
        assert(s + items =~= s);
    } else {
        assert(spec_push(s, capacity, items[0]).1 == s.push(items[0]));
        lemma_push_all_in_capacity(s.push(items[0]), capacity, items.drop_first());
        assert(s.push(items[0]) + items.drop_first() =~= s + items);
    }
}

/// Law: a freshly constructed queue is empty, so a pop on it reports
/// `Empty` and changes nothing; and from the empty state, any positive
/// capacity admits an error-free push/pop cycle that returns exactly the
/// pushed item and leaves the queue empty again — so alternating push/pop
/// cycles, however many, never see an error.
pub proof fn lemma_alternating_cycle<T>(s: Seq<T>, capacity: int, item: T)
    requires
        capacity >= 1,
        s.len() == 0,
    ensures
        spec_pop(s) == (Err::<T, BufferError>(BufferError::Empty), s),
        spec_push(s, capacity, item).0 == Ok::<(), BufferError>(()),
        spec_pop(spec_push(s, capacity, item).1).0 == Ok::<T, BufferError>(item),
        spec_pop(spec_push(s, capacity, item).1).1.len() == 0,
{
    assert(s.push(item)[0] == item);
}

/// Law: starting from the empty state, each of the first `capacity` pushes
/// is accepted and fills the queue with exactly the pushed items; one
/// further push is then refused as `Full` and leaves the contents unchanged.
pub proof fn lemma_fill_then_full<T>(capacity: int, items: Seq<T>, extra: T)
    requires
        capacity >= 1,
        items.len() == capacity,
    ensures
        forall|k: int|
            0 <= k < items.len() ==> spec_push(
                push_all(Seq::<T>::empty(), capacity, #[trigger] items.take(k)),
                capacity,
                items[k],
            ) == (Ok::<(), BufferError>(()), items.take(k + 1)),
        push_all(Seq::<T>::empty(), capacity, items) == items,
        spec_push(push_all(Seq::<T>::empty(), capacity, items), capacity, extra) == (
            Err::<(), BufferError>(BufferError::Full),
            items,
        ),
{
    lemma_push_all_in_capacity(Seq::<T>::empty(), capacity, items);
    assert(Seq::<T>::empty() + items =~= items);
    assert forall|k: int| 0 <= k < items.len() implies spec_push(
        push_all(Seq::<T>::empty(), capacity, #[trigger] items.take(k)),
        capacity,
        items[k],
    ) == (Ok::<(), BufferError>(()), items.take(k + 1)) by {
        lemma_push_all_in_capacity(Seq::<T>::empty(), capacity, items.take(k));
        assert(Seq::<T>::empty() + items.take(k) =~= items.take(k));
        assert(items.take(k).push(items[k]) =~= items.take(k + 1));
    }
}

/// Law: FIFO order — after pushing `items` (no more of them than the
/// capacity) into the empty queue, the queue holds exactly `items`, and the
/// k-th of `items.len()` successive pops is accepted and returns `items[k]`:
/// the elements come out in the order they were pushed.
pub proof fn lemma_fifo_order<T>(s: Seq<T>, capacity: int, items: Seq<T>)
    requires
        s.len() == 0,
        items.len() <= capacity,
    ensures
        push_all(s, capacity, items) == items,
        items.skip(0) == items,
        forall|k: int|
            0 <= k < items.len() ==> spec_pop(#[trigger] items.skip(k)) == (
                Ok::<T, BufferError>(items[k]),
                items.skip(k + 1),
            ),
{
    lemma_push_all_in_capacity(s, capacity, items);
    assert(s + items =~= items);
    assert(items.skip(0) =~= items);
    assert forall|k: int| 0 <= k < items.len() implies spec_pop(#[trigger] items.skip(k)) == (
        Ok::<T, BufferError>(items[k]),
        items.skip(k + 1),
    ) by {
        assert(items.skip(k)[0] == items[k]);
        assert(items.skip(k).drop_first() =~= items.skip(k + 1));
    }
}

/// Law: failure is idempotent — a push on a full queue is refused with
/// `Full` and leaves the contents unchanged, so an immediate second push is
/// refused the same way, and the contents after both calls are exactly the
/// contents before either.
pub proof fn lemma_push_full_idempotent<T>(s: Seq<T>, capacity: int, x: T, y: T)
    requires
        s.len() == capacity,
    ensures
        spec_push(s, capacity, x) == (Err::<(), BufferError>(BufferError::Full), s),
        spec_push(spec_push(s, capacity, x).1, capacity, y) == (
            Err::<(), BufferError>(BufferError::Full),
            s,
        ),
{
}

/// Law: a queue of capacity one accepts a push into the empty state,
/// refuses a second push without an intervening pop as `Full`, and after
/// one pop — which returns the held item — accepts a push again.
pub proof fn lemma_capacity_one<T>(s: Seq<T>, x: T, y: T, z: T)
    requires
        s.len() == 0,
    ensures
        spec_push(s, 1, x).0 == Ok::<(), BufferError>(()),
        spec_push(spec_push(s, 1, x).1, 1, y) == (
            Err::<(), BufferError>(BufferError::Full),
            s.push(x),
        ),
        spec_pop(spec_push(s, 1, x).1).0 == Ok::<T, BufferError>(x),
        spec_push(spec_pop(spec_push(s, 1, x).1).1, 1, z).0 == Ok::<(), BufferError>(()),
{
    assert(s.push(x)[0] == x);
}

} // verus!
