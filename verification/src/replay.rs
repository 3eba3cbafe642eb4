//! Bounded recording: a buffer that keeps at most its capacity of the most
//! recent items, dropping the oldest first. The cortex's replay frames, the
//! global workspace's broadcast history and the sensorimotor loop's error
//! history are kept this way.
use vstd::prelude::*;

verus! {

/// `buf` after recording `item`: the oldest item is dropped first when the
/// buffer already holds `capacity` items or more.
pub open spec fn bounded_push<T>(buf: Seq<T>, capacity: usize, item: T) -> Seq<T> {
    if buf.len() >= capacity {
        buf.drop_first().push(item)
    } else {
        buf.push(item)
    }
}

/// The buffer after recording `items` in order into an empty buffer.
pub open spec fn recorded<T>(items: Seq<T>, capacity: usize) -> Seq<T>
    decreases items.len(),
{
    if items.len() == 0 {
        Seq::empty()
    } else {
        bounded_push(recorded(items.drop_last(), capacity), capacity, items.last())
    }
}

/// A buffer of capacity at least one, filled from empty, holds exactly the
/// last `capacity` items recorded (all of them while there are fewer), in
/// the order they were recorded.
pub proof fn lemma_keeps_latest<T>(items: Seq<T>, capacity: usize)
    requires
        capacity >= 1,
    ensures
        recorded(items, capacity) == items.subrange(
            if items.len() > capacity {
                items.len() - capacity
            } else {
                0
            },
            items.len() as int,
        ),
    decreases items.len(),
{
    if items.len() > 0 {
        let n = items.len() as int;
        let prefix = items.drop_last();
        lemma_keeps_latest(prefix, capacity);
        let prev = recorded(prefix, capacity);
        if n - 1 >= capacity {
            assert(prev == items.subrange(n - 1 - capacity, n - 1));
            assert(prev.drop_first().push(items.last()) =~= items.subrange(n - capacity, n));
        } else {
            assert(prev == items.subrange(0, n - 1));
            assert(prev.push(items.last()) =~= items.subrange(0, n));
        }
    } else {
        assert(items.subrange(0, 0) =~= Seq::<T>::empty());
    }
}

/// Record `item`, dropping the oldest item first when the buffer is full.
/// A buffer with capacity 0 cannot drop from empty, so that case is out.
pub fn record_bounded<T>(buf: &mut Vec<T>, capacity: usize, item: T)
    requires
        old(buf)@.len() >= capacity ==> old(buf)@.len() > 0,
    ensures
        final(buf)@ == bounded_push(old(buf)@, capacity, item),
        final(buf)@.last() == item,
        0 < capacity && old(buf)@.len() <= capacity ==> final(buf)@.len() <= capacity,
{
    if buf.len() >= capacity {
        buf.remove(0);
    }
    buf.push(item);
    proof {
        if old(buf)@.len() >= capacity {
            assert(old(buf)@.remove(0) =~= old(buf)@.drop_first());
        }
    }
}

} // verus!
