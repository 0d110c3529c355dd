//! The bounded sample queues between the audio devices and the call.
use crossbeam_queue::ArrayQueue;
use vstd::prelude::*;

verus! {

/// The bounded queue of `crossbeam_queue`.
#[verifier::external_type_specification]
#[verifier::external_body]
#[verifier::reject_recursive_types(T)]
pub struct ExArrayQueue<T>(ArrayQueue<T>);

/// What a queue holds, the oldest first.
pub uninterp spec fn queue_items(queue: ArrayQueue<(u32, u64)>) -> Seq<(u32, u64)>;

/// How many items a queue was made for.
pub uninterp spec fn queue_limit(queue: ArrayQueue<(u32, u64)>) -> nat;

/// `ArrayQueue::new`: an empty queue for a number of items, which must not be zero.
#[verifier::external_body]
fn queue_new(capacity: usize) -> (queue: ArrayQueue<(u32, u64)>)
    requires
        0 < capacity <= 0x0100_0000,
    ensures
        queue_items(queue).len() == 0,
        queue_limit(queue) == capacity,
{
    ArrayQueue::new(capacity)
}

/// `ArrayQueue::force_push`, with nobody else at the queue: the item becomes the newest. In a full
/// queue it takes the place of the oldest, which is returned.
#[verifier::external_body]
fn queue_force_push(queue: &mut ArrayQueue<(u32, u64)>, item: (u32, u64)) -> (evicted: Option<
    (u32, u64),
>)
    ensures
        queue_limit(*final(queue)) == queue_limit(*old(queue)),
        queue_items(*old(queue)).len() < queue_limit(*old(queue)) ==> evicted is None
            && queue_items(*final(queue)) == queue_items(*old(queue)).push(item),
        queue_items(*old(queue)).len() >= queue_limit(*old(queue)) ==> evicted == Some(
            queue_items(*old(queue))[0],
        ) && queue_items(*final(queue)) == queue_items(*old(queue)).drop_first().push(item),
{
    queue.force_push(item)
}

/// `ArrayQueue::pop`, with nobody else at the queue: the oldest item leaves, if there is one.
#[verifier::external_body]
fn queue_pop(queue: &mut ArrayQueue<(u32, u64)>) -> (item: Option<(u32, u64)>)
    ensures
        queue_limit(*final(queue)) == queue_limit(*old(queue)),
        queue_items(*old(queue)).len() == 0 ==> item is None && queue_items(*final(queue))
            == queue_items(*old(queue)),
        queue_items(*old(queue)).len() > 0 ==> item == Some(queue_items(*old(queue))[0])
            && queue_items(*final(queue)) == queue_items(*old(queue)).drop_first(),
{
    queue.pop()
}

/// `ArrayQueue::len`: how many items the queue holds, never more than it was made for.
#[verifier::external_body]
fn queue_len(queue: &ArrayQueue<(u32, u64)>) -> (length: usize)
    ensures
        length == queue_items(*queue).len(),
        length <= queue_limit(*queue),
{
    queue.len()
}

/// `ArrayQueue::capacity`: how many items the queue was made for, which is not zero.
#[verifier::external_body]
fn queue_capacity(queue: &ArrayQueue<(u32, u64)>) -> (capacity: usize)
    ensures
        capacity == queue_limit(*queue),
        capacity > 0,
{
    queue.capacity()
}

/// A bounded queue of samples. A sample is the bit pattern of its value and the time at which it
/// is to be played, zero where there is no such time.
pub struct SampleQueue {
    queue: ArrayQueue<(u32, u64)>,
}

impl View for SampleQueue {
    type V = Seq<(u32, u64)>;

    closed spec fn view(&self) -> Seq<(u32, u64)> {
        queue_items(self.queue)
    }
}

impl SampleQueue {
    /// How many samples the queue was made for.
    pub closed spec fn limit(self) -> nat {
        queue_limit(self.queue)
    }

    /// What a queue holds after one more sample: the oldest makes room where there is none.
    pub open spec fn pushed(items: Seq<(u32, u64)>, limit: nat, item: (u32, u64)) -> Seq<(u32, u64)> {
        if items.len() < limit {
            items.push(item)
        } else {
            items.drop_first().push(item)
        }
    }

    /// An empty queue.
    pub fn new(capacity: usize) -> (r: Self)
        requires
            0 < capacity <= 0x0100_0000,
        ensures
            r@ == Seq::<(u32, u64)>::empty(),
            r.limit() == capacity,
    {
        let r = SampleQueue { queue: queue_new(capacity) };
        assert(r@ =~= Seq::<(u32, u64)>::empty());
        r
    }

    /// Adds a sample, and says whether another had to make room for it.
    pub fn push(&mut self, item: (u32, u64)) -> (dropped: bool)
        ensures
            final(self)@ == SampleQueue::pushed(old(self)@, old(self).limit(), item),
            final(self).limit() == old(self).limit(),
            dropped == (old(self)@.len() >= old(self).limit()),
    {
        queue_force_push(&mut self.queue, item).is_some()
    }

    /// Takes the oldest sample out.
    pub fn pop(&mut self) -> (item: Option<(u32, u64)>)
        ensures
            final(self).limit() == old(self).limit(),
            old(self)@.len() == 0 ==> item is None && final(self)@ == old(self)@,
            old(self)@.len() > 0 ==> item == Some(old(self)@[0]) && final(self)@
                == old(self)@.drop_first(),
    {
        queue_pop(&mut self.queue)
    }

    /// How many samples the queue holds.
    pub fn len(&self) -> (r: usize)
        ensures
            r == self@.len(),
            r <= self.limit(),
    {
        queue_len(&self.queue)
    }

    /// How many samples the queue was made for.
    pub fn capacity(&self) -> (r: usize)
        ensures
            r == self.limit(),
            r > 0,
    {
        queue_capacity(&self.queue)
    }

    /// Takes everything out.
    pub fn clear(&mut self)
        ensures
            final(self)@ == Seq::<(u32, u64)>::empty(),
            final(self).limit() == old(self).limit(),
    {
        let mut left: usize = self.len();
        while left > 0
            invariant
                self@.len() == left,
                self.limit() == old(self).limit(),
            decreases left,
        {
            let _ = self.pop();
            left -= 1;
        }
        assert(self@ =~= Seq::<(u32, u64)>::empty());
    }
}

/// What a queue holds after a list of samples was put into it, one after the other.
pub open spec fn pushed_all(items: Seq<(u32, u64)>, limit: nat, list: Seq<(u32, u64)>) -> Seq<(u32, u64)>
    decreases list.len(),
{
    if list.len() == 0 {
        items
    } else {
        SampleQueue::pushed(pushed_all(items, limit, list.drop_last()), limit, list.last())
    }
}

/// A queue never holds more than it was made for, and of all that was put into it the newest, in their
/// order: what is too much leaves at the old end.
pub proof fn law_queue_keeps_the_newest(
    items: Seq<(u32, u64)>,
    limit: nat,
    list: Seq<(u32, u64)>,
)
    requires
        0 < limit,
        items.len() <= limit,
    ensures
        ({
            let all = items + list;
            let held = pushed_all(items, limit, list);
            &&& held.len() <= limit
            &&& all.len() <= limit ==> held == all
            &&& all.len() > limit ==> held == all.skip(all.len() - limit)
        }),
    decreases list.len(),
{
    let all = items + list;
    if list.len() == 0 {
        assert(all =~= items);
        assert(all.skip(0) =~= all);
    } else {
        let front = list.drop_last();
        law_queue_keeps_the_newest(items, limit, front);
        assert(all =~= (items + front).push(list.last()));
        let held = pushed_all(items, limit, list);
        if all.len() <= limit {
            assert(held =~= all);
        } else {
            assert(held =~= all.skip(all.len() - limit));
        }
    }
}

} // verus!
