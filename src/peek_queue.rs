use vstd::prelude::*;
use crossbeam::sync::MsQueue;

verus! {

#[verifier::external_type_specification]
#[verifier::external_body]
#[verifier::reject_recursive_types(T)]
pub struct ExMsQueue<T>(MsQueue<T>);

/// The items of a lock-free queue, front first.
pub uninterp spec fn queue_items(q: MsQueue<u64>) -> Seq<u64>;

/// Relies on `crossbeam::sync::MsQueue::new`: a new queue holds no item.
#[verifier::external_body]
pub(crate) fn new_ms_queue() -> (r: MsQueue<u64>)
    ensures
        queue_items(r) == Seq::<u64>::empty(),
{
    MsQueue::new()
}

/// Relies on `crossbeam::sync::MsQueue::push`: with no other thread at the
/// queue, the item goes to the back.
#[verifier::external_body]
pub(crate) fn ms_queue_push(q: &mut MsQueue<u64>, item: u64)
    ensures
        queue_items(*final(q)) == queue_items(*old(q)).push(item),
{
    q.push(item)
}

/// Relies on `crossbeam::sync::MsQueue::try_pop`: with no other thread at the
/// queue, it takes the front item, or gives `None` when there is none.
#[verifier::external_body]
fn ms_queue_try_pop(q: &mut MsQueue<u64>) -> (r: Option<u64>)
    ensures
        queue_items(*old(q)).len() == 0 ==> r is None && queue_items(*final(q)) == queue_items(
            *old(q),
        ),
        queue_items(*old(q)).len() > 0 ==> r == Some(queue_items(*old(q))[0]) && queue_items(
            *final(q),
        ) == queue_items(*old(q)).drop_first(),
{
    q.try_pop()
}

/// Relies on `crossbeam::sync::MsQueue::is_empty`: whether the queue holds no item.
#[verifier::external_body]
fn ms_queue_is_empty(q: &MsQueue<u64>) -> (r: bool)
    ensures
        r == (queue_items(*q).len() == 0),
{
    q.is_empty()
}

/// The front item, if any.
pub open spec fn next_item(items: Seq<u64>) -> Option<u64> {
    if items.len() == 0 {
        None
    } else {
        Some(items[0])
    }
}

/// What is left once the front item, if any, is taken.
pub open spec fn after_next(items: Seq<u64>) -> Seq<u64> {
    if items.len() == 0 {
        items
    } else {
        items.drop_first()
    }
}

/// A call made on a queue: `has_more_than_one_element` or `next`.
pub enum QueueStep {
    Check,
    Next,
}

/// The items that `steps` hand out from a queue holding `items`, and what
/// the queue holds afterwards.
pub open spec fn replay(items: Seq<u64>, steps: Seq<QueueStep>) -> (Seq<u64>, Seq<u64>)
    decreases steps.len(),
{
    if steps.len() == 0 {
        (Seq::empty(), items)
    } else {
        let (out, left) = replay(items, steps.drop_last());
        match steps.last() {
            QueueStep::Check => (out, left),
            QueueStep::Next => match next_item(left) {
                Some(x) => (out.push(x), after_next(left)),
                None => (out, left),
            },
        }
    }
}

/// Whatever checks and takes follow the pushes, the items taken followed by
/// those a full iteration then hands out are the pushed items, each once and
/// in push order.
pub proof fn lemma_items_kept(pushed: Seq<u64>, steps: Seq<QueueStep>)
    ensures
        replay(pushed, steps).0 + replay(pushed, steps).1 == pushed,
        (replay(pushed, steps).0 + replay(pushed, steps).1).to_multiset() == pushed.to_multiset(),
    decreases steps.len(),
{
    if steps.len() > 0 {
        lemma_items_kept(pushed, steps.drop_last());
        let (out, left) = replay(pushed, steps.drop_last());
        if steps.last() == QueueStep::Next && left.len() > 0 {
            assert(out.push(left[0]) + left.drop_first() =~= out + left);
        }
    }
}

/// A lock-free queue with room for one item taken from its front, so that
/// "does it hold more than one item?" can be answered without draining it.
pub struct MsQueueWithPeak {
    queue: MsQueue<u64>,
    buffer: Option<u64>,
}

impl View for MsQueueWithPeak {
    type V = Seq<u64>;

    /// The held item, if any, followed by the queue's items.
    closed spec fn view(&self) -> Seq<u64> {
        match self.buffer {
            Some(x) => seq![x] + queue_items(self.queue),
            None => queue_items(self.queue),
        }
    }
}

impl MsQueueWithPeak {
    /// The item held in the one-item buffer, if any.
    pub closed spec fn held(&self) -> Option<u64> {
        self.buffer
    }

    /// The items still in the lock-free queue, front first.
    pub closed spec fn queued(&self) -> Seq<u64> {
        queue_items(self.queue)
    }

    /// The items are the held one, if any, followed by the queued ones.
    pub proof fn lemma_view(&self)
        ensures
            self@ == match self.held() {
                Some(x) => seq![x] + self.queued(),
                None => self.queued(),
            },
    {
    }

    pub fn from(queue: MsQueue<u64>) -> (r: MsQueueWithPeak)
        ensures
            r@ == queue_items(queue),
    {
        MsQueueWithPeak { queue, buffer: None }
    }

    pub fn new() -> (r: MsQueueWithPeak)
        ensures
            r@ == Seq::<u64>::empty(),
    {
        MsQueueWithPeak { queue: new_ms_queue(), buffer: None }
    }

    pub fn push(&mut self, item: u64)
        ensures
            final(self)@ == old(self)@.push(item),
    {
        ms_queue_push(&mut self.queue, item);
        proof {
            if let Some(x) = self.buffer {
                assert(seq![x] + queue_items(self.queue) =~= (seq![x] + queue_items(
                    old(self).queue,
                )).push(item));
            }
        }
    }

    /// Whether more than one item is held; the items and their order stay as
    /// they were (the front item may move into the one-item buffer).
    pub fn has_more_than_one_element(&mut self) -> (r: bool)
        ensures
            r == (old(self)@.len() > 1),
            final(self)@ == old(self)@,
            final(self).held() is Some == (old(self)@.len() >= 1),
            old(self).held() is Some ==> final(self).held() == old(self).held(),
            final(self).queued() == old(self).queued() || (old(self).held() is None
                && final(self).queued() == old(self).queued().drop_first()),
    {
        match self.buffer {
            None => {
                if ms_queue_is_empty(&self.queue) {
                    return false;
                }
                self.buffer = ms_queue_try_pop(&mut self.queue);
                proof {
                    let s = queue_items(old(self).queue);
                    assert(seq![s[0]] + s.drop_first() =~= s);
                }
                !ms_queue_is_empty(&self.queue)
            },
            Some(_) => !ms_queue_is_empty(&self.queue),
        }
    }

    /// Takes the front item, or gives `None` when nothing is held.
    pub fn next(&mut self) -> (r: Option<u64>)
        ensures
            r == next_item(old(self)@),
            final(self)@ == after_next(old(self)@),
    {
        match self.buffer {
            None => ms_queue_try_pop(&mut self.queue),
            Some(_) => {
                let r = self.buffer.take();
                proof {
                    let s = queue_items(self.queue);
                    assert((seq![r.unwrap()] + s).drop_first() =~= s);
                }
                r
            },
        }
    }

    /// Takes every item, front first, leaving nothing held.
    pub fn drain(&mut self) -> (r: Vec<u64>)
        ensures
            r@ == old(self)@,
            final(self)@.len() == 0,
    {
        let mut out: Vec<u64> = Vec::new();
        loop
            invariant
                out@ + self@ == old(self)@,
            decreases self@.len(),
        {
            let ghost before = self@;
            match self.next() {
                Some(x) => {
                    out.push(x);
                    assert(out@ + self@ =~= old(self)@) by {
                        assert(before =~= seq![x] + self@);
                    }
                },
                None => {
                    assert(out@ =~= old(self)@);
                    return out;
                },
            }
        }
    }
}

} // verus!
