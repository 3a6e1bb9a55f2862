//! The queue of jobs: a bounded channel of job numbers.

use crossbeam_channel::{Receiver, Sender};
use vstd::prelude::*;

verus! {

/// How many jobs wait at most, where nothing else is asked for.
pub const DEFAULT_CAPACITY: usize = 10_000;

/// The largest capacity that a channel can be made with, as far as its slots of sixteen bytes each
/// fit in memory.
pub open spec fn capacity_fits(capacity: usize) -> bool {
    16 * capacity <= isize::MAX
}

// ---------------------------------------------------------------------------
// The channel
// ---------------------------------------------------------------------------

/// The sending end of a channel.
#[verifier::external_type_specification]
#[verifier::external_body]
#[verifier::reject_recursive_types(T)]
pub struct ExSender<T>(crossbeam_channel::Sender<T>);

/// The receiving end of a channel.
#[verifier::external_type_specification]
#[verifier::external_body]
#[verifier::reject_recursive_types(T)]
pub struct ExReceiver<T>(crossbeam_channel::Receiver<T>);

/// The numbers in a channel, the oldest first.
pub uninterp spec fn channel_contents(receiver: Receiver<u64>) -> Seq<u64>;

/// How many numbers a channel holds at most.
pub uninterp spec fn channel_capacity(receiver: Receiver<u64>) -> nat;

/// Whether the two ends belong to one channel.
pub uninterp spec fn channel_joins(sender: Sender<u64>, receiver: Receiver<u64>) -> bool;

/// `crossbeam_channel::bounded`: an empty channel with the capacity that was asked for. It panics
/// where the slots do not fit in memory.
#[verifier::external_body]
fn open_channel(capacity: usize) -> (r: (Sender<u64>, Receiver<u64>))
    requires
        capacity_fits(capacity),
    ensures
        channel_joins(r.0, r.1),
        channel_contents(r.1) == Seq::<u64>::empty(),
        channel_capacity(r.1) == capacity,
{
    crossbeam_channel::bounded(capacity)
}

/// `Sender::send`, where there is room: the number goes behind the others. A full channel would
/// block.
#[verifier::external_body]
fn send(sender: &Sender<u64>, receiver: &mut Receiver<u64>, id: u64) -> (r: bool)
    requires
        channel_joins(*sender, *old(receiver)),
        channel_contents(*old(receiver)).len() < channel_capacity(*old(receiver)),
    ensures
        r,
        channel_joins(*sender, *final(receiver)),
        channel_contents(*final(receiver)) == channel_contents(*old(receiver)).push(id),
        channel_capacity(*final(receiver)) == channel_capacity(*old(receiver)),
{
    sender.send(id).is_ok()
}

/// `Sender::try_send`: the number goes behind the others where there is room, and nowhere else.
#[verifier::external_body]
fn try_send(sender: &Sender<u64>, receiver: &mut Receiver<u64>, id: u64) -> (r: bool)
    requires
        channel_joins(*sender, *old(receiver)),
    ensures
        r == (channel_contents(*old(receiver)).len() < channel_capacity(*old(receiver))),
        channel_joins(*sender, *final(receiver)),
        channel_contents(*final(receiver)) == if r {
            channel_contents(*old(receiver)).push(id)
        } else {
            channel_contents(*old(receiver))
        },
        channel_capacity(*final(receiver)) == channel_capacity(*old(receiver)),
{
    sender.try_send(id).is_ok()
}

/// `Receiver::recv`, where something is there: the oldest number leaves the channel. An empty
/// channel would block.
#[verifier::external_body]
fn recv(sender: &Sender<u64>, receiver: &mut Receiver<u64>) -> (r: Option<u64>)
    requires
        channel_joins(*sender, *old(receiver)),
        channel_contents(*old(receiver)).len() > 0,
    ensures
        r == Some(channel_contents(*old(receiver)).first()),
        channel_joins(*sender, *final(receiver)),
        channel_contents(*final(receiver)) == channel_contents(*old(receiver)).drop_first(),
        channel_capacity(*final(receiver)) == channel_capacity(*old(receiver)),
{
    receiver.recv().ok()
}

/// `Receiver::try_recv`: the oldest number leaves the channel, if there is one.
#[verifier::external_body]
fn try_recv(sender: &Sender<u64>, receiver: &mut Receiver<u64>) -> (r: Option<u64>)
    requires
        channel_joins(*sender, *old(receiver)),
    ensures
        channel_contents(*old(receiver)).len() == 0 ==> r is None && channel_contents(
            *final(receiver),
        ) == channel_contents(*old(receiver)),
        channel_contents(*old(receiver)).len() > 0 ==> r == Some(
            channel_contents(*old(receiver)).first(),
        ) && channel_contents(*final(receiver)) == channel_contents(*old(receiver)).drop_first(),
        channel_joins(*sender, *final(receiver)),
        channel_capacity(*final(receiver)) == channel_capacity(*old(receiver)),
{
    receiver.try_recv().ok()
}

/// `Receiver::is_empty`: whether the channel holds nothing.
#[verifier::external_body]
fn channel_is_empty(receiver: &Receiver<u64>) -> (r: bool)
    ensures
        r == (channel_contents(*receiver).len() == 0),
{
    receiver.is_empty()
}

/// `Receiver::len`: how many numbers the channel holds.
#[verifier::external_body]
fn channel_len(receiver: &Receiver<u64>) -> (r: usize)
    ensures
        r == channel_contents(*receiver).len(),
{
    receiver.len()
}

// ---------------------------------------------------------------------------
// The queue
// ---------------------------------------------------------------------------

/// A bounded queue of job numbers. It owns both ends of its channel, so that what it holds changes
/// through its methods alone.
pub struct JobQueue {
    sender: Sender<u64>,
    receiver: Receiver<u64>,
}

impl View for JobQueue {
    type V = Seq<u64>;

    closed spec fn view(&self) -> Seq<u64> {
        channel_contents(self.receiver)
    }
}

impl JobQueue {
    /// How many jobs the queue holds at most.
    pub closed spec fn capacity(self) -> nat {
        channel_capacity(self.receiver)
    }

    /// The two ends of the queue belong together.
    pub closed spec fn wf(self) -> bool {
        channel_joins(self.sender, self.receiver)
    }

    /// An empty queue of the usual capacity.
    pub fn new() -> (r: Self)
        ensures
            r.wf(),
            r@ == Seq::<u64>::empty(),
            r.capacity() == DEFAULT_CAPACITY,
    {
        Self::with_capacity(DEFAULT_CAPACITY)
    }

    /// An empty queue for so many jobs.
    pub fn with_capacity(capacity: usize) -> (r: Self)
        requires
            capacity_fits(capacity),
        ensures
            r.wf(),
            r@ == Seq::<u64>::empty(),
            r.capacity() == capacity,
    {
        let (sender, receiver) = open_channel(capacity);
        JobQueue { sender, receiver }
    }

    /// Puts a job behind the others, where there is room.
    pub fn push(&mut self, id: u64) -> (r: bool)
        requires
            old(self).wf(),
            old(self)@.len() < old(self).capacity(),
        ensures
            final(self).wf(),
            r,
            final(self)@ == old(self)@.push(id),
            final(self).capacity() == old(self).capacity(),
    {
        send(&self.sender, &mut self.receiver, id)
    }

    /// Puts a job behind the others if there is room, and says whether there was.
    pub fn try_push(&mut self, id: u64) -> (r: bool)
        requires
            old(self).wf(),
        ensures
            final(self).wf(),
            r == (old(self)@.len() < old(self).capacity()),
            final(self)@ == if r {
                old(self)@.push(id)
            } else {
                old(self)@
            },
            final(self).capacity() == old(self).capacity(),
    {
        try_send(&self.sender, &mut self.receiver, id)
    }

    /// Takes the oldest job, where there is one.
    pub fn pop(&mut self) -> (r: Option<u64>)
        requires
            old(self).wf(),
            old(self)@.len() > 0,
        ensures
            final(self).wf(),
            r == Some(old(self)@.first()),
            final(self)@ == old(self)@.drop_first(),
            final(self).capacity() == old(self).capacity(),
    {
        recv(&self.sender, &mut self.receiver)
    }

    /// Takes the oldest job, if there is one.
    pub fn try_pop(&mut self) -> (r: Option<u64>)
        requires
            old(self).wf(),
        ensures
            final(self).wf(),
            old(self)@.len() == 0 ==> r is None && final(self)@ == old(self)@,
            old(self)@.len() > 0 ==> r == Some(old(self)@.first()) && final(self)@ == old(self)@.drop_first(),
            final(self).capacity() == old(self).capacity(),
    {
        try_recv(&self.sender, &mut self.receiver)
    }

    /// Whether no job waits.
    pub fn is_empty(&self) -> (r: bool)
        ensures
            r == (self@.len() == 0),
    {
        channel_is_empty(&self.receiver)
    }

    /// How many jobs wait.
    pub fn len(&self) -> (r: usize)
        ensures
            r == self@.len(),
    {
        channel_len(&self.receiver)
    }
}

impl Default for JobQueue {
    fn default() -> (r: Self)
        ensures
            r.wf(),
            r@ == Seq::<u64>::empty(),
            r.capacity() == DEFAULT_CAPACITY,
    {
        Self::new()
    }
}

/// The queue hands out jobs in the order in which they came: a job goes in behind all others, and
/// the first one comes out. A full queue takes none, and an empty one has none.
pub proof fn lemma_first_in_first_out(
    a: &mut JobQueue,
    b: &mut JobQueue,
    c: &mut JobQueue,
    d: &mut JobQueue,
    id: u64,
    pushed: bool,
    tried: bool,
    popped: Option<u64>,
    got: Option<u64>,
)
    requires
        old(a).wf(),
        old(b).wf(),
        old(c).wf(),
        old(d).wf(),
        old(a)@.len() < old(a).capacity(),
        old(c)@.len() > 0,
        call_ensures(JobQueue::push, (a, id), pushed),
        call_ensures(JobQueue::try_push, (b, id), tried),
        call_ensures(JobQueue::pop, (c,), popped),
        call_ensures(JobQueue::try_pop, (d,), got),
    ensures
        pushed,
        final(a)@ == old(a)@ + seq![id],
        tried <==> old(b)@.len() < old(b).capacity(),
        final(b)@ == if tried {
            old(b)@ + seq![id]
        } else {
            old(b)@
        },
        popped is Some && old(c)@ == seq![popped.unwrap()] + final(c)@,
        got is None <==> old(d)@.len() == 0,
        got is Some ==> old(d)@ == seq![got.unwrap()] + final(d)@,
        got is None ==> final(d)@ == old(d)@,
{
    assert(old(a)@.push(id) =~= old(a)@ + seq![id]);
    assert(old(b)@.push(id) =~= old(b)@ + seq![id]);
    assert(old(c)@ =~= seq![old(c)@.first()] + old(c)@.drop_first());
    if got is Some {
        assert(old(d)@ =~= seq![old(d)@.first()] + old(d)@.drop_first());
    }
}

/// The queue knows how much it holds, and holds nothing at first.
pub proof fn lemma_queue_knows_its_length(
    q: &JobQueue,
    n: usize,
    empty: bool,
    capacity: usize,
    new: JobQueue,
)
    requires
        capacity_fits(capacity),
        call_ensures(JobQueue::len, (q,), n),
        call_ensures(JobQueue::is_empty, (q,), empty),
        call_ensures(JobQueue::with_capacity, (capacity,), new),
    ensures
        n == q@.len(),
        empty <==> n == 0,
        new@.len() == 0 && new.capacity() == capacity,
{
}

} // verus!
