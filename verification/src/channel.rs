//! The channel of the hand-off pattern: a first-in, first-out queue of
//! messages between any number of producer ends and one consumer. The type
//! is the queue alone; a program that shares it between threads puts it
//! behind a lock and waits where `would_block` says so.

use std::collections::VecDeque;
use vstd::prelude::*;

verus! {

/// No producer end of the channel is open, and no message is buffered.
#[derive(Clone, Copy, Debug, PartialEq, Eq, Structural)]
pub struct ChannelClosed;

/// A message that could not be sent, handed back to its sender.
#[derive(Debug)]
pub struct SendError<T>(pub T);

/// What a channel is, seen from outside: the messages that were sent and not
/// yet received, oldest first, and the number of producer ends that are open.
pub struct ChannelState<T> {
    pub buffered: Seq<T>,
    pub senders: nat,
}

/// One operation on a channel.
pub enum ChannelOp<T> {
    /// A producer sends a message.
    Send(T),
    /// The consumer takes the oldest message, if there is one.
    Receive,
    /// A producer end is cloned.
    CloneSender,
    /// A producer end is closed.
    DropSender,
}

impl<T> ChannelState<T> {
    /// The channel as `make_channel` hands it out.
    pub open spec fn fresh() -> Self {
        ChannelState { buffered: Seq::empty(), senders: 1 }
    }

    /// The oldest message that is buffered, if there is one.
    pub open spec fn oldest(self) -> Option<T> {
        if self.buffered.len() > 0 {
            Some(self.buffered[0])
        } else {
            None
        }
    }

    /// A receive that waits would have to wait for another unit: nothing is
    /// buffered, and a producer end is still open.
    pub open spec fn would_block(self) -> bool {
        self.buffered.len() == 0 && self.senders > 0
    }

    /// The channel after `op`. A message is taken in, and a producer end is
    /// cloned or closed, only while a producer end is open; the oldest
    /// message is taken out where there is one.
    pub open spec fn after(self, op: ChannelOp<T>) -> Self {
        match op {
            ChannelOp::Send(value) => if self.senders > 0 {
                ChannelState { buffered: self.buffered.push(value), ..self }
            } else {
                self
            },
            ChannelOp::Receive => if self.buffered.len() > 0 {
                ChannelState { buffered: self.buffered.skip(1), ..self }
            } else {
                self
            },
            ChannelOp::CloneSender => if self.senders > 0 {
                ChannelState { senders: self.senders + 1, ..self }
            } else {
                self
            },
            ChannelOp::DropSender => if self.senders > 0 {
                ChannelState { senders: (self.senders - 1) as nat, ..self }
            } else {
                self
            },
        }
    }
}

/// An unbounded first-in, first-out channel with any number of producer ends
/// and one consumer end.
pub struct Channel<T> {
    queue: VecDeque<T>,
    senders: usize,
}

impl<T> View for Channel<T> {
    type V = ChannelState<T>;

    closed spec fn view(&self) -> ChannelState<T> {
        ChannelState { buffered: self.queue@, senders: self.senders as nat }
    }
}

/// A new channel: nothing buffered, one producer end open.
pub fn make_channel<T>() -> (channel: Channel<T>)
    ensures
        channel@ == ChannelState::<T>::fresh(),
{
    Channel { queue: VecDeque::new(), senders: 1 }
}

impl<T> Channel<T> {
    /// The number of messages that are buffered.
    pub fn pending(&self) -> (n: usize)
        ensures
            n == self@.buffered.len(),
    {
        self.queue.len()
    }

    /// The number of producer ends that are open.
    pub fn sender_count(&self) -> (n: usize)
        ensures
            n == self@.senders,
    {
        self.senders
    }

    /// Whether a receive that waits would have to wait for another unit.
    pub fn would_block(&self) -> (b: bool)
        ensures
            b == self@.would_block(),
    {
        self.queue.len() == 0 && self.senders > 0
    }

    /// Opens one more producer end, as a clone of one that is open.
    pub fn clone_sender(&mut self) -> (r: Result<(), ChannelClosed>)
        requires
            old(self)@.senders < usize::MAX,
        ensures
            r.is_ok() <==> old(self)@.senders > 0,
            final(self)@ == old(self)@.after(ChannelOp::CloneSender),
    {
        if self.senders == 0 {
            Err(ChannelClosed)
        } else {
            self.senders = self.senders + 1;
            Ok(())
        }
    }

    /// Closes one producer end, if one is open.
    pub fn drop_sender(&mut self)
        ensures
            final(self)@ == old(self)@.after(ChannelOp::DropSender),
    {
        if self.senders > 0 {
            self.senders = self.senders - 1;
        }
    }

    /// Sends `value` through an open producer end: it is buffered behind all
    /// that was sent before. Where no producer end is open, `value` comes back.
    pub fn send(&mut self, value: T) -> (r: Result<(), SendError<T>>)
        ensures
            old(self)@.senders > 0 ==> r.is_ok(),
            old(self)@.senders == 0 ==> r == Err::<(), SendError<T>>(SendError(value)),
            final(self)@ == old(self)@.after(ChannelOp::Send(value)),
    {
        if self.senders == 0 {
            Err(SendError(value))
        } else {
            self.queue.push_back(value);
            Ok(())
        }
    }

    /// Takes the oldest buffered message, without waiting: `None` where
    /// nothing is buffered.
    pub fn try_receive(&mut self) -> (r: Option<T>)
        ensures
            r == old(self)@.oldest(),
            final(self)@ == old(self)@.after(ChannelOp::Receive),
    {
        self.queue.pop_front()
    }

    /// Takes the oldest buffered message; fails where nothing is buffered and
    /// no producer end is open. Waiting for a producer is the caller's part:
    /// the call is for a channel on which a receive would not block.
    pub fn receive(&mut self) -> (r: Result<T, ChannelClosed>)
        requires
            !old(self)@.would_block(),
        ensures
            r == match old(self)@.oldest() {
                Some(value) => Ok::<T, ChannelClosed>(value),
                None => Err::<T, ChannelClosed>(ChannelClosed),
            },
            final(self)@ == old(self)@.after(ChannelOp::Receive),
    {
        match self.try_receive() {
            Some(value) => Ok(value),
            None => Err(ChannelClosed),
        }
    }

    /// Takes all buffered messages, oldest first.
    pub fn drain(&mut self) -> (received: Vec<T>)
        ensures
            received@ == old(self)@.buffered,
            final(self)@ == (ChannelState { buffered: Seq::empty(), ..old(self)@ }),
    {
        let mut received: Vec<T> = Vec::new();
        loop
            invariant
                received@ + self@.buffered == old(self)@.buffered,
                self@.senders == old(self)@.senders,
            ensures
                self@.buffered.len() == 0,
            decreases self@.buffered.len(),
        {
            match self.try_receive() {
                Some(value) => {
                    received.push(value);
                },
                None => {
                    break ;
                },
            }
        }
        assert(self@.buffered =~= Seq::<T>::empty());
        received
    }
}

/// The sum of the values.
pub open spec fn sum_of(values: Seq<i32>) -> int
    decreases values.len(),
{
    if values.len() == 0 {
        0
    } else {
        sum_of(values.drop_last()) + values.last()
    }
}

/// The sum of the values that a consumer has received.
pub fn sum_received(values: &Vec<i32>) -> (total: i128)
    ensures
        total == sum_of(values@),
{
    let mut total: i128 = 0;
    let mut i: usize = 0;
    while i < values.len()
        invariant
            0 <= i <= values.len(),
            total == sum_of(values@.take(i as int)),
        decreases values.len() - i,
    {
        proof {
            lemma_sum_of_bounds(values@.take(i as int));
            assert(values@.take(i + 1).drop_last() =~= values@.take(i as int));
        }
        total = total + values[i] as i128;
        i = i + 1;
    }
    assert(values@.take(values.len() as int) =~= values@);
    total
}

/// Fan-in by draining: takes all that is buffered and returns its sum.
pub fn drain_total(channel: &mut Channel<i32>) -> (total: i128)
    ensures
        total == sum_of(old(channel)@.buffered),
        final(channel)@ == (ChannelState { buffered: Seq::empty(), ..old(channel)@ }),
{
    let received = channel.drain();
    sum_received(&received)
}

/// Fan-in by count: receives `n` messages and returns their sum; fails where
/// the channel closes before the `n` messages have come.
pub fn receive_total(channel: &mut Channel<i32>, n: usize) -> (r: Result<i128, ChannelClosed>)
    requires
        old(channel)@.buffered.len() >= n || old(channel)@.senders == 0,
    ensures
        old(channel)@.buffered.len() >= n ==> (r matches Ok(total) && total == sum_of(
            old(channel)@.buffered.take(n as int),
        )) && final(channel)@ == (ChannelState {
            buffered: old(channel)@.buffered.skip(n as int),
            ..old(channel)@
        }),
        old(channel)@.buffered.len() < n ==> r.is_err() && final(channel)@ == (ChannelState {
            buffered: Seq::empty(),
            ..old(channel)@
        }),
{
    let ghost start = channel@.buffered;
    let mut total: i128 = 0;
    let mut i: usize = 0;
    while i < n
        invariant
            0 <= i <= n,
            start == old(channel)@.buffered,
            start.len() >= n || channel@.senders == 0,
            channel@.senders == old(channel)@.senders,
            i <= start.len(),
            channel@.buffered == start.skip(i as int),
            total == sum_of(start.take(i as int)),
        decreases n - i,
    {
        proof {
            lemma_sum_of_bounds(start.take(i as int));
        }
        match channel.receive() {
            Ok(value) => {
                proof {
                    assert(start.take(i + 1).drop_last() =~= start.take(i as int));
                }
                total = total + value as i128;
            },
            Err(closed) => {
                assert(channel@.buffered =~= Seq::<i32>::empty());
                return Err(closed);
            },
        }
        i = i + 1;
    }
    Ok(total)
}

/// The state of a channel, fresh from `make_channel`, after the operations
/// `ops` in that order.
pub open spec fn state_after<T>(ops: Seq<ChannelOp<T>>) -> ChannelState<T>
    decreases ops.len(),
{
    if ops.len() == 0 {
        ChannelState::fresh()
    } else {
        state_after(ops.drop_last()).after(ops.last())
    }
}

/// The messages that the channel took in during `ops`, in the order of their sends.
pub open spec fn sent_in<T>(ops: Seq<ChannelOp<T>>) -> Seq<T>
    decreases ops.len(),
{
    if ops.len() == 0 {
        Seq::empty()
    } else {
        let earlier = sent_in(ops.drop_last());
        match ops.last() {
            ChannelOp::Send(value) => if state_after(ops.drop_last()).senders > 0 {
                earlier.push(value)
            } else {
                earlier
            },
            _ => earlier,
        }
    }
}

/// The messages that the consumer took out during `ops`, in the order it took them.
pub open spec fn received_in<T>(ops: Seq<ChannelOp<T>>) -> Seq<T>
    decreases ops.len(),
{
    if ops.len() == 0 {
        Seq::empty()
    } else {
        let earlier = received_in(ops.drop_last());
        match (ops.last(), state_after(ops.drop_last()).oldest()) {
            (ChannelOp::Receive, Some(value)) => earlier.push(value),
            _ => earlier,
        }
    }
}

/// Whatever the producers and the consumer do, and in whatever order: what was
/// received, followed by what is still buffered, is what was sent, in the
/// order in which it was sent. Nothing is lost, doubled or overtaken.
pub proof fn lemma_channel_keeps_messages<T>(ops: Seq<ChannelOp<T>>)
    ensures
        received_in(ops) + state_after(ops).buffered == sent_in(ops),
    decreases ops.len(),
{
    if ops.len() > 0 {
        lemma_channel_keeps_messages(ops.drop_last());
    }
}

/// Fan-in: where the sends of `ops` carried the values `values`, each once and
/// in any order, and the consumer has emptied the channel, it has received
/// exactly those values, each once.
pub proof fn lemma_fan_in_receives_what_was_sent<T>(values: Seq<T>, ops: Seq<ChannelOp<T>>)
    requires
        sent_in(ops).to_multiset() == values.to_multiset(),
        state_after(ops).buffered.len() == 0,
    ensures
        received_in(ops).to_multiset() == values.to_multiset(),
{
    lemma_channel_keeps_messages(ops);
}

/// The sum does not depend on the order of the values: two sequences that
/// hold the same values, each as often, have the same sum.
pub proof fn lemma_sum_of_is_independent_of_order(a: Seq<i32>, b: Seq<i32>)
    requires
        a.to_multiset() == b.to_multiset(),
    ensures
        sum_of(a) == sum_of(b),
    decreases a.len(),
{
    a.to_multiset_ensures();
    b.to_multiset_ensures();
    if a.len() > 0 {
        // The last value of `a` stands somewhere in `b`: without it, the two
        // hold the same values again.
        let x = a.last();
        assert(a.to_multiset().count(x) > 0);
        let j = choose|j: int| 0 <= j < b.len() && b[j] == x;
        assert(a.drop_last() =~= a.remove(a.len() - 1));
        lemma_sum_of_is_independent_of_order(a.drop_last(), b.remove(j));
        lemma_sum_of_remove(b, j);
    }
}

/// Fan-in of numbers: where the sends of `ops` carried the values `values`,
/// each once and in any order, and the consumer has emptied the channel, what
/// it has received sums to the sum of `values`.
pub proof fn lemma_fan_in_total(values: Seq<i32>, ops: Seq<ChannelOp<i32>>)
    requires
        sent_in(ops).to_multiset() == values.to_multiset(),
        state_after(ops).buffered.len() == 0,
    ensures
        sum_of(received_in(ops)) == sum_of(values),
{
    lemma_fan_in_receives_what_was_sent(values, ops);
    lemma_sum_of_is_independent_of_order(received_in(ops), values);
}

proof fn lemma_sum_of_remove(values: Seq<i32>, i: int)
    requires
        0 <= i < values.len(),
    ensures
        sum_of(values) == sum_of(values.remove(i)) + values[i],
    decreases values.len(),
{
    if i < values.len() - 1 {
        lemma_sum_of_remove(values.drop_last(), i);
        assert(values.remove(i).drop_last() =~= values.drop_last().remove(i));
    }
}

proof fn lemma_sum_of_bounds(values: Seq<i32>)
    ensures
        -0x8000_0000 * values.len() <= sum_of(values) <= 0x7fff_ffff * values.len(),
    decreases values.len(),
{
    if values.len() > 0 {
        lemma_sum_of_bounds(values.drop_last());
    }
}

} // verus!
