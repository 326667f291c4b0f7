//! The consumer that polls: it asks a channel for a message without waiting,
//! does other work where none has come, and asks again, until the message
//! comes or a bound on the number of polls is reached.

use crate::channel::{Channel, ChannelOp};
use vstd::prelude::*;

verus! {

/// Where a consumer stands that polls a channel for one message.
#[derive(Clone, Copy, Debug, PartialEq, Eq, Structural)]
pub enum PollState {
    /// No message has come yet; the consumer goes on polling.
    Waiting,
    /// A poll has brought the message; the consumer polls no more.
    Received,
    /// The polls are used up and no message has come; the consumer polls no more.
    TimedOut,
}

/// What a poller is, seen from outside.
pub struct PollerState {
    pub state: PollState,
    /// How many polls the poller may still make: its bound, less the polls it
    /// has made. `None` where it has no bound.
    pub remaining: Option<nat>,
}

impl PollerState {
    /// A poller that has not polled yet, with `max_polls` as its bound.
    pub open spec fn start(max_polls: Option<nat>) -> PollerState {
        PollerState { state: PollState::Waiting, remaining: max_polls }
    }

    /// The poller is waiting and has a poll left: its next poll asks the channel.
    pub open spec fn may_poll(self) -> bool {
        self.state == PollState::Waiting && self.remaining != Some(0nat)
    }

    /// The poller after one more step of its loop. Where it may poll, the
    /// step is a poll, which brought a message or did not: with a message the
    /// poller has received; without one it has timed out if that was its
    /// last poll, and waits on if not. Where it is waiting with no poll
    /// left, it times out and the channel is not asked. Where it has
    /// stopped, it stays as it is.
    pub open spec fn after_poll(self, got_message: bool) -> PollerState {
        if self.state != PollState::Waiting {
            self
        } else {
            match self.remaining {
                None => if got_message {
                    PollerState { state: PollState::Received, ..self }
                } else {
                    self
                },
                Some(left) => if left == 0 {
                    PollerState { state: PollState::TimedOut, ..self }
                } else if got_message {
                    PollerState { state: PollState::Received, remaining: Some((left - 1) as nat) }
                } else if left == 1 {
                    PollerState { state: PollState::TimedOut, remaining: Some(0) }
                } else {
                    PollerState { state: PollState::Waiting, remaining: Some((left - 1) as nat) }
                },
            }
        }
    }

    /// The poller after the steps `polls`, each of which brought a message or did not.
    pub open spec fn after_polls(self, polls: Seq<bool>) -> PollerState
        decreases polls.len(),
    {
        if polls.len() == 0 {
            self
        } else {
            self.after_polls(polls.drop_last()).after_poll(polls.last())
        }
    }

    /// How many of the steps `polls` asked the channel.
    pub open spec fn asked_in(self, polls: Seq<bool>) -> nat
        decreases polls.len(),
    {
        if polls.len() == 0 {
            0
        } else {
            self.asked_in(polls.drop_last()) + if self.after_polls(polls.drop_last()).may_poll() {
                1nat
            } else {
                0nat
            }
        }
    }
}

/// The loop of a consumer that polls a channel until a message comes, or
/// until a bound on the number of polls is reached.
pub struct Poller {
    state: PollState,
    remaining: Option<u64>,
}

impl View for Poller {
    type V = PollerState;

    closed spec fn view(&self) -> PollerState {
        PollerState {
            state: self.state,
            remaining: match self.remaining {
                None => None,
                Some(left) => Some(left as nat),
            },
        }
    }
}

impl Poller {
    /// A poller that may make `max_polls` polls, or any number where
    /// `max_polls` is `None`. With a bound of zero it makes none.
    pub fn new(max_polls: Option<u64>) -> (poller: Poller)
        ensures
            poller@ == PollerState::start(
                match max_polls {
                    None => None,
                    Some(n) => Some(n as nat),
                },
            ),
    {
        Poller { state: PollState::Waiting, remaining: max_polls }
    }

    /// Where the poller stands.
    pub fn state(&self) -> (state: PollState)
        ensures
            state == self@.state,
    {
        self.state
    }

    /// Whether the next poll asks the channel.
    pub fn may_poll(&self) -> (b: bool)
        ensures
            b == self@.may_poll(),
    {
        match (self.state, self.remaining) {
            (PollState::Waiting, None) => true,
            (PollState::Waiting, Some(left)) => left != 0,
            _ => false,
        }
    }

    /// One step of the loop on `channel`. Where the poller may poll, it asks
    /// the channel and takes the oldest message, if there is one. Where it
    /// may not, the channel is left alone: a poller that has stopped stays as
    /// it is, and one that is waiting with no poll left times out.
    pub fn poll<T>(&mut self, channel: &mut Channel<T>) -> (r: Option<T>)
        ensures
            old(self)@.may_poll() ==> r == old(channel)@.oldest() && final(channel)@ == old(
                channel,
            )@.after(ChannelOp::Receive),
            !old(self)@.may_poll() ==> r.is_none() && final(channel)@ == old(channel)@,
            final(self)@ == old(self)@.after_poll(r.is_some()),
    {
        if self.may_poll() {
            let r = channel.try_receive();
            self.on_poll(r.is_some());
            r
        } else {
            self.on_poll(false);
            None
        }
    }

    /// One step of the loop for a caller that asks the channel itself, which
    /// it does only where `may_poll` holds: `got_message` says what the poll
    /// brought. Where `may_poll` does not hold, `got_message` is not looked at.
    pub fn on_poll(&mut self, got_message: bool) -> (state: PollState)
        ensures
            final(self)@ == old(self)@.after_poll(got_message),
            state == final(self)@.state,
    {
        match self.state {
            PollState::Waiting => {
                match self.remaining {
                    None => {
                        if got_message {
                            self.state = PollState::Received;
                        }
                    },
                    Some(left) => {
                        if left == 0 {
                            self.state = PollState::TimedOut;
                        } else {
                            self.remaining = Some(left - 1);
                            if got_message {
                                self.state = PollState::Received;
                            } else if left == 1 {
                                self.state = PollState::TimedOut;
                            }
                        }
                    },
                }
            },
            _ => {},
        }
        self.state
    }
}

/// A poller without a bound never times out, whatever the polls bring.
pub proof fn lemma_unbounded_never_times_out(polls: Seq<bool>)
    ensures
        PollerState::start(None).after_polls(polls).state != PollState::TimedOut,
        PollerState::start(None).after_polls(polls).remaining == None::<nat>,
    decreases polls.len(),
{
    if polls.len() > 0 {
        lemma_unbounded_never_times_out(polls.drop_last());
    }
}

/// A poller with the bound `n` asks the channel at most `n` times, whatever
/// the polls bring and however often it is stepped: what it may still ask
/// and what it has asked are `n` together. With a bound of zero it never asks.
pub proof fn lemma_bound_is_kept(n: nat, polls: Seq<bool>)
    ensures
        PollerState::start(Some(n)).after_polls(polls).remaining == Some(
            (n - PollerState::start(Some(n)).asked_in(polls)) as nat,
        ),
        PollerState::start(Some(n)).asked_in(polls) <= n,
    decreases polls.len(),
{
    if polls.len() > 0 {
        lemma_bound_is_kept(n, polls.drop_last());
    }
}

/// Where no poll brings a message, a poller with the bound `n` waits until it
/// has asked the channel `n` times, and has timed out from then on: after
/// `k` steps it has asked `k` times where `k <= n`, and `n` times otherwise;
/// it has timed out where `k >= n` and a step was made. A poller without a
/// bound waits on.
pub proof fn lemma_poll_outcome(max_polls: Option<nat>, polls: Seq<bool>)
    requires
        forall|i: int| 0 <= i < polls.len() ==> !polls[i],
    ensures
        PollerState::start(max_polls).after_polls(polls) == (match max_polls {
            None => PollerState::start(max_polls),
            Some(n) => if polls.len() == 0 {
                PollerState::start(max_polls)
            } else if polls.len() >= n {
                PollerState { state: PollState::TimedOut, remaining: Some(0) }
            } else {
                PollerState {
                    state: PollState::Waiting,
                    remaining: Some((n - polls.len()) as nat),
                }
            },
        }),
        PollerState::start(max_polls).asked_in(polls) == (match max_polls {
            None => polls.len(),
            Some(n) => if polls.len() <= n {
                polls.len()
            } else {
                n
            },
        }),
    decreases polls.len(),
{
    if polls.len() > 0 {
        lemma_poll_outcome(max_polls, polls.drop_last());
    }
}

/// Where the first message comes with step `k`, the poller has received it
/// exactly if that step was a poll: if it has no bound, or a bound above `k`.
/// Else it has timed out. Later steps change nothing.
pub proof fn lemma_first_message_decides(max_polls: Option<nat>, polls: Seq<bool>, k: int)
    requires
        0 <= k < polls.len(),
        polls[k],
        forall|i: int| 0 <= i < k ==> !polls[i],
    ensures
        PollerState::start(max_polls).after_polls(polls).state == (match max_polls {
            None => PollState::Received,
            Some(n) => if k < n {
                PollState::Received
            } else {
                PollState::TimedOut
            },
        }),
    decreases polls.len(),
{
    let before = polls.drop_last();
    if k == polls.len() - 1 {
        lemma_poll_outcome(max_polls, before);
    } else {
        lemma_first_message_decides(max_polls, before, k);
    }
}

} // verus!
