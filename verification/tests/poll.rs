use rust_sem::poll::{PollState, Poller};

#[test]
fn a_poller_starts_waiting() {
    assert_eq!(Poller::new(None).state(), PollState::Waiting);
    assert_eq!(Poller::new(Some(3)).state(), PollState::Waiting);
    assert_eq!(Poller::new(Some(0)).state(), PollState::Waiting);
}

#[test]
fn a_poller_may_poll_while_it_has_polls_left() {
    assert!(Poller::new(None).may_poll());
    assert!(Poller::new(Some(1)).may_poll());
    assert!(Poller::new(Some(u64::MAX)).may_poll());
    assert!(!Poller::new(Some(0)).may_poll());
    let mut poller = Poller::new(Some(2));
    assert_eq!(poller.on_poll(false), PollState::Waiting);
    assert!(poller.may_poll());
    assert_eq!(poller.on_poll(false), PollState::TimedOut);
    assert!(!poller.may_poll());
    let mut done = Poller::new(None);
    assert_eq!(done.on_poll(true), PollState::Received);
    assert!(!done.may_poll());
}

#[test]
fn a_message_ends_the_wait() {
    let mut poller = Poller::new(None);
    assert_eq!(poller.on_poll(false), PollState::Waiting);
    assert_eq!(poller.on_poll(false), PollState::Waiting);
    assert_eq!(poller.on_poll(true), PollState::Received);
    assert_eq!(poller.state(), PollState::Received);
}

#[test]
fn received_is_final() {
    let mut poller = Poller::new(Some(2));
    assert_eq!(poller.on_poll(true), PollState::Received);
    assert_eq!(poller.on_poll(false), PollState::Received);
    assert_eq!(poller.on_poll(false), PollState::Received);
    assert_eq!(poller.on_poll(true), PollState::Received);
}

#[test]
fn an_unbounded_poller_never_gives_up() {
    let mut poller = Poller::new(None);
    for _ in 0..10_000 {
        assert_eq!(poller.on_poll(false), PollState::Waiting);
    }
    assert_eq!(poller.on_poll(true), PollState::Received);
}

#[test]
fn a_bounded_poller_gives_up_at_its_bound() {
    let mut poller = Poller::new(Some(3));
    assert_eq!(poller.on_poll(false), PollState::Waiting);
    assert_eq!(poller.on_poll(false), PollState::Waiting);
    assert_eq!(poller.on_poll(false), PollState::TimedOut);
    assert_eq!(poller.state(), PollState::TimedOut);
}

#[test]
fn timed_out_is_final() {
    let mut poller = Poller::new(Some(1));
    assert_eq!(poller.on_poll(false), PollState::TimedOut);
    assert_eq!(poller.on_poll(true), PollState::TimedOut);
    assert_eq!(poller.on_poll(false), PollState::TimedOut);
}

#[test]
fn the_last_allowed_poll_may_still_bring_the_message() {
    let mut poller = Poller::new(Some(2));
    assert_eq!(poller.on_poll(false), PollState::Waiting);
    assert_eq!(poller.on_poll(true), PollState::Received);
}

#[test]
fn a_bound_of_zero_allows_no_poll() {
    let mut empty = Poller::new(Some(0));
    assert_eq!(empty.on_poll(false), PollState::TimedOut);
    let mut refused = Poller::new(Some(0));
    assert_eq!(refused.on_poll(true), PollState::TimedOut);
    assert_eq!(refused.on_poll(true), PollState::TimedOut);
}

#[test]
fn a_bound_of_zero_leaves_the_channel_alone() {
    let mut channel = rust_sem::channel::make_channel::<i32>();
    assert!(channel.send(7).is_ok());
    let mut poller = Poller::new(Some(0));
    assert_eq!(poller.poll(&mut channel), None);
    assert_eq!(poller.state(), PollState::TimedOut);
    assert_eq!(channel.pending(), 1);
    assert_eq!(poller.poll(&mut channel), None);
    assert_eq!(channel.pending(), 1);
    assert_eq!(channel.try_receive(), Some(7));
}

#[test]
fn a_bounded_poller_asks_the_channel_as_often_as_its_bound() {
    for bound in [0u64, 1, 2, 5] {
        let mut channel = rust_sem::channel::make_channel::<u64>();
        let mut poller = Poller::new(Some(bound));
        let mut asked = 0;
        for _ in 0..10 {
            if poller.may_poll() {
                asked += 1;
            }
            assert_eq!(poller.poll(&mut channel), None);
        }
        assert_eq!(asked, bound);
        assert_eq!(poller.state(), PollState::TimedOut);
        assert!(channel.send(bound).is_ok());
        assert_eq!(poller.poll(&mut channel), None);
        assert_eq!(channel.pending(), 1);
    }
}

#[test]
fn the_largest_bound_counts_down() {
    let mut poller = Poller::new(Some(u64::MAX));
    for _ in 0..1000 {
        assert_eq!(poller.on_poll(false), PollState::Waiting);
    }
}

#[test]
fn polling_a_channel_takes_the_oldest_message() {
    let mut channel = rust_sem::channel::make_channel::<&str>();
    let mut poller = Poller::new(None);
    assert_eq!(poller.poll(&mut channel), None);
    assert_eq!(poller.state(), PollState::Waiting);
    assert!(channel.send("hi").is_ok());
    assert!(channel.send("ho").is_ok());
    assert_eq!(poller.poll(&mut channel), Some("hi"));
    assert_eq!(poller.state(), PollState::Received);
    assert_eq!(channel.pending(), 1);
}

#[test]
fn a_poller_that_has_stopped_takes_no_message() {
    let mut channel = rust_sem::channel::make_channel::<i32>();
    let mut timed_out = Poller::new(Some(1));
    assert_eq!(timed_out.poll(&mut channel), None);
    assert_eq!(timed_out.state(), PollState::TimedOut);
    assert!(channel.send(1).is_ok());
    assert_eq!(timed_out.poll(&mut channel), None);
    assert_eq!(channel.pending(), 1);
    let mut received = Poller::new(Some(5));
    assert_eq!(received.poll(&mut channel), Some(1));
    assert!(channel.send(2).is_ok());
    assert_eq!(received.poll(&mut channel), None);
    assert_eq!(received.state(), PollState::Received);
    assert_eq!(channel.pending(), 1);
}
