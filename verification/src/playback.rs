//! Decisions of the streaming loop that plays the buffered packets to the
//! panel, over and over, until it is told to stop.

use vstd::prelude::*;

verus! {

/// What the streaming loop does next.
#[derive(Clone, Copy, Debug, PartialEq, Eq, Structural)]
pub enum PlayerAction {
    /// Send the buffered packet at this position.
    Send(usize),
    /// Nothing is buffered: check again whether to stop.
    Idle,
    /// Stop streaming.
    Stop,
}

/// Position in the buffered packets of the next one to send.
pub struct Player {
    next: usize,
    count: usize,
}

/// Position reached after `steps` packets were sent from position `start`
/// among `count` packets, going back to the first after the last.
pub open spec fn position_after(start: nat, count: nat, steps: nat) -> nat
    decreases steps,
{
    if steps == 0 {
        start
    } else {
        (position_after(start, count, (steps - 1) as nat) + 1) % count
    }
}

impl Player {
    /// Position of the next packet to send.
    pub closed spec fn next_index(&self) -> nat {
        self.next as nat
    }

    /// Number of buffered packets.
    pub closed spec fn packet_count(&self) -> nat {
        self.count as nat
    }

    /// The position is inside the buffer, when there is one.
    pub open spec fn wf(&self) -> bool {
        self.packet_count() == 0 || self.next_index() < self.packet_count()
    }

    /// A player over `count` buffered packets, about to send the first.
    pub fn new(count: usize) -> (player: Player)
        ensures
            player.wf(),
            player.next_index() == 0,
            player.packet_count() == count,
    {
        Player { next: 0, count }
    }

    /// Decides the next step of the streaming loop, `running` being whether
    /// it may go on. When it may not, the answer is `Stop`; else, with no
    /// packet buffered, `Idle`; else the packet at the current position is
    /// sent and the position moves on, back to the first after the last.
    pub fn step(&mut self, running: bool) -> (action: PlayerAction)
        requires
            old(self).wf(),
        ensures
            final(self).wf(),
            final(self).packet_count() == old(self).packet_count(),
            !running ==> action == PlayerAction::Stop && final(self).next_index() == old(
                self,
            ).next_index(),
            running && old(self).packet_count() == 0 ==> action == PlayerAction::Idle
                && final(self).next_index() == old(self).next_index(),
            running && old(self).packet_count() > 0 ==> action == PlayerAction::Send(
                old(self).next_index() as usize,
            ) && final(self).next_index() == (old(self).next_index() + 1) % old(
                self,
            ).packet_count(),
    {
        if !running {
            return PlayerAction::Stop;
        }
        if self.count == 0 {
            return PlayerAction::Idle;
        }
        let current = self.next;
        self.next = if current + 1 == self.count {
            0
        } else {
            current + 1
        };
        proof {
            if current + 1 == self.count {
                vstd::arithmetic::div_mod::lemma_mod_self_0(self.count as int);
            } else {
                vstd::arithmetic::div_mod::lemma_small_mod((current + 1) as nat, self.count as nat);
            }
        }
        PlayerAction::Send(current)
    }
}

/// Starting from the first packet, the loop sends the buffered packets in
/// order, over and over: after `k` packets sent it stands at `k` modulo
/// the number of packets.
pub proof fn lemma_playback_cycles(count: nat, k: nat)
    requires
        count > 0,
    ensures
        position_after(0, count, k) == k % count,
    decreases k,
{
    if k > 0 {
        lemma_playback_cycles(count, (k - 1) as nat);
        let m = count as int;
        vstd::arithmetic::div_mod::lemma_add_mod_noop((k - 1) as int, 1, m);
        if count == 1 {
            vstd::arithmetic::div_mod::lemma_mod_self_0(1);
        } else {
            vstd::arithmetic::div_mod::lemma_small_mod(1, count);
        }
    } else {
        vstd::arithmetic::div_mod::lemma_small_mod(0, count);
    }
}

/// How long to wait after sending a frame so that frames go out
/// `target_nanos` apart, the sending having taken `elapsed_nanos`: the
/// difference when the sending was quicker, else no wait at all.
pub fn frame_wait(target_nanos: u128, elapsed_nanos: u128) -> (wait: Option<u128>)
    ensures
        target_nanos > elapsed_nanos ==> wait == Some((target_nanos - elapsed_nanos) as u128),
        target_nanos <= elapsed_nanos ==> wait is None,
{
    if target_nanos > elapsed_nanos {
        Some(target_nanos - elapsed_nanos)
    } else {
        None
    }
}

} // verus!
