//! The decisions of the CSMA/CD sender, which puts a message on the line one
//! character at a time.
//!
//! Before each character the sender listens until the channel is free (a draw of 1
//! or 2 out of 1..=4). It then sends the character; a draw of 4 means a collision:
//! the sender notes `c`, reports, waits `2^k + 900` milliseconds after the `k`-th
//! collision and sends again, giving up on the character after eleven collisions.
//! Any other draw means the character went through: the sender notes a line end and
//! reports. The report is the whole log so far.

use vstd::prelude::*;
use crate::hamming::lemma_power2_mono;
use crate::outside::{gen_range_inclusive, power, thread_rng, two_to_the};
use crate::text::push_char;

verus! {

/// The most collisions the sender accepts for one character before it gives up.
pub const MAX_COLLISIONS: usize = 10;

/// A draw of the line's state, at random between 1 and 4.
pub fn draw_line_state() -> (draw: usize)
    ensures
        1 <= draw <= 4,
{
    let mut rng = thread_rng();
    gen_range_inclusive(&mut rng, 1, 4)
}

/// Whether the channel is free for the draw `draw` (1 or 2).
pub fn channel_free(draw: usize) -> (free: bool)
    ensures
        free == (draw == 1 || draw == 2),
{
    draw == 1 || draw == 2
}

/// What the sender does after one attempt to send a character.
pub enum SendAction {
    /// The character went through; report the log.
    Delivered(String),
    /// A collision; report the log, wait the given number of milliseconds, and send
    /// the character again.
    Retry(String, u64),
    /// A collision too many; report the log, wait the given number of milliseconds,
    /// and give up on the character.
    GiveUp(String, u64),
}

/// The sender's state: the log of the message so far, and the collisions of the
/// current character.
pub struct CsmaSender {
    pub log: String,
    pub collisions: usize,
}

/// The wait after the `k`-th collision of a character, in milliseconds.
pub open spec fn backoff_ms(k: nat) -> int {
    power(2, k) + 900
}

impl CsmaSender {
    /// A sender that has sent nothing yet.
    pub fn new() -> (s: Self)
        ensures
            s.log@ == Seq::<char>::empty(),
            s.collisions == 0,
    {
        CsmaSender { log: String::new(), collisions: 0 }
    }

    /// Starts on the next character: no collisions yet, the log as it is.
    pub fn start_character(&mut self)
        ensures
            final(self).collisions == 0,
            final(self).log@ == old(self).log@,
    {
        self.collisions = 0;
    }

    /// The sender's decision after one attempt, given the line's draw `draw`.
    ///
    /// A draw of 4 is a collision: the count goes up by one, the log gets a `c`, and
    /// the log is reported with the wait `2^k + 900` ms for the `k`-th collision; after
    /// more than `MAX_COLLISIONS` collisions the sender gives up, and the log gets
    /// ` send error` and a line end after the report. Any other draw delivers the
    /// character: the log gets a line end and is reported.
    pub fn after_attempt(&mut self, draw: usize) -> (action: SendAction)
        requires
            old(self).collisions <= MAX_COLLISIONS,
        ensures
            draw == 4 ==> {
                let k = old(self).collisions + 1;
                let report = old(self).log@.push('c');
                &&& final(self).collisions == k
                &&& k <= MAX_COLLISIONS ==> (final(self).log@ == report && (action matches SendAction::Retry(
                    r,
                    ms,
                ) && r@ == report && ms == backoff_ms(k as nat)))
                &&& k > MAX_COLLISIONS ==> (final(self).log@ == report + " send error\n"@ && (
                action matches SendAction::GiveUp(r, ms) && r@ == report && ms == backoff_ms(k as nat)))
            },
            draw != 4 ==> {
                &&& final(self).collisions == old(self).collisions
                &&& final(self).log@ == old(self).log@.push('\n')
                &&& action matches SendAction::Delivered(r) && r@ == final(self).log@
            },
    {
        if draw == 4 {
            self.collisions = self.collisions + 1;
            push_char(&mut self.log, 'c');
            let report = self.log.clone();
            proof {
                lemma_power2_mono(self.collisions as nat, 11);
                reveal_with_fuel(power, 12);
            }
            let wait = two_to_the(self.collisions) + 900;
            if self.collisions > MAX_COLLISIONS {
                self.log.append(" send error\n");
                SendAction::GiveUp(report, wait)
            } else {
                SendAction::Retry(report, wait)
            }
        } else {
            push_char(&mut self.log, '\n');
            SendAction::Delivered(self.log.clone())
        }
    }
}

} // verus!
