//! Anti-replay: a per-sender sliding window over authenticated counters.
//!
//! A bounded cache of recently seen message ids stops flood loops, but a frame
//! captured now and re-injected after the cache has turned over would be
//! delivered a second time. The window closes that: every sender stamps each
//! frame with a monotonic `counter` inside an `epoch`, both authenticated.
//!
//! The window must be consulted **after** the AEAD verifies, never before.
//! Checking first would let forged high counters poison the window and lock out
//! the real sender.
//!
//! BLE is lossy and unordered, so the window keeps the highest counter seen plus
//! a 64-bit bitmap of the counters just below it: reordered frames inside that
//! reach are accepted, each once. `epoch` is the sender's session; a higher one
//! starts a fresh window, a lower one is refused.
use vstd::prelude::*;

verus! {

/// Width of the reorder tolerance, in frames.
pub const WINDOW: u64 = 64;

/// What the window says of one frame.
#[derive(Debug, Clone, Copy, PartialEq, Eq, Structural)]
pub enum ReplayVerdict {
    /// Fresh. The window has been advanced to take in this counter.
    Fresh,
    /// From a session older than the one already seen from this sender.
    StaleEpoch,
    /// Older than the window can vouch for; indistinguishable from a replay.
    TooOld,
    /// Already delivered in this session.
    Duplicate,
}

/// One sender's replay state.
#[derive(Debug)]
pub struct ReplayWindow {
    epoch: u64,
    /// Highest counter accepted so far; the top edge of the window.
    highest: u64,
    /// Bit `i` set means `highest - i` has been seen. Bit 0 is `highest`.
    bitmap: u64,
}

/// What a window remembers: the session, its top edge, and which counters
/// inside the window were accepted.
pub struct WindowModel {
    pub epoch: u64,
    pub highest: u64,
    pub seen: Set<u64>,
}

impl WindowModel {
    /// A window opened by its first frame.
    pub open spec fn opened(epoch: u64, counter: u64) -> WindowModel {
        WindowModel { epoch, highest: counter, seen: set![counter] }
    }

    /// Whether `counter` is inside the reach of a window whose top is `highest`.
    pub open spec fn in_reach(highest: u64, counter: u64) -> bool {
        counter <= highest && highest - counter < WINDOW
    }

    /// The window knows only counters inside its reach, and its top is one.
    pub open spec fn well_formed(self) -> bool {
        &&& self.seen.contains(self.highest)
        &&& forall|c: u64| self.seen.contains(c) ==> Self::in_reach(self.highest, c)
    }

    /// The verdict on a frame stamped `(epoch, counter)`.
    pub open spec fn verdict(self, epoch: u64, counter: u64) -> ReplayVerdict {
        if epoch < self.epoch {
            ReplayVerdict::StaleEpoch
        } else if epoch > self.epoch || counter > self.highest {
            ReplayVerdict::Fresh
        } else if !Self::in_reach(self.highest, counter) {
            ReplayVerdict::TooOld
        } else if self.seen.contains(counter) {
            ReplayVerdict::Duplicate
        } else {
            ReplayVerdict::Fresh
        }
    }

    /// The window once the frame has been judged.
    pub open spec fn after(self, epoch: u64, counter: u64) -> WindowModel {
        if self.verdict(epoch, counter) != ReplayVerdict::Fresh {
            self
        } else if epoch > self.epoch {
            WindowModel::opened(epoch, counter)
        } else if counter > self.highest {
            WindowModel {
                epoch,
                highest: counter,
                seen: self.seen.filter(|c: u64| Self::in_reach(counter, c)).insert(counter),
            }
        } else {
            WindowModel { epoch, highest: self.highest, seen: self.seen.insert(counter) }
        }
    }

    /// The window after a whole run of frames.
    pub open spec fn after_all(self, frames: Seq<(u64, u64)>) -> WindowModel
        decreases frames.len(),
    {
        if frames.len() == 0 {
            self
        } else {
            let before = self.after_all(frames.drop_last());
            before.after(frames.last().0, frames.last().1)
        }
    }

    /// `(epoch, counter)` can no longer be admitted.
    pub open spec fn refuses(self, epoch: u64, counter: u64) -> bool {
        ||| epoch < self.epoch
        ||| {
            &&& epoch == self.epoch
            &&& counter <= self.highest
            &&& Self::in_reach(self.highest, counter) ==> self.seen.contains(counter)
        }
    }
}

/// Bit `i` of `bitmap`.
spec fn bit(bitmap: u64, i: u64) -> bool {
    (bitmap >> i) & 1 == 1
}

impl View for ReplayWindow {
    type V = WindowModel;

    closed spec fn view(&self) -> WindowModel {
        WindowModel {
            epoch: self.epoch,
            highest: self.highest,
            seen: Set::new(
                |c: u64|
                    WindowModel::in_reach(self.highest, c) && bit(
                        self.bitmap,
                        (self.highest - c) as u64,
                    ),
            ),
        }
    }
}

impl Clone for ReplayWindow {
    fn clone(&self) -> (copy: Self)
        ensures
            copy == *self,
    {
        proof {
            use_type_invariant(self);
        }
        ReplayWindow { epoch: self.epoch, highest: self.highest, bitmap: self.bitmap }
    }
}

impl ReplayWindow {
    #[verifier::type_invariant]
    spec fn top_is_seen(self) -> bool {
        bit(self.bitmap, 0)
    }

    /// Open a window on the first frame seen from a sender. That frame is
    /// accepted: there is nothing to compare it against.
    pub fn new(epoch: u64, counter: u64) -> (window: Self)
        ensures
            window@ == WindowModel::opened(epoch, counter),
            window@.well_formed(),
    {
        proof {
            assert(bit(1u64, 0)) by {
                assert((1u64 >> 0u64) & 1 == 1) by (bit_vector);
            }
            assert forall|i: u64| 0 < i < WINDOW implies !bit(1u64, i) by {
                assert(0 < i && i < 64 ==> (1u64 >> i) & 1 != 1) by (bit_vector);
            }
        }
        let window = ReplayWindow { epoch, highest: counter, bitmap: 1 };
        assert(window@.seen =~= set![counter]);
        window
    }

    pub fn epoch(&self) -> (epoch: u64)
        ensures
            epoch == self@.epoch,
    {
        self.epoch
    }

    pub fn highest(&self) -> (highest: u64)
        ensures
            highest == self@.highest,
    {
        self.highest
    }

    /// Check a frame and, if fresh, record it.
    ///
    /// Call only on frames whose AEAD has already verified.
    pub fn admit_counter(&mut self, epoch: u64, counter: u64) -> (verdict: ReplayVerdict)
        ensures
            verdict == old(self)@.verdict(epoch, counter),
            final(self)@ == old(self)@.after(epoch, counter),
            final(self)@.well_formed(),
    {
        proof {
            use_type_invariant(&*self);
        }
        let ghost before = *self;
        assert(before@.seen.contains(before.highest));
        if epoch < self.epoch {
            return ReplayVerdict::StaleEpoch;
        }
        if epoch > self.epoch {
            // The sender restarted: two numbering schemes cannot be reconciled.
            *self = ReplayWindow::new(epoch, counter);
            return ReplayVerdict::Fresh;
        }
        if counter > self.highest {
            let shift: u64 = counter - self.highest;
            // A jump past the width leaves nothing of the old window to keep.
            let kept: u64 = if shift >= WINDOW {
                0
            } else {
                self.bitmap << shift
            };
            let bitmap: u64 = kept | 1;
            proof {
                lemma_shifted(before.bitmap, kept, shift);
            }
            *self = ReplayWindow { epoch: self.epoch, highest: counter, bitmap };
            proof {
                assert forall|c: u64|
                    #![trigger self@.seen.contains(c)]
                    self@.seen.contains(c) == before@.after(epoch, counter).seen.contains(c) by {
                    if WindowModel::in_reach(counter, c) && c <= before.highest {
                        let age = (before.highest - c) as u64;
                        assert((counter - c) as u64 == (age + shift) as u64);
                        assert(bit(bitmap, (age + shift) as u64) == bit(before.bitmap, age));
                    }
                }
                assert(self@.seen =~= before@.after(epoch, counter).seen);
            }
            return ReplayVerdict::Fresh;
        }
        let age: u64 = self.highest - counter;
        if age >= WINDOW {
            return ReplayVerdict::TooOld;
        }
        let mask: u64 = 1u64 << age;
        proof {
            lemma_mask(before.bitmap, age);
        }
        if self.bitmap & mask != 0 {
            return ReplayVerdict::Duplicate;
        }
        *self = ReplayWindow { epoch: self.epoch, highest: self.highest, bitmap: self.bitmap | mask };
        proof {
            assert forall|c: u64|
                #![trigger self@.seen.contains(c)]
                self@.seen.contains(c) == before@.seen.insert(counter).contains(c) by {
                if WindowModel::in_reach(before.highest, c) {
                    let other = (before.highest - c) as u64;
                    assert(bit(before.bitmap | mask, other) == (other == age || bit(
                        before.bitmap,
                        other,
                    )));
                }
            }
            assert(self@.seen =~= before@.seen.insert(counter));
        }
        ReplayVerdict::Fresh
    }
}

/// Where the bits of a shifted bitmap come from.
proof fn lemma_shifted(bitmap: u64, kept: u64, shift: u64)
    requires
        shift > 0,
        kept == (if shift >= WINDOW {
            0u64
        } else {
            bitmap << shift
        }),
    ensures
        bit(kept | 1, 0),
        forall|i: u64| 0 < i < shift && i < WINDOW ==> !#[trigger] bit(kept | 1, i),
        forall|age: u64|
            age + shift < WINDOW ==> #[trigger] bit(kept | 1, (age + shift) as u64) == bit(
                bitmap,
                age,
            ),
{
    assert(((kept | 1) >> 0u64) & 1 == 1) by (bit_vector);
    assert forall|i: u64| 0 < i < shift && i < WINDOW implies !#[trigger] bit(kept | 1, i) by {
        if shift >= WINDOW {
            assert(0 < i && i < 64 ==> ((0u64 | 1) >> i) & 1 != 1) by (bit_vector);
        } else {
            assert(0 < i && i < shift && shift < 64 ==> (((bitmap << shift) | 1) >> i) & 1 != 1)
                by (bit_vector);
        }
    }
    assert forall|age: u64| age + shift < WINDOW implies #[trigger] bit(
        kept | 1,
        (age + shift) as u64,
    ) == bit(bitmap, age) by {
        let at = (age + shift) as u64;
        assert(at < 64 && shift > 0 && age < 64 && at == age + shift ==> ((((bitmap << shift) | 1)
            >> at) & 1 == (bitmap >> age) & 1)) by (bit_vector);
    }
}

/// What testing and setting one bit does.
proof fn lemma_mask(bitmap: u64, age: u64)
    requires
        age < WINDOW,
    ensures
        (bitmap & (1u64 << age) != 0) == bit(bitmap, age),
        forall|i: u64|
            i < WINDOW ==> #[trigger] bit(bitmap | (1u64 << age), i) == (i == age || bit(
                bitmap,
                i,
            )),
{
    assert(age < 64 ==> ((bitmap & (1u64 << age) != 0) == ((bitmap >> age) & 1 == 1)))
        by (bit_vector);
    assert forall|i: u64| i < WINDOW implies #[trigger] bit(bitmap | (1u64 << age), i) == (i == age
        || bit(bitmap, i)) by {
        assert(age < 64 && i < 64 ==> ((((bitmap | (1u64 << age)) >> i) & 1 == 1) == (i == age || (
        bitmap >> i) & 1 == 1))) by (bit_vector);
    }
}

// ---------------------------------------------------------------------------
// Laws
// ---------------------------------------------------------------------------

/// Judging a frame keeps a window well formed.
pub proof fn law_window_stays_well_formed(window: WindowModel, epoch: u64, counter: u64)
    requires
        window.well_formed(),
    ensures
        window.after(epoch, counter).well_formed(),
{
}

/// A frame that was admitted is refused from then on, whatever arrives in
/// between: each `(epoch, counter)` is delivered at most once.
pub proof fn law_admitted_at_most_once(
    window: WindowModel,
    epoch: u64,
    counter: u64,
    between: Seq<(u64, u64)>,
)
    requires
        window.well_formed(),
        window.verdict(epoch, counter) == ReplayVerdict::Fresh,
    ensures
        window.after(epoch, counter).after_all(between).verdict(epoch, counter)
            != ReplayVerdict::Fresh,
    decreases between.len(),
{
    lemma_refusal_lasts(window.after(epoch, counter), epoch, counter, between);
}

proof fn lemma_refusal_lasts(
    window: WindowModel,
    epoch: u64,
    counter: u64,
    frames: Seq<(u64, u64)>,
)
    requires
        window.refuses(epoch, counter),
    ensures
        window.after_all(frames).refuses(epoch, counter),
    decreases frames.len(),
{
    if frames.len() > 0 {
        lemma_refusal_lasts(window, epoch, counter, frames.drop_last());
    }
}

/// Replaying a whole old session is refused: no frame of an epoch below the
/// window's is ever admitted, however high its counter, and the window does
/// not move.
pub proof fn law_old_session_is_refused(window: WindowModel, epoch: u64, counter: u64)
    requires
        epoch < window.epoch,
    ensures
        window.verdict(epoch, counter) == ReplayVerdict::StaleEpoch,
        window.after(epoch, counter) == window,
{
}

/// Reordering inside the window is tolerated: a counter of the current session
/// within reach of the top, and not yet seen, is admitted.
pub proof fn law_reordering_is_tolerated(window: WindowModel, counter: u64)
    requires
        WindowModel::in_reach(window.highest, counter),
        !window.seen.contains(counter),
    ensures
        window.verdict(window.epoch, counter) == ReplayVerdict::Fresh,
{
}

/// In-order traffic is always fresh, and so is the first frame of a new session.
pub proof fn law_in_order_is_fresh(window: WindowModel, epoch: u64, counter: u64)
    requires
        epoch > window.epoch || (epoch == window.epoch && counter > window.highest),
    ensures
        window.verdict(epoch, counter) == ReplayVerdict::Fresh,
        window.after(epoch, counter).epoch == epoch,
        window.after(epoch, counter).highest == counter,
{
}

/// What a window admits: anything of a later session; of the present one, what lies
/// past its top, and below that what is less than sixty-four behind it and was not
/// admitted before. Each refusal has its reason.
pub proof fn law_what_is_admitted(window: WindowModel, epoch: u64, counter: u64)
    ensures
        ({
            let behind = window.highest - counter;
            window.verdict(epoch, counter) == if epoch < window.epoch {
                ReplayVerdict::StaleEpoch
            } else if epoch > window.epoch || behind < 0 {
                ReplayVerdict::Fresh
            } else if behind >= 64 {
                ReplayVerdict::TooOld
            } else if window.seen.contains(counter) {
                ReplayVerdict::Duplicate
            } else {
                ReplayVerdict::Fresh
            }
        }),
{
}

/// What a window remembers: of the session it is in, every counter that it admitted
/// and that is still less than sixty-four behind its top. A refusal leaves it alone.
pub proof fn law_what_is_remembered(window: WindowModel, epoch: u64, counter: u64, other: u64)
    requires
        window.well_formed(),
    ensures
        ({
            let after = window.after(epoch, counter);
            let fresh = window.verdict(epoch, counter) == ReplayVerdict::Fresh;
            &&& !fresh ==> after == window
            &&& fresh ==> {
                &&& after.epoch == epoch
                &&& after.highest == if epoch > window.epoch || counter > window.highest {
                    counter
                } else {
                    window.highest
                }
                &&& after.seen.contains(other) == (other == counter || (epoch == window.epoch
                    && window.seen.contains(other) && after.highest - other < 64))
            }
        }),
{
}

/// A window opens at its first frame, which it does not admit again.
pub proof fn law_window_opens_at_its_first_frame(epoch: u64, counter: u64)
    ensures
        WindowModel::opened(epoch, counter).epoch == epoch,
        WindowModel::opened(epoch, counter).highest == counter,
        WindowModel::opened(epoch, counter).verdict(epoch, counter) == ReplayVerdict::Duplicate,
        WindowModel::opened(epoch, counter).well_formed(),
        forall|other: u64|
            #[trigger] WindowModel::opened(epoch, counter).seen.contains(other) ==> other
                == counter,
{
}

} // verus!
