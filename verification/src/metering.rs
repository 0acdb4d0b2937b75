//! The credits that a request is metered with.

use vstd::prelude::*;

use crate::provider::KiroProvider;

verus! {

/// Keeps the credits that were metered last, and hands them out once.
///
/// Credits are held as the bits of a binary64 number.
#[derive(Debug)]
pub struct MeteringRecorder {
    credential_id: u64,
    latest_credits: Option<u64>,
    committed: bool,
}

/// Credits that are to be booked to a credential.
#[derive(Debug, Clone, Copy, PartialEq, Eq, Structural)]
pub struct MeteredCredits {
    pub credential_id: u64,
    pub credits: u64,
}

/// What a recorder holds.
pub struct RecorderModel {
    pub credential_id: u64,
    pub latest_credits: Option<u64>,
    pub committed: bool,
}

impl View for MeteringRecorder {
    type V = RecorderModel;

    closed spec fn view(&self) -> RecorderModel {
        RecorderModel {
            credential_id: self.credential_id,
            latest_credits: self.latest_credits,
            committed: self.committed,
        }
    }
}

/// Whether the bits are those of a binary64 number that is finite and at least zero: the
/// sign is plus and the exponent is not all ones, or the number is the negative zero.
pub open spec fn finite_credits(bits: u64) -> bool {
    bits < 0x7ff0_0000_0000_0000 || bits == 0x8000_0000_0000_0000
}

/// A recorder after it was shown credits. Credits that are missing, negative or no finite
/// number are passed over.
pub open spec fn observed(recorder: RecorderModel, credits: Option<u64>) -> RecorderModel {
    match credits {
        Some(bits) => if finite_credits(bits) {
            RecorderModel { latest_credits: Some(bits), ..recorder }
        } else {
            recorder
        },
        None => recorder,
    }
}

/// What a recorder hands out: the latest credits, unless it has handed them out before.
pub open spec fn booked(recorder: RecorderModel) -> Option<MeteredCredits> {
    if recorder.committed {
        None
    } else {
        match recorder.latest_credits {
            Some(credits) => Some(
                MeteredCredits { credential_id: recorder.credential_id, credits },
            ),
            None => None,
        }
    }
}

/// A recorder that has handed out its credits.
pub open spec fn closed_recorder(recorder: RecorderModel) -> RecorderModel {
    RecorderModel { committed: true, ..recorder }
}

impl MeteringRecorder {
    /// Takes note of credits.
    pub fn observe(&mut self, credits: Option<u64>)
        ensures
            final(self)@ == observed(old(self)@, credits),
    {
        if let Some(bits) = credits {
            if bits < 0x7ff0_0000_0000_0000 || bits == 0x8000_0000_0000_0000 {
                self.latest_credits = Some(bits);
            }
        }
    }

    /// Hands out the latest credits, once.
    pub fn commit(&mut self) -> (credits: Option<MeteredCredits>)
        ensures
            credits == booked(old(self)@),
            final(self)@ == closed_recorder(old(self)@),
    {
        if self.committed {
            return None;
        }
        self.committed = true;
        match self.latest_credits {
            Some(credits) => Some(MeteredCredits { credential_id: self.credential_id, credits }),
            None => None,
        }
    }
}

impl KiroProvider {
    /// A recorder for a request that is sent with a credential.
    pub fn metering_recorder(&self, credential_id: u64) -> (recorder: MeteringRecorder)
        ensures
            recorder@ == (RecorderModel { credential_id, latest_credits: None, committed: false }),
    {
        MeteringRecorder { credential_id, latest_credits: None, committed: false }
    }
}

/// A recorder after it was shown credits again and again.
pub open spec fn all_observed(recorder: RecorderModel, credits: Seq<Option<u64>>) -> RecorderModel
    decreases credits.len(),
{
    if credits.len() == 0 {
        recorder
    } else {
        observed(all_observed(recorder, credits.drop_last()), credits.last())
    }
}

/// Credits are booked once: after a recorder has handed them out, it hands out nothing
/// more, whatever it is shown.
pub proof fn law_credits_are_booked_once(recorder: RecorderModel, credits: Seq<Option<u64>>)
    ensures
        booked(all_observed(closed_recorder(recorder), credits)) is None,
{
    lemma_observing_keeps(closed_recorder(recorder), credits);
}

/// The latest credits are booked: those after which only credits were shown that are
/// missing, negative or no finite number.
pub proof fn law_latest_credits_are_booked(
    recorder: RecorderModel,
    credits: u64,
    later: Seq<Option<u64>>,
)
    requires
        !recorder.committed,
        finite_credits(credits),
        forall|i: int|
            0 <= i < later.len() ==> match #[trigger] later[i] {
                Some(bits) => !finite_credits(bits),
                None => true,
            },
    ensures
        booked(all_observed(observed(recorder, Some(credits)), later)) == Some(
            MeteredCredits { credential_id: recorder.credential_id, credits },
        ),
    decreases later.len(),
{
    if later.len() > 0 {
        let front = later.drop_last();
        assert forall|i: int| 0 <= i < front.len() implies match #[trigger] front[i] {
            Some(bits) => !finite_credits(bits),
            None => true,
        } by {
            assert(front[i] == later[i]);
        }
        law_latest_credits_are_booked(recorder, credits, front);
        let last = later[later.len() - 1];
        assert(later.last() == last);
        lemma_observing_keeps(observed(recorder, Some(credits)), front);
    }
}

/// Showing credits changes neither whether they were handed out nor to whom they go.
proof fn lemma_observing_keeps(recorder: RecorderModel, credits: Seq<Option<u64>>)
    ensures
        all_observed(recorder, credits).committed == recorder.committed,
        all_observed(recorder, credits).credential_id == recorder.credential_id,
    decreases credits.len(),
{
    if credits.len() > 0 {
        lemma_observing_keeps(recorder, credits.drop_last());
    }
}

/// A recorder takes credits that are finite and not negative, and passes over all others; it
/// never changes for whom it records, nor whether it has handed out.
pub proof fn law_finite_credits_are_noted(recorder: RecorderModel, bits: u64)
    ensures
        ({
            let after = observed(recorder, Some(bits));
            let sign = bits >= 0x8000_0000_0000_0000;
            let finite = bits % 0x8000_0000_0000_0000 < 0x7ff0_0000_0000_0000;
            let zero = bits % 0x8000_0000_0000_0000 == 0;
            &&& after.latest_credits == (if finite && (!sign || zero) {
                Some(bits)
            } else {
                recorder.latest_credits
            })
            &&& after.credential_id == recorder.credential_id
            &&& after.committed == recorder.committed
            &&& observed(recorder, None) == recorder
        }),
{
}

/// A recorder that has not handed out hands out the credits that it noted last, for its own
/// credential, and nothing where it noted none; one that has, hands out nothing. Handing out
/// changes nothing but that.
pub proof fn law_noted_credits_are_handed_out(recorder: RecorderModel)
    ensures
        booked(recorder) is Some <==> !recorder.committed && recorder.latest_credits is Some,
        booked(recorder) is Some ==> booked(recorder)->0.credential_id == recorder.credential_id
            && booked(recorder)->0.credits == recorder.latest_credits->0,
        closed_recorder(recorder) == (RecorderModel { committed: true, ..recorder }),
{
}

}
