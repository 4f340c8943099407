//! Which events the profile of the interpreted program consists of.
use vstd::prelude::*;

use crate::machine::evaluator::Evaluator;
use crate::tables;

verus! {

/// What to do about the profile when a frame starts.
#[derive(Copy, Clone, Debug, PartialEq, Eq, Structural)]
pub enum FrameTiming {
    /// Nothing, there is no profile.
    Off,
    /// The profile has no label for the function yet: allocate one, and ask again.
    NewLabel,
    /// Start recording an event of this kind with this ID; both are string numbers.
    Start { kind: u32, event: u32 },
}

/// Makes an event ID of a label with `EventId::from_label`, which is the label's own number.
#[verifier::external_body]
fn event_from_label(label: u32) -> (event: u32)
    ensures
        event == label,
{
    measureme::EventId::from_label(measureme::StringId::new(label)).as_u32()
}

impl<L> Evaluator<L> {
    /// What to do about the profile when a frame of the function starts. Its name serves both as
    /// the kind and as the ID of the event.
    pub open spec fn timing_for(self, fn_name: Seq<char>) -> FrameTiming {
        if !self.profiling {
            FrameTiming::Off
        } else if self.labels().contains_key(fn_name) {
            FrameTiming::Start { kind: self.labels()[fn_name], event: self.labels()[fn_name] }
        } else {
            FrameTiming::NewLabel
        }
    }

    /// The labels once one was allocated for the function; one that has a label keeps it.
    pub open spec fn labels_with(self, fn_name: Seq<char>, label: u32) -> Map<Seq<char>, u32> {
        if self.labels().contains_key(fn_name) {
            self.labels()
        } else {
            self.labels().insert(fn_name, label)
        }
    }

    /// What to do about the profile when a frame of the function starts.
    pub fn frame_timing(&self, fn_name: &String) -> (timing: FrameTiming)
        ensures
            timing == self.timing_for(fn_name@),
    {
        if !self.profiling {
            return FrameTiming::Off;
        }
        match tables::labels_get(&self.string_cache, fn_name) {
            Some(label) => FrameTiming::Start { kind: label, event: event_from_label(label) },
            None => FrameTiming::NewLabel,
        }
    }

    /// Remembers the label that was allocated for the function; one that has a label keeps it.
    pub fn add_label(&mut self, fn_name: String, label: u32)
        ensures
            final(self).labels() == old(self).labels_with(fn_name@, label),
            *final(self) == (Evaluator { string_cache: final(self).string_cache, ..*old(self) }),
    {
        if tables::labels_get(&self.string_cache, &fn_name).is_none() {
            tables::labels_insert(&mut self.string_cache, fn_name, label);
        }
    }
}

} // verus!
