//! What the machine keeps with each stack frame.
use vstd::prelude::*;
use vstd::string::StringExecFns;

use crate::stacked_borrows::item::CallId;
use crate::text;

verus! {

/// When and as what the recording of a frame started; made and used up by `measureme::Profiler`.
#[verifier::external_type_specification]
#[verifier::external_body]
pub struct ExDetachedTiming(measureme::DetachedTiming);

/// Extra data stored with each stack frame
pub struct FrameData<C> {
    /// Extra data for Stacked Borrows.
    pub call_id: CallId,
    /// If this is Some(), then this is a special "catch unwind" frame (the frame of `try_fn`
    /// called by `try`). When this frame is popped during unwinding a panic,
    /// we stop unwinding, use what is in here to handle catching.
    pub unwind_catch: Option<C>,
    /// If `measureme` profiling is enabled, holds timing information
    /// for the start of this frame. When we finish executing this frame,
    /// we use this to register a completed event with `measureme`.
    pub timing: Option<measureme::DetachedTiming>,
}

/// The data of a frame as text, with what is caught as `caught` shows it. The timing is omitted.
pub open spec fn frame_chars(call_id: CallId, caught: Option<Seq<char>>) -> Seq<char> {
    "FrameData { call_id: "@ + text::decimal(call_id) + ", catch_unwind: "@ + (match caught {
        Some(shown) => "Some("@ + shown + ")"@,
        None => "None"@,
    }) + " }"@
}

impl<C> FrameData<C> {
    /// The data as text. `shown` says how the data for catching is to be shown, if there is any.
    pub fn debug_string(&self, shown: &str) -> (text: String)
        ensures
            text@ == frame_chars(
                self.call_id,
                if self.unwind_catch is Some {
                    Some(shown@)
                } else {
                    None
                },
            ),
    {
        let mut out = String::from_str("FrameData { call_id: ");
        text::push_decimal(&mut out, self.call_id);
        out.append(", catch_unwind: ");
        // Omitting `timing`, it cannot be shown.
        if self.unwind_catch.is_some() {
            out.append("Some(");
            out.append(shown);
            out.append(")");
        } else {
            out.append("None");
        }
        out.append(" }");
        assert(out@ =~= frame_chars(
            self.call_id,
            if self.unwind_catch is Some {
                Some(shown@)
            } else {
                None
            },
        ));
        out
    }

    /// Takes the timing out of the data.
    pub fn take_timing(self) -> (taken: (Self, Option<measureme::DetachedTiming>))
        ensures
            taken.0 == (FrameData::<C> { timing: None, ..self }),
            taken.1 == self.timing,
    {
        (
            FrameData { call_id: self.call_id, unwind_catch: self.unwind_catch, timing: None },
            self.timing,
        )
    }
}

} // verus!
