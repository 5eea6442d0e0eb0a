//! Focus-change events: what one parsed log line records.

use vstd::prelude::*;
use crate::time::Timestamp;

verus! {

/// The change a log line records: an application gaining input focus, or the
/// current focus ending (a lock).
#[derive(Debug, PartialEq, Eq)]
pub enum FocusChange {
    StartUsing(String),
    StopUsing,
}

/// One parsed focus-change event.
#[derive(Debug, PartialEq, Eq)]
pub struct FocusChangeEvent {
    pub time: Timestamp,
    pub change: FocusChange,
}

/// Spec-level image of `FocusChange`.
pub ghost enum GFocusChange {
    StartUsing(Seq<char>),
    StopUsing,
}

/// Spec-level image of `FocusChangeEvent`.
pub ghost struct GFocusChangeEvent {
    pub time: Timestamp,
    pub change: GFocusChange,
}

impl View for FocusChange {
    type V = GFocusChange;

    open spec fn view(&self) -> GFocusChange {
        match self {
            FocusChange::StartUsing(app) => GFocusChange::StartUsing(app@),
            FocusChange::StopUsing => GFocusChange::StopUsing,
        }
    }
}

impl DeepView for FocusChange {
    type V = GFocusChange;

    open spec fn deep_view(&self) -> GFocusChange {
        self.view()
    }
}

impl View for FocusChangeEvent {
    type V = GFocusChangeEvent;

    open spec fn view(&self) -> GFocusChangeEvent {
        GFocusChangeEvent { time: self.time, change: self.change@ }
    }
}

impl DeepView for FocusChangeEvent {
    type V = GFocusChangeEvent;

    open spec fn deep_view(&self) -> GFocusChangeEvent {
        self.view()
    }
}

} // verus!
