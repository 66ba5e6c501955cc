//! The abstract input intents the state machine reacts to. Mapping
//! physical key presses to these intents is the presentation layer's
//! concern.

use vstd::prelude::*;

verus! {

/// One user intent, as the presentation layer hands it in.
#[derive(Clone, Copy, PartialEq, Eq, Structural, Debug)]
pub enum AppEvent {
    Quit,
    MoveUp,
    MoveDown,
    ToggleSelection,
    ConfirmAction,
    ToggleSort,
    CycleFilter,
    CloseModal,
    ToggleViewMode,
    ToggleExpand,
}

} // verus!
