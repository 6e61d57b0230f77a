//! The decision behind proportional scroll synchronisation: which pane
//! leads this frame.
use vstd::prelude::*;

verus! {

/// The pane whose scroll position the other follows this frame.
#[derive(Clone, Copy, Debug, PartialEq, Eq, Structural)]
pub enum Lead {
    Editor,
    Preview,
    Neither,
}

/// Only a pane under the pointer that moved since the last frame can lead,
/// the editor first; nothing leads when syncing is off. This keeps a pane
/// that was just scrolled programmatically from scrolling the other back.
pub fn lead(
    enabled: bool,
    pointer_in_editor: bool,
    editor_moved: bool,
    pointer_in_preview: bool,
    preview_moved: bool,
) -> (r: Lead)
    ensures
        r == (if !enabled {
            Lead::Neither
        } else if pointer_in_editor && editor_moved {
            Lead::Editor
        } else if pointer_in_preview && preview_moved {
            Lead::Preview
        } else {
            Lead::Neither
        }),
{
    if enabled {
        if pointer_in_editor && editor_moved {
            Lead::Editor
        } else if pointer_in_preview && preview_moved {
            Lead::Preview
        } else {
            Lead::Neither
        }
    } else {
        Lead::Neither
    }
}

} // verus!
