use vstd::prelude::*;

verus! {

/// How a window holds the mouse cursor.
#[derive(Clone, Copy, Debug, PartialEq, Eq, Structural)]
pub enum GrabMode {
    /// The cursor moves freely (bevy's `CursorGrabMode::None`).
    Free,
    /// The cursor is kept inside the window.
    Confined,
    /// The cursor is locked in place.
    Locked,
}

/// The cursor options of a window that the player's controls change.
#[derive(Clone, Copy, Debug, PartialEq, Eq, Structural)]
pub struct CursorState {
    pub grab_mode: GrabMode,
    pub visible: bool,
}

/// The cursor options after a toggle: a free cursor is confined and hidden, any
/// grabbed cursor is freed and shown.
pub open spec fn toggled(c: CursorState) -> CursorState {
    match c.grab_mode {
        GrabMode::Free => CursorState { grab_mode: GrabMode::Confined, visible: false },
        _ => CursorState { grab_mode: GrabMode::Free, visible: true },
    }
}

/// Whether the cursor is shown exactly when it is free, and never locked.
pub open spec fn settled(c: CursorState) -> bool {
    (c.grab_mode == GrabMode::Free && c.visible) || (c.grab_mode == GrabMode::Confined && !c.visible)
}

/// Grabs and hides a free cursor, or frees and shows a grabbed one.
pub fn toggle_grab_cursor(cursor: &mut CursorState)
    ensures
        *final(cursor) == toggled(*old(cursor)),
        final(cursor).grab_mode == if old(cursor).grab_mode == GrabMode::Free { GrabMode::Confined } else { GrabMode::Free },
        final(cursor).visible == (old(cursor).grab_mode != GrabMode::Free),
{
    match cursor.grab_mode {
        GrabMode::Free => {
            cursor.grab_mode = GrabMode::Confined;
            cursor.visible = false;
        },
        _ => {
            cursor.grab_mode = GrabMode::Free;
            cursor.visible = true;
        },
    }
}

/// Toggles the cursor when the escape key was just pressed, and leaves it alone otherwise.
pub fn escape_handle(escape_just_pressed: bool, cursor: &mut CursorState)
    ensures
        *final(cursor) == if escape_just_pressed { toggled(*old(cursor)) } else { *old(cursor) },
        !escape_just_pressed ==> *final(cursor) == *old(cursor),
        escape_just_pressed ==> final(cursor).grab_mode == if old(cursor).grab_mode == GrabMode::Free {
            GrabMode::Confined
        } else {
            GrabMode::Free
        },
        escape_just_pressed ==> final(cursor).visible == (old(cursor).grab_mode != GrabMode::Free),
{
    if escape_just_pressed {
        toggle_grab_cursor(cursor);
    }
}

/// Law: after any toggle the cursor is shown exactly when it is free.
pub proof fn lemma_toggle_settles(c: CursorState)
    ensures
        settled(toggled(c)),
{
}

/// Law: from a settled cursor, toggling twice gives back the same cursor options.
pub proof fn lemma_toggle_twice(c: CursorState)
    requires
        settled(c),
    ensures
        toggled(toggled(c)) == c,
{
}

} // verus!
