use voxel_game::player_character::{escape_handle, toggle_grab_cursor, CursorState, GrabMode};

#[test]
fn toggle_grabs_a_free_cursor() {
    let mut c = CursorState { grab_mode: GrabMode::Free, visible: true };
    toggle_grab_cursor(&mut c);
    assert_eq!(c, CursorState { grab_mode: GrabMode::Confined, visible: false });
    toggle_grab_cursor(&mut c);
    assert_eq!(c, CursorState { grab_mode: GrabMode::Free, visible: true });
}

#[test]
fn toggle_frees_a_locked_cursor() {
    let mut c = CursorState { grab_mode: GrabMode::Locked, visible: false };
    toggle_grab_cursor(&mut c);
    assert_eq!(c, CursorState { grab_mode: GrabMode::Free, visible: true });
}

#[test]
fn escape_toggles_only_when_pressed() {
    let mut c = CursorState { grab_mode: GrabMode::Confined, visible: false };
    escape_handle(false, &mut c);
    assert_eq!(c, CursorState { grab_mode: GrabMode::Confined, visible: false });
    escape_handle(true, &mut c);
    assert_eq!(c, CursorState { grab_mode: GrabMode::Free, visible: true });
}
