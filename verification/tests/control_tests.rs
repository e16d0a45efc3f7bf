use hunger::control::RuntimeControl;

#[test]
fn toggle_flips_pause_state() {
    let control = RuntimeControl::default();
    assert!(!control.is_paused());
    control.toggle();
    assert!(control.is_paused());
    control.toggle();
    assert!(!control.is_paused());
}

#[test]
fn clones_share_the_pause_flag() {
    let control = RuntimeControl::default();
    let other = control.clone();
    other.pause();
    assert!(control.is_paused());
    control.resume();
    assert!(!other.is_paused());
}
