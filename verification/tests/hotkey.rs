use fqencoder::hotkey::{hotkey_step, HotkeyEvent};

#[test]
fn registered_hotkey_is_kept_and_saved() {
    let d = hotkey_step(&"CmdOrCtrl+Shift+E".to_string(), &"Ctrl+K".to_string(), HotkeyEvent::Registered);
    assert_eq!(d.current, "Ctrl+K");
    assert_eq!(d.reply, Ok("Ctrl+K".to_string()));
    assert!(!d.restore_previous);
    assert!(d.persist);
}

#[test]
fn failed_registration_restores_the_previous_hotkey() {
    let d = hotkey_step(&"CmdOrCtrl+Shift+E".to_string(), &"Ctrl+K".to_string(), HotkeyEvent::RegisterFailed);
    assert_eq!(d.current, "CmdOrCtrl+Shift+E");
    assert_eq!(d.reply, Err("hotkey_invalid".to_string()));
    assert!(d.restore_previous);
    assert!(!d.persist);
}

#[test]
fn unparsable_hotkey_changes_nothing() {
    let d = hotkey_step(&"CmdOrCtrl+Shift+E".to_string(), &"nonsense".to_string(), HotkeyEvent::Unparsable);
    assert_eq!(d.current, "CmdOrCtrl+Shift+E");
    assert_eq!(d.reply, Err("hotkey_invalid".to_string()));
    assert!(!d.restore_previous);
    assert!(!d.persist);
}
