//! The decisions around replacing the global hotkey. The host parses the
//! requested accelerator and tries to register it; this module decides what
//! is bound afterwards, what the caller is answered, whether the previous
//! binding must be restored, and whether the new one is saved.

use vstd::prelude::*;
use vstd::string::StringExecFns;

verus! {

/// What happened when the host tried to install the requested accelerator.
#[derive(Debug, PartialEq, Eq, Structural)]
pub enum HotkeyEvent {
    /// The accelerator text is not a valid shortcut; nothing was touched.
    Unparsable,
    /// The old shortcut was released and the new one registered.
    Registered,
    /// The old shortcut was released but the new one could not be registered.
    RegisterFailed,
}

/// What to do after an attempt to change the hotkey.
pub struct HotkeyDecision {
    /// The accelerator bound from now on.
    pub current: String,
    /// The answer to the caller: the new accelerator, or an error code.
    pub reply: Result<String, String>,
    /// Whether the previous shortcut must be registered again.
    pub restore_previous: bool,
    /// Whether the new accelerator must be saved.
    pub persist: bool,
}

/// The error code for a hotkey that cannot be installed.
pub open spec fn hotkey_invalid() -> Seq<char> {
    "hotkey_invalid"@
}

/// Decides the outcome of replacing the hotkey `current` by `requested`.
pub fn hotkey_step(current: &String, requested: &String, event: HotkeyEvent) -> (d: HotkeyDecision)
    ensures
        event == HotkeyEvent::Registered ==> {
            &&& d.current@ == requested@
            &&& d.reply matches Ok(a) && a@ == requested@
            &&& !d.restore_previous
            &&& d.persist
        },
        event != HotkeyEvent::Registered ==> {
            &&& d.current@ == current@
            &&& d.reply matches Err(e) && e@ == hotkey_invalid()
            &&& d.restore_previous == (event == HotkeyEvent::RegisterFailed)
            &&& !d.persist
        },
{
    match event {
        HotkeyEvent::Registered => HotkeyDecision {
            current: requested.clone(),
            reply: Ok(requested.clone()),
            restore_previous: false,
            persist: true,
        },
        HotkeyEvent::Unparsable => HotkeyDecision {
            current: current.clone(),
            reply: Err(String::from_str("hotkey_invalid")),
            restore_previous: false,
            persist: false,
        },
        HotkeyEvent::RegisterFailed => HotkeyDecision {
            current: current.clone(),
            reply: Err(String::from_str("hotkey_invalid")),
            restore_previous: true,
            persist: false,
        },
    }
}

} // verus!
