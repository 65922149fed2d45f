//! What the library asks of outside code, and the platform fallbacks.
use vstd::prelude::*;
use crate::state::AppState;
use crate::state::AudioDevice;
use crate::state::has_group;
use crate::commands::find_group;

verus! {

/// The message of a failed enumeration where the platform has none.
pub open spec fn enumeration_unsupported() -> Seq<char> {
    "Audio device enumeration is only supported on Windows"@
}

/// The message of a failed switch where the platform has none.
pub open spec fn switch_unsupported() -> Seq<char> {
    "Setting default audio device is only supported on Windows"@
}

/// The online devices, on a platform without device enumeration: always
/// the failure that says so.
pub fn get_audio_devices() -> (r: Result<Vec<AudioDevice>, String>)
    ensures
        r is Err && r->Err_0@ == enumeration_unsupported(),
{
    proof {
        reveal_strlit("Audio device enumeration is only supported on Windows");
    }
    Err("Audio device enumeration is only supported on Windows".to_owned())
}

/// Makes `device_id` the default device, on a platform without that
/// capability: always the failure that says so.
pub fn set_default_device(device_id: &str) -> (r: Result<(), String>)
    ensures
        r is Err && r->Err_0@ == switch_unsupported(),
{
    proof {
        reveal_strlit("Setting default audio device is only supported on Windows");
    }
    Err("Setting default audio device is only supported on Windows".to_owned())
}

/// Relies on uuid's `Uuid::new_v4` and its `Display`, which writes the
/// hyphenated form: a random id of 36 characters.
#[verifier::external_body]
fn new_uuid() -> (r: String)
    ensures
        r@.len() == 36,
{
    uuid::Uuid::new_v4().to_string()
}

/// The id of the key combination that a shortcut text describes, as the
/// shortcut parser of the build's target reads it; `None` where the text
/// describes no key combination. It depends on the text alone.
pub uninterp spec fn hotkey_code(text: Seq<char>) -> Option<u32>;

/// Relies on global_hotkey's `HotKey::from_str` and `HotKey::id`: the id of
/// the key combination that `text` describes, `None` where it describes none.
/// Equal combinations, however written, get the same id.
#[verifier::external_body]
pub(crate) fn shortcut_code(text: &str) -> (r: Option<u32>)
    ensures
        r == hotkey_code(text@),
{
    text.parse::<global_hotkey::hotkey::HotKey>().ok().map(|h| h.id())
}

impl AppState {
    /// A new random group id of 36 characters that no group has yet; `None`
    /// only where the one drawn is taken already, which cannot happen while
    /// no group has an id of that length.
    pub fn fresh_group_id(&self) -> (r: Option<String>)
        ensures
            r matches Some(id) ==> !has_group(self@.groups, id@) && id@.len() == 36,
            r is None ==> exists|i: int|
                0 <= i < self@.groups.len() && (#[trigger] self@.groups[i]).id.len() == 36,
            (forall|i: int|
                0 <= i < self@.groups.len() ==> (#[trigger] self@.groups[i]).id.len() != 36)
                ==> r is Some,
    {
        let id = new_uuid();
        match find_group(&self.groups, &id) {
            Some(k) => {
                assert(self@.groups[k as int] == self.groups@[k as int]@);
                None
            },
            None => Some(id),
        }
    }
}

} // verus!
