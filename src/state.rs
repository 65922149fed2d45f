//! The data model: devices, groups, settings and the process-wide state.
use vstd::prelude::*;

verus! {

/// A device as reported by the platform's enumeration.
#[derive(Debug, Clone)]
pub struct AudioDevice {
    pub id: String,
    pub name: String,
    pub is_default: bool,
}

/// A device reference kept in a group; it stays there while the device is offline.
#[derive(Debug, Clone)]
pub struct GroupDevice {
    pub id: String,
    pub name: String,
}

/// A named, ordered set of devices with a current selection.
#[derive(Debug, Clone)]
pub struct DeviceGroup {
    pub id: String,
    pub name: String,
    pub devices: Vec<GroupDevice>,
    pub shortcut: Option<String>,
    pub current_index: usize,
}

/// Global settings.
#[derive(Debug, Clone, Copy, PartialEq, Eq, Structural)]
pub struct AppSettings {
    pub run_on_startup: bool,
    pub start_minimized: bool,
    pub close_to_tray: bool,
}

/// The whole mutable state: every group and the settings.
#[derive(Debug)]
pub struct AppState {
    pub groups: Vec<DeviceGroup>,
    pub settings: AppSettings,
}

/// The kinds of failure a command can report.
#[derive(Debug, Clone)]
pub enum CommandError {
    GroupNotFound,
    EmptyGroup,
    NoOnlineDevices,
    InvalidIndex,
    DeviceOffline,
    /// The shortcut registry refused the shortcut; carries its reason.
    ShortcutConflict(String),
    /// The default-device switch failed; carries its reason.
    SwitchFailed(String),
    PersistenceUnavailable,
    /// Device enumeration or switching is not available on this platform.
    PlatformUnsupported(String),
}

/// The settings a fresh installation starts with.
pub open spec fn default_settings() -> AppSettings {
    AppSettings { run_on_startup: false, start_minimized: false, close_to_tray: true }
}

impl Default for AppSettings {
    fn default() -> (r: AppSettings)
        ensures
            r == default_settings(),
    {
        AppSettings { run_on_startup: false, start_minimized: false, close_to_tray: true }
    }
}

/// The shortcut text of a group, as a sequence of characters.
pub open spec fn shortcut_view(s: Option<String>) -> Option<Seq<char>> {
    match s {
        Some(t) => Some(t@),
        None => None,
    }
}

/// What a group is, as a mathematical value.
pub struct GroupModel {
    pub id: Seq<char>,
    pub name: Seq<char>,
    pub devices: Seq<GroupDevice>,
    pub shortcut: Option<Seq<char>>,
    pub current_index: nat,
}

impl GroupModel {
    /// The selection points into `devices` whenever there are any.
    pub open spec fn wf(&self) -> bool {
        self.devices.len() > 0 ==> self.current_index < self.devices.len()
    }
}

impl View for DeviceGroup {
    type V = GroupModel;

    open spec fn view(&self) -> GroupModel {
        GroupModel {
            id: self.id@,
            name: self.name@,
            devices: self.devices@,
            shortcut: shortcut_view(self.shortcut),
            current_index: self.current_index as nat,
        }
    }
}

/// The models of a sequence of groups.
pub open spec fn models(groups: Seq<DeviceGroup>) -> Seq<GroupModel> {
    groups.map_values(|g: DeviceGroup| g@)
}

/// What the whole state is, as a mathematical value.
pub struct StateModel {
    pub groups: Seq<GroupModel>,
    pub settings: AppSettings,
}

impl View for AppState {
    type V = StateModel;

    open spec fn view(&self) -> StateModel {
        StateModel { groups: models(self.groups@), settings: self.settings }
    }
}

/// Every group is well formed and no two groups share an id.
pub open spec fn groups_wf(groups: Seq<GroupModel>) -> bool {
    &&& forall|i: int| 0 <= i < groups.len() ==> (#[trigger] groups[i]).wf()
    &&& forall|i: int, j: int|
        0 <= i < groups.len() && 0 <= j < groups.len() && i != j ==> (#[trigger] groups[i]).id
            != (#[trigger] groups[j]).id
}

/// Whether some group has the given id.
pub open spec fn has_group(groups: Seq<GroupModel>, id: Seq<char>) -> bool {
    exists|i: int| 0 <= i < groups.len() && (#[trigger] groups[i]).id == id
}

/// The position of the group with the given id (the first, should there be several).
pub open spec fn group_index(groups: Seq<GroupModel>, id: Seq<char>) -> int
    recommends
        has_group(groups, id),
{
    choose|i: int|
        0 <= i < groups.len() && (#[trigger] groups[i]).id == id && forall|j: int|
            0 <= j < i ==> (#[trigger] groups[j]).id != id
}

impl AppState {
    pub open spec fn wf(&self) -> bool {
        groups_wf(self@.groups)
    }

    /// A state with no groups and the default settings.
    pub fn new() -> (r: AppState)
        ensures
            r@.groups.len() == 0,
            r@.settings == default_settings(),
            r.wf(),
    {
        AppState { groups: Vec::new(), settings: AppSettings::default() }
    }
}

impl Default for AppState {
    fn default() -> (r: AppState)
        ensures
            r@.groups.len() == 0,
            r@.settings == default_settings(),
            r.wf(),
    {
        AppState::new()
    }
}

/// The human-readable description of a failure.
pub open spec fn message_of(e: CommandError) -> Seq<char> {
    match e {
        CommandError::GroupNotFound => "Group not found"@,
        CommandError::EmptyGroup => "Group has no devices"@,
        CommandError::NoOnlineDevices => "No online devices in group"@,
        CommandError::InvalidIndex => "Invalid device index"@,
        CommandError::DeviceOffline => "Device is offline"@,
        CommandError::ShortcutConflict(reason) => reason@,
        CommandError::SwitchFailed(reason) => reason@,
        CommandError::PersistenceUnavailable => "Settings store is unavailable"@,
        CommandError::PlatformUnsupported(reason) => reason@,
    }
}

impl CommandError {
    /// A human-readable description of the failure.
    pub fn message(&self) -> (r: String)
        ensures
            r@ == message_of(*self),
    {
        match self {
            CommandError::GroupNotFound => "Group not found".to_owned(),
            CommandError::EmptyGroup => "Group has no devices".to_owned(),
            CommandError::NoOnlineDevices => "No online devices in group".to_owned(),
            CommandError::InvalidIndex => "Invalid device index".to_owned(),
            CommandError::DeviceOffline => "Device is offline".to_owned(),
            CommandError::ShortcutConflict(reason) => reason.clone(),
            CommandError::SwitchFailed(reason) => reason.clone(),
            CommandError::PersistenceUnavailable => "Settings store is unavailable".to_owned(),
            CommandError::PlatformUnsupported(reason) => reason.clone(),
        }
    }
}

/// A copy of a device reference, field for field.
pub fn copy_device(d: &GroupDevice) -> (r: GroupDevice)
    ensures
        r == *d,
{
    GroupDevice { id: d.id.clone(), name: d.name.clone() }
}

/// A copy of a list of device references, in order.
pub fn copy_devices(v: &Vec<GroupDevice>) -> (r: Vec<GroupDevice>)
    ensures
        r@ == v@,
{
    let mut r: Vec<GroupDevice> = Vec::new();
    let mut i: usize = 0;
    while i < v.len()
        invariant
            i <= v.len(),
            r@ == v@.subrange(0, i as int),
        decreases v.len() - i,
    {
        r.push(copy_device(&v[i]));
        i = i + 1;
        assert(r@ == v@.subrange(0, i as int));
    }
    assert(v@.subrange(0, v.len() as int) == v@);
    r
}

/// A copy of an optional shortcut.
pub fn copy_shortcut(s: &Option<String>) -> (r: Option<String>)
    ensures
        r == *s,
{
    match s {
        Some(t) => Some(t.clone()),
        None => None,
    }
}

/// A copy of a group, field for field.
pub fn copy_group(g: &DeviceGroup) -> (r: DeviceGroup)
    ensures
        r@ == g@,
{
    let r = DeviceGroup {
        id: g.id.clone(),
        name: g.name.clone(),
        devices: copy_devices(&g.devices),
        shortcut: copy_shortcut(&g.shortcut),
        current_index: g.current_index,
    };
    r
}

} // verus!
