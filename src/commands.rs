//! The command surface: each command as one transaction over the state.
//!
//! What a command needs from the platform (the online device ids, whether the
//! shortcut registry accepted a shortcut) is handed in by the caller; what the
//! platform must then do (switch to a device, unregister a shortcut) is handed
//! back.
use vstd::prelude::*;
use crate::cycling::cycle_target;
use crate::cycling::cycle_times;
use crate::cycling::lemma_cycle_is_rotation;
use crate::cycling::lemma_online_positions;
use crate::cycling::online_positions;
use crate::cycling::position_of;
use vstd::arithmetic::div_mod::lemma_mod_pos_bound;
use crate::cycling::is_online;
use crate::cycling::next_index;
use crate::cycling::contains_id;
use crate::state::AppSettings;
use crate::state::AppState;
use crate::state::CommandError;
use crate::state::DeviceGroup;
use crate::state::GroupDevice;
use crate::state::GroupModel;
use crate::state::StateModel;
use crate::state::copy_device;
use crate::state::copy_group;
use crate::state::copy_shortcut;
use crate::state::group_index;
use crate::state::groups_wf;
use crate::state::has_group;
use crate::state::models;
use crate::state::shortcut_view;

verus! {

/// The shortcut registrations an update calls for: the old shortcut to drop
/// and the new one to register. Both are `None` when the shortcut is unchanged.
#[derive(Debug, Clone)]
pub struct ShortcutChange {
    pub unregister: Option<String>,
    pub register: Option<String>,
}

/// The group that `create_group` makes.
pub open spec fn new_group_model(
    id: Seq<char>,
    name: Seq<char>,
    devices: Seq<GroupDevice>,
    shortcut: Option<Seq<char>>,
) -> GroupModel {
    GroupModel { id, name, devices, shortcut, current_index: 0 }
}

/// The group at `i` with its selection moved to `t`.
pub open spec fn with_selection(s: StateModel, i: int, t: nat) -> StateModel {
    StateModel {
        groups: s.groups.update(i, GroupModel { current_index: t, ..s.groups[i] }),
        settings: s.settings,
    }
}

/// What cycling the group at position `i` of `before` does: the member it
/// hands back in `r` and the state `after` it leaves.
#[verifier::opaque]
pub open spec fn cycle_result(
    before: StateModel,
    i: int,
    online: Seq<String>,
    r: Result<GroupDevice, CommandError>,
    after: StateModel,
) -> bool {
    let g = before.groups[i];
    if g.devices.len() == 0 {
        (r matches Err(CommandError::EmptyGroup)) && after == before
    } else {
        match cycle_target(g.devices, g.current_index as usize, online) {
            None => (r matches Err(CommandError::NoOnlineDevices)) && after == before,
            Some(t) => r == Ok::<GroupDevice, CommandError>(g.devices[t as int]) && after
                == with_selection(before, i, t as nat),
        }
    }
}

/// Cycling a group that exists never reports it missing, and a failure
/// leaves the state as it was.
pub proof fn lemma_cycle_result_found(
    before: StateModel,
    i: int,
    online: Seq<String>,
    r: Result<GroupDevice, CommandError>,
    after: StateModel,
)
    requires
        cycle_result(before, i, online, r, after),
    ensures
        !(r matches Err(CommandError::GroupNotFound)),
        r is Err ==> after == before,
{
    reveal(cycle_result);
}

proof fn lemma_cycle_chain(
    states: Seq<StateModel>,
    results: Seq<Result<GroupDevice, CommandError>>,
    i: int,
    online: Seq<String>,
    n: nat,
)
    requires
        states.len() == results.len() + 1,
        0 <= i < states[0].groups.len(),
        states[0].groups[i].devices.len() <= usize::MAX,
        states[0].groups[i].current_index < states[0].groups[i].devices.len(),
        is_online(
            online,
            states[0].groups[i].devices[states[0].groups[i].current_index as int].id@,
        ),
        forall|j: int|
            0 <= j < results.len() ==> cycle_result(
                states[j],
                i,
                online,
                #[trigger] results[j],
                states[j + 1],
            ),
        n < states.len(),
    ensures
        i < states[n as int].groups.len(),
        states[n as int].groups[i].devices == states[0].groups[i].devices,
        states[n as int].groups[i].current_index as int == cycle_times(
            states[0].groups[i].devices,
            online,
            states[0].groups[i].current_index as usize,
            n,
        ) as int,
        n > 0 ==> results[n - 1] is Ok,
    decreases n,
{
    let devs = states[0].groups[i].devices;
    let c0 = states[0].groups[i].current_index as usize;
    if n > 0 {
        let m = (n - 1) as nat;
        lemma_cycle_chain(states, results, i, online, m);
        let sm = states[m as int];
        let c = sm.groups[i].current_index as usize;
        lemma_cycle_is_rotation(devs, online, c0);
        lemma_online_positions(devs, online);
        let pos = online_positions(devs, online);
        let k = pos.len() as int;
        let p = position_of(pos, c0);
        assert(cycle_times(devs, online, c0, m) == pos[(p + m) % k]);
        lemma_mod_pos_bound(p + m, k);
        assert(c == pos[(p + m) % k]);
        assert(c < devs.len());
        assert(pos.contains(c));
        assert(cycle_result(sm, i, online, results[m as int], states[(m + 1) as int]));
        reveal(cycle_result);
        assert(cycle_target(devs, c, online) is Some);
    }
}

/// Cycling one group again and again, with the same devices online and
/// nothing else changing it in between, goes round its online members. Let
/// `states[j + 1]` and `results[j]` be what the `j`-th cycle of group `i`
/// gives from `states[j]`, the first selection be online, and `k` members
/// be online. Then every cycle succeeds; after `j` cycles the selection is
/// the online member `j` places further on, in the order of the group;
/// after `k` cycles it is back where it started, and not before.
pub proof fn lemma_cycle_rounds(
    states: Seq<StateModel>,
    results: Seq<Result<GroupDevice, CommandError>>,
    i: int,
    online: Seq<String>,
)
    requires
        states.len() == results.len() + 1,
        0 <= i < states[0].groups.len(),
        states[0].groups[i].devices.len() <= usize::MAX,
        states[0].groups[i].current_index < states[0].groups[i].devices.len(),
        is_online(
            online,
            states[0].groups[i].devices[states[0].groups[i].current_index as int].id@,
        ),
        forall|j: int|
            0 <= j < results.len() ==> cycle_result(
                states[j],
                i,
                online,
                #[trigger] results[j],
                states[j + 1],
            ),
    ensures
        ({
            let devs = states[0].groups[i].devices;
            let c0 = states[0].groups[i].current_index;
            let pos = online_positions(devs, online);
            let k = pos.len() as int;
            let p = position_of(pos, c0 as usize);
            &&& k > 0
            &&& forall|j: int| 0 <= j < results.len() ==> (#[trigger] results[j]) is Ok
            &&& forall|j: int|
                0 <= j < states.len() ==> (#[trigger] states[j]).groups[i].current_index as int
                    == pos[(p + j) % k] as int
            &&& k < states.len() ==> states[k].groups[i].current_index == c0
            &&& forall|j: int|
                0 < j < k && j < states.len() ==> (#[trigger] states[j]).groups[i].current_index
                    != c0
        }),
{
    let devs = states[0].groups[i].devices;
    let c0 = states[0].groups[i].current_index as usize;
    lemma_cycle_is_rotation(devs, online, c0);
    let pos = online_positions(devs, online);
    let k = pos.len() as int;
    let p = position_of(pos, c0);
    assert forall|j: int| 0 <= j < results.len() implies (#[trigger] results[j]) is Ok by {
        lemma_cycle_chain(states, results, i, online, (j + 1) as nat);
    }
    assert forall|j: int| 0 <= j < states.len() implies (#[trigger] states[j]).groups[i].current_index
        as int == pos[(p + j) % k] as int by {
        lemma_cycle_chain(states, results, i, online, j as nat);
        assert(cycle_times(devs, online, c0, j as nat) == pos[(p + j) % k]);
    }
    if k < states.len() {
        lemma_cycle_chain(states, results, i, online, k as nat);
    }
    assert forall|j: int| 0 < j < k && j < states.len() implies (#[trigger] states[
        j
    ]).groups[i].current_index != c0 by {
        lemma_cycle_chain(states, results, i, online, j as nat);
        assert(cycle_times(devs, online, c0, j as nat) != cycle_times(devs, online, c0, 0));
    }
}

/// The group of `s` with id `id` (meaningful where there is one).
pub open spec fn group_of(s: StateModel, id: Seq<char>) -> GroupModel {
    s.groups[group_index(s.groups, id)]
}

proof fn lemma_models_index(groups: Seq<DeviceGroup>)
    ensures
        models(groups).len() == groups.len(),
        forall|i: int| 0 <= i < groups.len() ==> #[trigger] models(groups)[i] == groups[i]@,
{
}

/// Under the invariant, the group with a given id stands at `group_index`.
pub proof fn lemma_group_index(groups: Seq<GroupModel>, id: Seq<char>)
    requires
        groups_wf(groups),
        has_group(groups, id),
    ensures
        0 <= group_index(groups, id) < groups.len(),
        groups[group_index(groups, id)].id == id,
{
    let i = choose|i: int| 0 <= i < groups.len() && (#[trigger] groups[i]).id == id;
    assert forall|j: int| 0 <= j < i implies (#[trigger] groups[j]).id != id by {
        assert(groups[j].id != groups[i].id);
    }
}

/// What a command reports once the default-device switch has answered: a
/// failed switch becomes `SwitchFailed`. The selection has moved either way.
pub fn switch_outcome(outcome: Result<(), String>) -> (r: Result<(), CommandError>)
    ensures
        outcome is Ok ==> r is Ok,
        outcome is Err ==> r == Err::<(), CommandError>(CommandError::SwitchFailed(outcome->Err_0)),
{
    match outcome {
        Ok(()) => Ok(()),
        Err(reason) => Err(CommandError::SwitchFailed(reason)),
    }
}

/// The position of the group with id `id`, if there is one.
pub fn find_group(groups: &Vec<DeviceGroup>, id: &String) -> (r: Option<usize>)
    ensures
        r is None <==> !has_group(models(groups@), id@),
        r matches Some(i) ==> i < groups.len() && i == group_index(models(groups@), id@)
            && groups@[i as int].id@ == id@,
{
    proof {
        lemma_models_index(groups@);
    }
    let mut k: usize = 0;
    while k < groups.len()
        invariant
            k <= groups.len(),
            forall|m: int| 0 <= m < k ==> (#[trigger] groups@[m]).id@ != id@,
            models(groups@).len() == groups.len(),
            forall|i: int| 0 <= i < groups.len() ==> #[trigger] models(groups@)[i] == groups@[i]@,
        decreases groups.len() - k,
    {
        if groups[k].id == *id {
            proof {
                let gs = models(groups@);
                assert(gs[k as int].id == id@);
                assert(has_group(gs, id@));
                let c = group_index(gs, id@);
                assert(0 <= k < gs.len() && gs[k as int].id == id@ && forall|j: int|
                    0 <= j < k ==> (#[trigger] gs[j]).id != id@);
                assert(c == k);
            }
            return Some(k);
        }
        k = k + 1;
    }
    proof {
        let gs = models(groups@);
        assert forall|i: int| 0 <= i < gs.len() implies (#[trigger] gs[i]).id != id@ by {
            assert(gs[i] == groups@[i]@);
        }
    }
    None
}

/// Whether two optional shortcuts have the same text.
pub fn same_shortcut(a: &Option<String>, b: &Option<String>) -> (r: bool)
    ensures
        r == (shortcut_view(*a) == shortcut_view(*b)),
{
    match (a, b) {
        (Some(x), Some(y)) => *x == *y,
        (None, None) => true,
        _ => false,
    }
}

/// A copy of every group, in order.
pub fn get_groups(state: &AppState) -> (r: Vec<DeviceGroup>)
    ensures
        models(r@) == state@.groups,
{
    let mut r: Vec<DeviceGroup> = Vec::new();
    let mut i: usize = 0;
    while i < state.groups.len()
        invariant
            i <= state.groups.len(),
            r@.len() == i,
            forall|k: int| 0 <= k < i ==> (#[trigger] r@[k])@ == state.groups@[k]@,
        decreases state.groups.len() - i,
    {
        r.push(copy_group(&state.groups[i]));
        i = i + 1;
    }
    assert(models(r@) =~= models(state.groups@));
    r
}

/// The current settings.
pub fn get_settings(state: &AppState) -> (r: AppSettings)
    ensures
        r == state@.settings,
{
    state.settings
}

/// Replaces the settings; the groups stay as they are.
pub fn update_settings(state: &mut AppState, settings: AppSettings)
    ensures
        final(state)@ == (StateModel { groups: old(state)@.groups, settings }),
        old(state).wf() ==> final(state).wf(),
{
    state.settings = settings;
}

/// Adds a new group with the given id, name, members and shortcut, its
/// selection on the first member. `registration` is what the shortcut
/// registry answered to the shortcut; it is read only when there is one.
/// A refused shortcut fails the command with `ShortcutConflict` and
/// leaves the state as it was.
pub fn create_group(
    state: &mut AppState,
    id: String,
    name: String,
    devices: Vec<GroupDevice>,
    shortcut: Option<String>,
    registration: Result<(), String>,
) -> (r: Result<DeviceGroup, CommandError>)
    requires
        old(state).wf(),
        !has_group(old(state)@.groups, id@),
    ensures
        final(state).wf(),
        shortcut is Some && registration is Err ==> r == Err::<DeviceGroup, CommandError>(
            CommandError::ShortcutConflict(registration->Err_0),
        ) && final(state)@ == old(state)@,
        !(shortcut is Some && registration is Err) ==> r is Ok && r->Ok_0@ == new_group_model(
            id@,
            name@,
            devices@,
            shortcut_view(shortcut),
        ) && final(state)@ == (StateModel {
            groups: old(state)@.groups.push(r->Ok_0@),
            settings: old(state)@.settings,
        }),
{
    if shortcut.is_some() {
        if let Err(reason) = registration {
            return Err(CommandError::ShortcutConflict(reason));
        }
    }
    let group = DeviceGroup { id, name, devices, shortcut, current_index: 0 };
    let copy = copy_group(&group);
    let ghost before = state.groups@;
    state.groups.push(copy);
    proof {
        assert(models(state.groups@) =~= models(before).push(group@));
    }
    Ok(group)
}

/// The shortcut registrations that replacing a group by `group` calls for.
/// Fails with `GroupNotFound` where no group has its id and with
/// `InvalidIndex` where its selection lies outside its members.
pub fn plan_update(state: &AppState, group: &DeviceGroup) -> (r: Result<ShortcutChange, CommandError>)
    ensures
        !has_group(state@.groups, group.id@) ==> r matches Err(CommandError::GroupNotFound),
        has_group(state@.groups, group.id@) && !group@.wf() ==> r matches Err(
            CommandError::InvalidIndex,
        ),
        has_group(state@.groups, group.id@) && group@.wf() ==> r is Ok,
        r matches Ok(c) ==> {
            let old_shortcut = group_of(state@, group.id@).shortcut;
            if old_shortcut == group@.shortcut {
                c.unregister is None && c.register is None
            } else {
                shortcut_view(c.unregister) == old_shortcut && shortcut_view(c.register)
                    == group@.shortcut
            }
        },
{
    let found = find_group(&state.groups, &group.id);
    match found {
        None => Err(CommandError::GroupNotFound),
        Some(i) => {
            if group.devices.len() > 0 && group.current_index >= group.devices.len() {
                return Err(CommandError::InvalidIndex);
            }
            proof {
                lemma_models_index(state.groups@);
            }
            let existing = &state.groups[i];
            if same_shortcut(&existing.shortcut, &group.shortcut) {
                Ok(ShortcutChange { unregister: None, register: None })
            } else {
                Ok(
                    ShortcutChange {
                        unregister: copy_shortcut(&existing.shortcut),
                        register: copy_shortcut(&group.shortcut),
                    },
                )
            }
        },
    }
}

/// Replaces the group that has `group`'s id by `group`. `registration` is
/// what the shortcut registry answered to the new shortcut; it is read only
/// when the shortcut changes to a new one. Fails, leaving the state as it
/// was, with `GroupNotFound`, with `InvalidIndex` where the selection lies
/// outside the members, or with `ShortcutConflict` where the new shortcut
/// was refused.
pub fn update_group(state: &mut AppState, group: DeviceGroup, registration: Result<(), String>) -> (r:
    Result<(), CommandError>)
    requires
        old(state).wf(),
    ensures
        final(state).wf(),
        !has_group(old(state)@.groups, group.id@) ==> r matches Err(CommandError::GroupNotFound),
        has_group(old(state)@.groups, group.id@) && !group@.wf() ==> r matches Err(
            CommandError::InvalidIndex,
        ),
        ({
            let changed = group_of(old(state)@, group.id@).shortcut != group@.shortcut;
            has_group(old(state)@.groups, group.id@) && group@.wf() && changed
                && group.shortcut is Some && registration is Err ==> r == Err::<
                (),
                CommandError,
            >(CommandError::ShortcutConflict(registration->Err_0))
        }),
        r is Err ==> final(state)@ == old(state)@,
        ({
            let changed = group_of(old(state)@, group.id@).shortcut != group@.shortcut;
            has_group(old(state)@.groups, group.id@) && group@.wf() && !(changed
                && group.shortcut is Some && registration is Err) ==> r is Ok
        }),
        r is Ok ==> {
            let changed = group_of(old(state)@, group.id@).shortcut != group@.shortcut;
            &&& has_group(old(state)@.groups, group.id@)
            &&& group@.wf()
            &&& !(changed && group.shortcut is Some && registration is Err)
            &&& final(state)@ == (StateModel {
                groups: old(state)@.groups.update(
                    group_index(old(state)@.groups, group.id@),
                    group@,
                ),
                settings: old(state)@.settings,
            })
        },
{
    let found = find_group(&state.groups, &group.id);
    match found {
        None => Err(CommandError::GroupNotFound),
        Some(i) => {
            if group.devices.len() > 0 && group.current_index >= group.devices.len() {
                return Err(CommandError::InvalidIndex);
            }
            proof {
                lemma_models_index(state.groups@);
            }
            if !same_shortcut(&state.groups[i].shortcut, &group.shortcut) && group.shortcut.is_some() {
                if let Err(reason) = registration {
                    return Err(CommandError::ShortcutConflict(reason));
                }
            }
            let ghost before = state.groups@;
            let ghost g = group@;
            state.groups.set(i, group);
            proof {
                assert(models(state.groups@) =~= models(before).update(i as int, g));
                let gs = models(state.groups@);
                assert forall|a: int, b: int|
                    0 <= a < gs.len() && 0 <= b < gs.len() && a != b implies (#[trigger] gs[a]).id
                    != (#[trigger] gs[b]).id by {
                    assert(models(before)[a].id == gs[a].id);
                    assert(models(before)[b].id == gs[b].id);
                }
            }
            Ok(())
        },
    }
}

/// Removes the group with id `id` and hands it back, so that its shortcut
/// can be unregistered. Fails with `GroupNotFound`, leaving the state as it
/// was, where no group has that id. Afterwards no group has that id.
pub fn delete_group(state: &mut AppState, id: &String) -> (r: Result<DeviceGroup, CommandError>)
    requires
        old(state).wf(),
    ensures
        final(state).wf(),
        !has_group(old(state)@.groups, id@) ==> (r matches Err(CommandError::GroupNotFound))
            && final(state)@ == old(state)@,
        has_group(old(state)@.groups, id@) ==> r is Ok && r->Ok_0@ == group_of(old(state)@, id@)
            && final(state)@ == (StateModel {
            groups: old(state)@.groups.remove(group_index(old(state)@.groups, id@)),
            settings: old(state)@.settings,
        }),
        !has_group(final(state)@.groups, id@),
{
    let found = find_group(&state.groups, id);
    match found {
        None => Err(CommandError::GroupNotFound),
        Some(i) => {
            let ghost before = state.groups@;
            proof {
                lemma_models_index(before);
            }
            let g = state.groups.remove(i);
            proof {
                let gs = models(state.groups@);
                assert(gs =~= models(before).remove(i as int));
                assert forall|a: int, b: int|
                    0 <= a < gs.len() && 0 <= b < gs.len() && a != b implies (#[trigger] gs[a]).id
                    != (#[trigger] gs[b]).id by {
                    let a0 = if a < i { a } else { a + 1 };
                    let b0 = if b < i { b } else { b + 1 };
                    assert(models(before)[a0].id == gs[a].id);
                    assert(models(before)[b0].id == gs[b].id);
                }
                assert forall|a: int| 0 <= a < gs.len() implies (#[trigger] gs[a]).id != id@ by {
                    let a0 = if a < i { a } else { a + 1 };
                    assert(models(before)[a0].id == gs[a].id);
                    assert(models(before)[i as int].id == id@);
                }
            }
            Ok(g)
        },
    }
}

/// Moves the selection of the group with id `id` to its next online
/// member (see `cycle_target`) and hands back that member, which the
/// caller then makes the default device. `online` holds the ids of the
/// devices online now. Fails, leaving the state as it was, with
/// `GroupNotFound`, with `EmptyGroup` where the group has no members, or
/// with `NoOnlineDevices` where none of them is online.
pub fn cycle_group(state: &mut AppState, id: &String, online: &Vec<String>) -> (r: Result<
    GroupDevice,
    CommandError,
>)
    requires
        old(state).wf(),
    ensures
        final(state).wf(),
        r is Err ==> final(state)@ == old(state)@,
        !has_group(old(state)@.groups, id@) ==> r matches Err(CommandError::GroupNotFound),
        has_group(old(state)@.groups, id@) ==> cycle_result(
            old(state)@,
            group_index(old(state)@.groups, id@),
            online@,
            r,
            final(state)@,
        ),
{
    let found = find_group(&state.groups, id);
    match found {
        None => Err(CommandError::GroupNotFound),
        Some(i) => {
            let ghost before = state@;
            let r = cycle_at(state, i, online);
            proof {
                lemma_cycle_result_found(before, i as int, online@, r, state@);
            }
            r
        },
    }
}

/// Cycles the group at position `i`.
pub(crate) fn cycle_at(state: &mut AppState, i: usize, online: &Vec<String>) -> (r: Result<
    GroupDevice,
    CommandError,
>)
    requires
        old(state).wf(),
        i < old(state).groups.len(),
    ensures
        final(state).wf(),
        cycle_result(old(state)@, i as int, online@, r, final(state)@),
{
    proof {
        lemma_models_index(state.groups@);
        reveal(cycle_result);
    }
    if state.groups[i].devices.len() == 0 {
        return Err(CommandError::EmptyGroup);
    }
    let t = next_index(&state.groups[i].devices, state.groups[i].current_index, online)?;
    select_at(state, i, t)
}

/// Makes member `index` the selection of the group with id `id` and hands
/// it back, which the caller then makes the default device. `online` holds
/// the ids of the devices online now. Fails, leaving the state as it was,
/// with `GroupNotFound`, with `InvalidIndex` where `index` is not a member,
/// or with `DeviceOffline` where that member is not online.
pub fn select_group_device(state: &mut AppState, id: &String, index: usize, online: &Vec<String>) -> (r:
    Result<GroupDevice, CommandError>)
    requires
        old(state).wf(),
    ensures
        final(state).wf(),
        r is Err ==> final(state)@ == old(state)@,
        !has_group(old(state)@.groups, id@) ==> r matches Err(CommandError::GroupNotFound),
        has_group(old(state)@.groups, id@) ==> {
            let g = group_of(old(state)@, id@);
            let i = group_index(old(state)@.groups, id@);
            if index >= g.devices.len() {
                r matches Err(CommandError::InvalidIndex)
            } else if !is_online(online@, g.devices[index as int].id@) {
                r matches Err(CommandError::DeviceOffline)
            } else {
                r == Ok::<GroupDevice, CommandError>(g.devices[index as int])
                    && final(state)@ == with_selection(old(state)@, i, index as nat)
            }
        },
{
    let found = find_group(&state.groups, id);
    match found {
        None => Err(CommandError::GroupNotFound),
        Some(i) => {
            proof {
                lemma_models_index(state.groups@);
            }
            if index >= state.groups[i].devices.len() {
                return Err(CommandError::InvalidIndex);
            }
            if !contains_id(online, &state.groups[i].devices[index].id) {
                return Err(CommandError::DeviceOffline);
            }
            select_at(state, i, index)
        },
    }
}

/// Moves the selection of the group at position `i` to member `t`.
fn select_at(state: &mut AppState, i: usize, t: usize) -> (r: Result<GroupDevice, CommandError>)
    requires
        old(state).wf(),
        i < old(state).groups.len(),
        t < old(state).groups@[i as int].devices.len(),
    ensures
        final(state).wf(),
        r == Ok::<GroupDevice, CommandError>(old(state)@.groups[i as int].devices[t as int]),
        final(state)@ == with_selection(old(state)@, i as int, t as nat),
{
    let ghost before = state.groups@;
    proof {
        lemma_models_index(before);
    }
    let device = copy_device(&state.groups[i].devices[t]);
    state.groups[i].current_index = t;
    proof {
        let gs = models(state.groups@);
        assert(gs =~= with_selection(old(state)@, i as int, t as nat).groups);
        assert forall|a: int, b: int|
            0 <= a < gs.len() && 0 <= b < gs.len() && a != b implies (#[trigger] gs[a]).id
            != (#[trigger] gs[b]).id by {
            assert(models(before)[a].id == gs[a].id);
            assert(models(before)[b].id == gs[b].id);
        }
    }
    Ok(device)
}

} // verus!
