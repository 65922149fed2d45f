//! Restoring the state from what the durable store held.
//!
//! The store keeps two entries, the groups and the settings. The caller reads
//! and decodes them; an entry that is absent or could not be decoded arrives
//! here as `None`.
use vstd::prelude::*;
use crate::state::AppSettings;
use crate::state::AppState;
use crate::state::DeviceGroup;
use crate::state::GroupModel;
use crate::state::StateModel;
use crate::state::default_settings;
use crate::state::groups_wf;
use crate::state::models;

verus! {

/// The state that restoring from the entries `groups` and `settings` gives:
/// an entry that is absent, or groups that break the invariant, leave the
/// default in place.
pub open spec fn restored(groups: Option<Seq<GroupModel>>, settings: Option<AppSettings>) -> StateModel {
    StateModel {
        groups: match groups {
            Some(g) => if groups_wf(g) {
                g
            } else {
                Seq::empty()
            },
            None => Seq::empty(),
        },
        settings: match settings {
            Some(s) => s,
            None => default_settings(),
        },
    }
}

/// The models of a stored groups entry.
pub open spec fn entry_models(groups: Option<Vec<DeviceGroup>>) -> Option<Seq<GroupModel>> {
    match groups {
        Some(v) => Some(models(v@)),
        None => None,
    }
}

/// Whether `groups` keep the invariant: every selection in range, no id twice.
pub fn groups_valid(groups: &Vec<DeviceGroup>) -> (r: bool)
    ensures
        r == groups_wf(models(groups@)),
{
    let ghost gs = models(groups@);
    assert(gs.len() == groups.len());
    let mut i: usize = 0;
    while i < groups.len()
        invariant
            i <= groups.len(),
            gs == models(groups@),
            gs.len() == groups.len(),
            forall|a: int| 0 <= a < i ==> (#[trigger] gs[a]).wf(),
            forall|a: int, b: int|
                0 <= a < i && 0 <= b < groups.len() && a != b ==> (#[trigger] gs[a]).id
                    != (#[trigger] gs[b]).id,
        decreases groups.len() - i,
    {
        assert(gs[i as int] == groups@[i as int]@);
        let g = &groups[i];
        if g.devices.len() > 0 && g.current_index >= g.devices.len() {
            return false;
        }
        let mut j: usize = 0;
        while j < groups.len()
            invariant
                i < groups.len(),
                j <= groups.len(),
                gs == models(groups@),
                gs.len() == groups.len(),
                forall|b: int| 0 <= b < j && b != i ==> gs[i as int].id != (#[trigger] gs[b]).id,
            decreases groups.len() - j,
        {
            assert(gs[j as int] == groups@[j as int]@);
            if j != i && groups[j].id == groups[i].id {
                return false;
            }
            j = j + 1;
        }
        i = i + 1;
    }
    true
}

/// Builds the state from the stored entries (see `restored`).
pub fn restore_state(groups: Option<Vec<DeviceGroup>>, settings: Option<AppSettings>) -> (r: AppState)
    ensures
        r@ == restored(entry_models(groups), settings),
        r.wf(),
{
    let settings = match settings {
        Some(s) => s,
        None => AppSettings::default(),
    };
    let groups = match groups {
        Some(v) => if groups_valid(&v) {
            v
        } else {
            Vec::new()
        },
        None => Vec::new(),
    };
    let r = AppState { groups, settings };
    proof {
        if r.groups@.len() == 0 {
            assert(models(r.groups@) =~= Seq::<GroupModel>::empty());
        }
    }
    r
}

/// Restoring what a well-formed state stores gives that state back: the
/// same groups, each with its members in the same order, and the same
/// settings.
pub proof fn lemma_restore_round_trip(s: StateModel)
    requires
        groups_wf(s.groups),
    ensures
        restored(Some(s.groups), Some(s.settings)) == s,
{
}

/// The shortcuts of `groups` that are set, in the order of the groups.
pub open spec fn shortcut_texts(groups: Seq<GroupModel>) -> Seq<Seq<char>>
    decreases groups.len(),
{
    if groups.len() == 0 {
        Seq::empty()
    } else {
        let rest = shortcut_texts(groups.drop_last());
        match groups.last().shortcut {
            Some(t) => rest.push(t),
            None => rest,
        }
    }
}

/// The characters of each string.
pub open spec fn texts(v: Seq<String>) -> Seq<Seq<char>> {
    v.map_values(|s: String| s@)
}

impl AppState {
    /// The shortcuts to register when the state has been restored, in the
    /// order of the groups.
    pub fn registered_shortcuts(&self) -> (r: Vec<String>)
        ensures
            texts(r@) == shortcut_texts(self@.groups),
    {
        let mut r: Vec<String> = Vec::new();
        let mut i: usize = 0;
        let ghost gs = self@.groups;
        assert(gs.len() == self.groups.len());
        while i < self.groups.len()
            invariant
                i <= self.groups.len(),
                gs == self@.groups,
                gs.len() == self.groups.len(),
                texts(r@) == shortcut_texts(gs.subrange(0, i as int)),
            decreases self.groups.len() - i,
        {
            assert(gs[i as int] == self.groups@[i as int]@);
            let ghost prefix = gs.subrange(0, i + 1);
            assert(prefix.drop_last() == gs.subrange(0, i as int));
            assert(prefix.last() == gs[i as int]);
            match &self.groups[i].shortcut {
                Some(text) => {
                    let ghost before = r@;
                    r.push(text.clone());
                    assert(texts(r@) =~= texts(before).push(text@));
                },
                None => {},
            }
            i = i + 1;
        }
        assert(gs.subrange(0, i as int) == gs);
        r
    }
}

} // verus!
