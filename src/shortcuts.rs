//! Dispatch of a fired global shortcut to the group that owns it.
use vstd::prelude::*;
use crate::commands::cycle_at;
use crate::commands::cycle_result;
use crate::commands::lemma_cycle_result_found;
use crate::platform::hotkey_code;
use crate::platform::shortcut_code;
use crate::state::AppState;
use crate::state::CommandError;
use crate::state::GroupDevice;
use crate::state::models;
use crate::state::group_index;
use crate::state::groups_wf;
use crate::state::has_group;
use crate::commands::lemma_group_index;
use crate::state::StateModel;
use crate::state::GroupModel;

verus! {

/// Whether `fired` is one of `codes`.
pub open spec fn has_code(codes: Seq<Option<u32>>, fired: u32) -> bool {
    exists|i: int| 0 <= i < codes.len() && codes[i] == Some(fired)
}

/// The first position in `codes` that holds `fired`.
pub open spec fn first_code(codes: Seq<Option<u32>>, fired: u32) -> int {
    choose|i: int|
        0 <= i < codes.len() && codes[i] == Some(fired) && forall|j: int|
            0 <= j < i ==> codes[j] != Some(fired)
}

/// The first position in `codes` that holds `fired`, if any.
pub fn find_code(codes: &Vec<Option<u32>>, fired: u32) -> (r: Option<usize>)
    ensures
        r is None <==> !has_code(codes@, fired),
        r matches Some(i) ==> i < codes.len() && i == first_code(codes@, fired) && codes@[i as int]
            == Some(fired),
{
    let mut k: usize = 0;
    while k < codes.len()
        invariant
            k <= codes.len(),
            forall|m: int| 0 <= m < k ==> codes@[m] != Some(fired),
        decreases codes.len() - k,
    {
        let hit = match codes[k] {
            Some(c) => c == fired,
            None => false,
        };
        if hit {
            proof {
                assert(has_code(codes@, fired));
                let c = first_code(codes@, fired);
                assert(c == k);
            }
            return Some(k);
        }
        k = k + 1;
    }
    None
}

/// The key-combination id of an optional shortcut text.
pub open spec fn code_of(shortcut: Option<Seq<char>>) -> Option<u32> {
    match shortcut {
        Some(t) => hotkey_code(t),
        None => None,
    }
}

/// The key-combination id of each group's shortcut, in the order of the groups.
pub open spec fn group_codes(groups: Seq<GroupModel>) -> Seq<Option<u32>> {
    Seq::new(groups.len(), |i: int| code_of(groups[i].shortcut))
}

proof fn lemma_first_code_from(codes: Seq<Option<u32>>, fired: u32, i: int)
    requires
        0 <= i < codes.len(),
        codes[i] == Some(fired),
    ensures
        exists|k: int|
            0 <= k < codes.len() && codes[k] == Some(fired) && forall|j: int|
                0 <= j < k ==> codes[j] != Some(fired),
    decreases i,
{
    if exists|j: int| 0 <= j < i && codes[j] == Some(fired) {
        let j = choose|j: int| 0 <= j < i && codes[j] == Some(fired);
        lemma_first_code_from(codes, fired, j);
    } else {
        assert(forall|j: int| 0 <= j < i ==> codes[j] != Some(fired));
    }
}

/// Where `fired` is among `codes`, `first_code` is its first position.
pub proof fn lemma_first_code(codes: Seq<Option<u32>>, fired: u32)
    requires
        has_code(codes, fired),
    ensures
        0 <= first_code(codes, fired) < codes.len(),
        codes[first_code(codes, fired)] == Some(fired),
        forall|j: int| 0 <= j < first_code(codes, fired) ==> codes[j] != Some(fired),
{
    let i = choose|i: int| 0 <= i < codes.len() && codes[i] == Some(fired);
    lemma_first_code_from(codes, fired, i);
}

/// Deleting a group forgets it. After `delete_group(id)` the groups, as
/// `get_groups` lists them, hold no group with that id, and a fired shortcut
/// that reaches a group at all reaches one with another id; the other groups
/// stay, in their order.
pub proof fn lemma_delete_forgets(before: StateModel, id: Seq<char>)
    requires
        groups_wf(before.groups),
        has_group(before.groups, id),
    ensures
        ({
            let after = before.groups.remove(group_index(before.groups, id));
            &&& groups_wf(after)
            &&& after.len() == before.groups.len() - 1
            &&& !has_group(after, id)
            &&& forall|fired: u32|
                #[trigger] has_code(group_codes(after), fired) ==> after[first_code(
                    group_codes(after),
                    fired,
                )].id != id
        }),
{
    lemma_group_index(before.groups, id);
    let k = group_index(before.groups, id);
    let gs = before.groups.remove(k);
    assert forall|a: int| 0 <= a < gs.len() implies (#[trigger] gs[a]).id != id by {
        let a0 = if a < k { a } else { a + 1 };
        assert(before.groups[a0].id == gs[a].id);
    }
    assert forall|a: int, b: int|
        0 <= a < gs.len() && 0 <= b < gs.len() && a != b implies (#[trigger] gs[a]).id
        != (#[trigger] gs[b]).id by {
        let a0 = if a < k { a } else { a + 1 };
        let b0 = if b < k { b } else { b + 1 };
        assert(before.groups[a0].id == gs[a].id);
        assert(before.groups[b0].id == gs[b].id);
    }
    assert forall|a: int| 0 <= a < gs.len() implies (#[trigger] gs[a]).wf() by {
        let a0 = if a < k { a } else { a + 1 };
        assert(before.groups[a0] == gs[a]);
    }
    assert forall|fired: u32| #[trigger] has_code(group_codes(gs), fired) implies gs[first_code(
        group_codes(gs),
        fired,
    )].id != id by {
        lemma_first_code(group_codes(gs), fired);
    }
}

impl AppState {
    /// The key-combination id of each group's shortcut, in the order of the
    /// groups; `None` for a group without a shortcut or with one that
    /// describes no key combination.
    pub fn shortcut_codes(&self) -> (r: Vec<Option<u32>>)
        ensures
            r@ == group_codes(self@.groups),
    {
        let mut r: Vec<Option<u32>> = Vec::new();
        let mut i: usize = 0;
        let ghost gs = self@.groups;
        assert(gs.len() == self.groups.len());
        while i < self.groups.len()
            invariant
                i <= self.groups.len(),
                gs == self@.groups,
                gs.len() == self.groups.len(),
                r@.len() == i,
                forall|k: int| 0 <= k < i ==> (#[trigger] r@[k]) == code_of(gs[k].shortcut),
            decreases self.groups.len() - i,
        {
            assert(gs[i as int] == self.groups@[i as int]@);
            let code = match &self.groups[i].shortcut {
                Some(text) => shortcut_code(text.as_str()),
                None => None,
            };
            r.push(code);
            i = i + 1;
        }
        assert(r@ =~= group_codes(gs));
        r
    }

    /// Cycles the first group whose key-combination id in `codes` is `fired`.
    /// Fails with `GroupNotFound`, leaving the state as it was, where none is.
    pub fn cycle_by_code(&mut self, codes: &Vec<Option<u32>>, fired: u32, online: &Vec<String>) -> (r:
        Result<GroupDevice, CommandError>)
        requires
            old(self).wf(),
            codes@.len() == old(self)@.groups.len(),
        ensures
            final(self).wf(),
            !has_code(codes@, fired) ==> (r matches Err(CommandError::GroupNotFound)) && final(self)@
                == old(self)@,
            has_code(codes@, fired) ==> 0 <= first_code(codes@, fired) < codes.len() && codes@[first_code(
                codes@,
                fired,
            )] == Some(fired),
            has_code(codes@, fired) ==> cycle_result(
                old(self)@,
                first_code(codes@, fired),
                online@,
                r,
                final(self)@,
            ),
    {
        match find_code(codes, fired) {
            None => Err(CommandError::GroupNotFound),
            Some(i) => {
                assert(models(self.groups@).len() == self.groups@.len());
                let ghost before = self@;
                let r = cycle_at(self, i, online);
                proof {
                    lemma_cycle_result_found(before, i as int, online@, r, self@);
                }
                r
            },
        }
    }

    /// Handles a fired global shortcut with key-combination id `fired`: the
    /// first group whose shortcut describes that combination is cycled,
    /// whatever text its shortcut was written in. Fails with `GroupNotFound`,
    /// leaving the state as it was, where no group's shortcut matches.
    pub fn cycle_by_shortcut(&mut self, fired: u32, online: &Vec<String>) -> (r: Result<
        GroupDevice,
        CommandError,
    >)
        requires
            old(self).wf(),
        ensures
            final(self).wf(),
            !has_code(group_codes(old(self)@.groups), fired) ==> (r matches Err(
                CommandError::GroupNotFound,
            )) && final(self)@ == old(self)@,
            has_code(group_codes(old(self)@.groups), fired) ==> cycle_result(
                old(self)@,
                first_code(group_codes(old(self)@.groups), fired),
                online@,
                r,
                final(self)@,
            ),
    {
        let codes = self.shortcut_codes();
        self.cycle_by_code(&codes, fired, online)
    }
}

} // verus!
