//! The cycling engine: which member of a group is selected next.
use vstd::prelude::*;
use vstd::arithmetic::div_mod::lemma_add_mod_noop_right;
use vstd::arithmetic::div_mod::lemma_mod_sub_multiples_vanish;
use vstd::arithmetic::div_mod::lemma_small_mod;
use crate::state::CommandError;
use crate::state::GroupDevice;

verus! {

/// Whether `id` is one of the online device ids.
pub open spec fn is_online(online: Seq<String>, id: Seq<char>) -> bool {
    exists|j: int| 0 <= j < online.len() && (#[trigger] online[j])@ == id
}

/// The positions in `devices` whose device is online, in ascending order.
pub open spec fn online_positions(devices: Seq<GroupDevice>, online: Seq<String>) -> Seq<usize>
    decreases devices.len(),
{
    if devices.len() == 0 {
        Seq::empty()
    } else {
        let rest = online_positions(devices.drop_last(), online);
        if is_online(online, devices.last().id@) {
            rest.push((devices.len() - 1) as usize)
        } else {
            rest
        }
    }
}

/// Where `x` stands in `pos`; 0 where it does not stand there.
pub open spec fn position_of(pos: Seq<usize>, x: usize) -> int {
    if pos.contains(x) {
        choose|p: int| 0 <= p < pos.len() && pos[p] == x
    } else {
        0
    }
}

/// The index a group moves to from `current`: the online member after the
/// current one, wrapping round; from an offline selection, the second online
/// member (the first one if it is alone). `None` when no member is online.
pub open spec fn cycle_target(devices: Seq<GroupDevice>, current: usize, online: Seq<String>) -> Option<usize> {
    let pos = online_positions(devices, online);
    if pos.len() == 0 {
        None
    } else {
        Some(pos[(position_of(pos, current) + 1) % (pos.len() as int)])
    }
}

/// The online positions lie in range, are online, ascend strictly, and
/// include every online member.
pub proof fn lemma_online_positions(devices: Seq<GroupDevice>, online: Seq<String>)
    requires
        devices.len() <= usize::MAX,
    ensures
        forall|k: int|
            0 <= k < online_positions(devices, online).len() ==> {
                let i = #[trigger] online_positions(devices, online)[k];
                &&& i < devices.len()
                &&& is_online(online, devices[i as int].id@)
            },
        forall|k1: int, k2: int|
            0 <= k1 < k2 < online_positions(devices, online).len() ==> (#[trigger] online_positions(
                devices,
                online,
            )[k1]) < (#[trigger] online_positions(devices, online)[k2]),
        forall|i: int|
            0 <= i < devices.len() && is_online(online, (#[trigger] devices[i]).id@)
                ==> online_positions(devices, online).contains(i as usize),
    decreases devices.len(),
{
    if devices.len() > 0 {
        let prefix = devices.drop_last();
        lemma_online_positions(prefix, online);
        let rest = online_positions(prefix, online);
        if is_online(online, devices.last().id@) {
            let pos = rest.push((devices.len() - 1) as usize);
            assert(pos.len() > 0 && pos[pos.len() - 1] == (devices.len() - 1) as usize);
            assert forall|i: int|
                0 <= i < devices.len() && is_online(online, (#[trigger] devices[i]).id@)
                implies pos.contains(i as usize) by {
                if i < devices.len() - 1 {
                    assert(prefix[i] == devices[i]);
                    let k = choose|k: int| 0 <= k < rest.len() && rest[k] == i as usize;
                    assert(pos[k] == i as usize);
                } else {
                    assert(pos[pos.len() - 1] == i as usize);
                }
            }
        } else {
            assert forall|i: int|
                0 <= i < devices.len() && is_online(online, (#[trigger] devices[i]).id@)
                implies rest.contains(i as usize) by {
                assert(i != devices.len() - 1);
                assert(prefix[i] == devices[i]);
            }
        }
    }
}

/// Where some member of a group is online, cycling succeeds, from any
/// selection, and lands on a member that is online.
pub proof fn lemma_cycle_lands_online(devices: Seq<GroupDevice>, online: Seq<String>, current: usize)
    requires
        devices.len() <= usize::MAX,
        exists|i: int| 0 <= i < devices.len() && is_online(online, (#[trigger] devices[i]).id@),
    ensures
        cycle_target(devices, current, online) is Some,
        ({
            let t = cycle_target(devices, current, online)->Some_0;
            t < devices.len() && is_online(online, devices[t as int].id@)
        }),
{
    lemma_online_positions(devices, online);
    let i = choose|i: int| 0 <= i < devices.len() && is_online(online, (#[trigger] devices[i]).id@);
    let pos = online_positions(devices, online);
    assert(pos.contains(i as usize));
    let p = position_of(pos, current);
    if pos.contains(current) {
        assert(0 <= p < pos.len());
    }
    let q = (p + 1) % (pos.len() as int);
    assert(0 <= q < pos.len());
}

/// Whether `id` is one of the online device ids.
pub fn contains_id(online: &Vec<String>, id: &String) -> (r: bool)
    ensures
        r == is_online(online@, id@),
{
    let mut j: usize = 0;
    while j < online.len()
        invariant
            j <= online.len(),
            forall|m: int| 0 <= m < j ==> (#[trigger] online@[m])@ != id@,
        decreases online.len() - j,
    {
        if online[j] == *id {
            return true;
        }
        j = j + 1;
    }
    false
}

/// The indices of the members of `devices` that are online, in order.
pub fn online_indices(devices: &Vec<GroupDevice>, online: &Vec<String>) -> (r: Vec<usize>)
    ensures
        r@ == online_positions(devices@, online@),
{
    let mut r: Vec<usize> = Vec::new();
    let mut i: usize = 0;
    while i < devices.len()
        invariant
            i <= devices.len(),
            r@ == online_positions(devices@.subrange(0, i as int), online@),
        decreases devices.len() - i,
    {
        let on = contains_id(online, &devices[i].id);
        proof {
            let s = devices@.subrange(0, i + 1);
            assert(s.drop_last() == devices@.subrange(0, i as int));
            assert(s.last() == devices@[i as int]);
        }
        if on {
            r.push(i);
        }
        i = i + 1;
    }
    assert(devices@.subrange(0, devices.len() as int) == devices@);
    r
}

/// Where `x` stands in the strictly ascending `pos`; 0 where it does not.
fn find_position(pos: &Vec<usize>, x: usize) -> (r: usize)
    requires
        forall|k1: int, k2: int| 0 <= k1 < k2 < pos.len() ==> pos@[k1] < pos@[k2],
    ensures
        r == position_of(pos@, x),
        pos.len() > 0 ==> r < pos.len(),
{
    let mut k: usize = 0;
    while k < pos.len()
        invariant
            k <= pos.len(),
            forall|m: int| 0 <= m < k ==> pos@[m] != x,
            forall|k1: int, k2: int| 0 <= k1 < k2 < pos.len() ==> pos@[k1] < pos@[k2],
        decreases pos.len() - k,
    {
        if pos[k] == x {
            proof {
                assert(pos@.contains(x));
                let p = choose|p: int| 0 <= p < pos.len() && pos@[p] == x;
                assert(p == k);
            }
            return k;
        }
        k = k + 1;
    }
    0
}

/// The index that cycling moves a group to, or `NoOnlineDevices` when none of
/// its members is online.
pub fn next_index(devices: &Vec<GroupDevice>, current_index: usize, online: &Vec<String>) -> (r:
    Result<usize, CommandError>)
    ensures
        r is Ok <==> cycle_target(devices@, current_index, online@) is Some,
        r matches Ok(t) ==> Some(t) == cycle_target(devices@, current_index, online@),
        r is Err ==> r matches Err(CommandError::NoOnlineDevices),
        r matches Ok(t) ==> t < devices.len() && is_online(online@, devices@[t as int].id@),
{
    let pos = online_indices(devices, online);
    proof {
        assert(devices@.len() == devices.len());
        lemma_online_positions(devices@, online@);
    }
    if pos.len() == 0 {
        return Err(CommandError::NoOnlineDevices);
    }
    let p = find_position(&pos, current_index);
    let t = pos[(p + 1) % pos.len()];
    Ok(t)
}

/// One cycling step from `current`; where no member is online it stays.
pub open spec fn cycle_step(devices: Seq<GroupDevice>, online: Seq<String>, current: usize) -> usize {
    match cycle_target(devices, current, online) {
        Some(t) => t,
        None => current,
    }
}

/// The selection after `n` cycling steps from `current`.
pub open spec fn cycle_times(devices: Seq<GroupDevice>, online: Seq<String>, current: usize, n: nat) -> usize
    decreases n,
{
    if n == 0 {
        current
    } else {
        cycle_step(devices, online, cycle_times(devices, online, current, (n - 1) as nat))
    }
}

proof fn lemma_mod_shift(p: int, j: int, k: int)
    requires
        0 <= p < k,
        0 <= j < k,
    ensures
        (p + j) % k == if p + j < k { p + j } else { p + j - k },
{
    if p + j < k {
        lemma_small_mod((p + j) as nat, k as nat);
    } else {
        lemma_mod_sub_multiples_vanish(p + j, k);
        lemma_small_mod((p + j - k) as nat, k as nat);
    }
}

proof fn lemma_cycle_times_at(devices: Seq<GroupDevice>, online: Seq<String>, current: usize, j: nat)
    requires
        devices.len() <= usize::MAX,
        online_positions(devices, online).len() > 0,
        online_positions(devices, online).contains(current),
    ensures
        cycle_times(devices, online, current, j) == online_positions(devices, online)[(position_of(
            online_positions(devices, online),
            current,
        ) + j) % (online_positions(devices, online).len() as int)],
    decreases j,
{
    let pos = online_positions(devices, online);
    let k = pos.len() as int;
    let p = position_of(pos, current);
    lemma_online_positions(devices, online);
    if j == 0 {
        lemma_small_mod(p as nat, k as nat);
    } else {
        lemma_cycle_times_at(devices, online, current, (j - 1) as nat);
        let q = (p + j - 1) % k;
        let prev = pos[q];
        assert(cycle_times(devices, online, current, (j - 1) as nat) == prev);
        assert(pos.contains(prev));
        let q2 = position_of(pos, prev);
        assert(pos[q2] == prev);
        assert(q2 == q);
        lemma_add_mod_noop_right(1, p + j - 1, k);
    }
}

/// Cycling a group whose selection is online is a rotation of its online
/// members: with `k` of them online, the step `j` lands on the online member
/// `j` places further on in the order of the group, the `k` selections of a
/// full round are all different, and after `k` steps the selection is back
/// where it started.
pub proof fn lemma_cycle_is_rotation(devices: Seq<GroupDevice>, online: Seq<String>, current: usize)
    requires
        devices.len() <= usize::MAX,
        current < devices.len(),
        is_online(online, devices[current as int].id@),
    ensures
        ({
            let pos = online_positions(devices, online);
            let k = pos.len() as int;
            let p = position_of(pos, current);
            &&& k > 0
            &&& 0 <= p < k
            &&& pos[p] == current
            &&& forall|j: nat| #[trigger]
                cycle_times(devices, online, current, j) == pos[(p + j) % k]
            &&& forall|j1: nat, j2: nat|
                j1 < k && j2 < k && j1 != j2 ==> #[trigger] cycle_times(devices, online, current, j1)
                    != #[trigger] cycle_times(devices, online, current, j2)
            &&& cycle_times(devices, online, current, k as nat) == current
        }),
{
    let pos = online_positions(devices, online);
    let k = pos.len() as int;
    lemma_online_positions(devices, online);
    assert(pos.contains(current));
    let p = position_of(pos, current);
    assert forall|j: nat| #[trigger]
        cycle_times(devices, online, current, j) == pos[(p + j) % k] by {
        lemma_cycle_times_at(devices, online, current, j);
    }
    assert forall|j1: nat, j2: nat|
        j1 < k && j2 < k && j1 != j2 implies #[trigger] cycle_times(devices, online, current, j1)
            != #[trigger] cycle_times(devices, online, current, j2) by {
        lemma_mod_shift(p, j1 as int, k);
        lemma_mod_shift(p, j2 as int, k);
        let q1 = (p + j1) % k;
        let q2 = (p + j2) % k;
        assert(q1 != q2);
        if q1 < q2 {
            assert(pos[q1] < pos[q2]);
        } else {
            assert(pos[q2] < pos[q1]);
        }
    }
    lemma_cycle_times_at(devices, online, current, k as nat);
    lemma_mod_sub_multiples_vanish(p + k, k);
    lemma_small_mod(p as nat, k as nat);
}

} // verus!
