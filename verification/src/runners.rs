//! The runners that the monitor tracks, keyed and ordered by runner id.

use vstd::prelude::*;
use crate::github::{ApiRunner, ApiRunnerView};
use crate::names::{
    decimal, guest_runner_id, registration_runner_id, runner_id_from_guest_name,
    runner_id_from_registration_name,
};
use crate::runner::{base_vm_name, has_base_vm_name, Runner, RunnerView};
use std::collections::BTreeMap;
use vstd::std_specs::btree::{increasing_seq, key_obeys_cmp_spec, spec_btree_map_iter};
use vstd::std_specs::cmp::OrdSpec;
use vstd::std_specs::iter::IteratorSpec;

verus! {

broadcast use vstd::std_specs::btree::group_btree_axioms;

/// The views of a sequence of runners.
pub open spec fn views(v: Seq<Runner>) -> Seq<RunnerView> {
    v.map_values(|r: Runner| r@)
}

/// Runner ids strictly increase along `s`.
pub open spec fn ids_increasing(s: Seq<RunnerView>) -> bool {
    forall|i: int, j: int| 0 <= i < j < s.len() ==> #[trigger] s[i].id < #[trigger] s[j].id
}

pub open spec fn has_id(s: Seq<RunnerView>, id: usize) -> bool {
    exists|i: int| 0 <= i < s.len() && #[trigger] s[i].id == id
}

pub open spec fn index_of_id(s: Seq<RunnerView>, id: usize) -> int {
    choose|i: int| 0 <= i < s.len() && #[trigger] s[i].id == id
}

/// The runners of `s`, keyed by id.
pub open spec fn seq_to_map(s: Seq<RunnerView>) -> Map<usize, RunnerView> {
    Map::new(|id: usize| has_id(s, id), |id: usize| s[index_of_id(s, id)])
}

/// In a sequence with increasing ids, each runner is found under its id.
pub proof fn lemma_seq_to_map_index(s: Seq<RunnerView>, i: int)
    requires
        ids_increasing(s),
        0 <= i < s.len(),
    ensures
        seq_to_map(s).contains_key(s[i].id),
        seq_to_map(s)[s[i].id] == s[i],
{
    assert(has_id(s, s[i].id));
    let j = index_of_id(s, s[i].id);
    if j < i {
        assert(s[j].id < s[i].id);
    } else if j > i {
        assert(s[i].id < s[j].id);
    }
}

/// Replacing a runner by one with the same id replaces it in the map.
pub proof fn lemma_seq_to_map_update(s: Seq<RunnerView>, i: int, r: RunnerView)
    requires
        ids_increasing(s),
        0 <= i < s.len(),
        r.id == s[i].id,
    ensures
        ids_increasing(s.update(i, r)),
        seq_to_map(s.update(i, r)) == seq_to_map(s).insert(r.id, r),
{
    let t = s.update(i, r);
    assert forall|a: int, b: int| 0 <= a < b < t.len() implies #[trigger] t[a].id
        < #[trigger] t[b].id by {
        assert(t[a].id == s[a].id);
        assert(t[b].id == s[b].id);
    }
    let m = seq_to_map(s).insert(r.id, r);
    assert forall|id: usize| #[trigger] seq_to_map(t).contains_key(id) <==> m.contains_key(id) by {
        if has_id(t, id) {
            let k = choose|k: int| 0 <= k < t.len() && #[trigger] t[k].id == id;
            assert(s[k].id == id);
        }
        if has_id(s, id) {
            let k = choose|k: int| 0 <= k < s.len() && #[trigger] s[k].id == id;
            assert(t[k].id == id);
        }
    }
    assert forall|id: usize| #[trigger] seq_to_map(t).contains_key(id) implies seq_to_map(t)[id]
        == m[id] by {
        let k = choose|k: int| 0 <= k < t.len() && #[trigger] t[k].id == id;
        lemma_seq_to_map_index(t, k);
        if k != i {
            assert(s[k] == t[k]);
            lemma_seq_to_map_index(s, k);
        }
    }
    assert(seq_to_map(t) =~= m);
}


/// The views of a map of runners.
pub open spec fn map_views(m: Map<usize, Runner>) -> Map<usize, RunnerView> {
    m.map_values(|r: Runner| r@)
}

/// Each runner is kept under its own id.
pub open spec fn keyed_by_id(m: Map<usize, RunnerView>) -> bool {
    forall|k: usize| #[trigger] m.contains_key(k) ==> m[k].id == k
}

/// The runners of `m` in increasing id order.
pub open spec fn sorted_runners(m: Map<usize, RunnerView>) -> Seq<RunnerView> {
    choose|s: Seq<RunnerView>| ids_increasing(s) && seq_to_map(s) == m
}

/// The map of a sequence keeps each runner under its id.
pub proof fn lemma_seq_to_map_keyed(s: Seq<RunnerView>)
    ensures
        keyed_by_id(seq_to_map(s)),
{
}

/// Two sequences with increasing ids that hold the same ids hold them at
/// the same positions, up to `i`.
proof fn lemma_ids_prefix(s1: Seq<RunnerView>, s2: Seq<RunnerView>, i: int)
    requires
        ids_increasing(s1),
        ids_increasing(s2),
        seq_to_map(s1).dom() == seq_to_map(s2).dom(),
        0 <= i <= s1.len(),
        i <= s2.len(),
    ensures
        forall|j: int| 0 <= j < i ==> #[trigger] s1[j].id == s2[j].id,
    decreases i,
{
    if i > 0 {
        let a = i - 1;
        lemma_ids_prefix(s1, s2, a);
        let x = s1[a].id;
        assert(seq_to_map(s1).contains_key(x)) by {
            assert(has_id(s1, x));
        }
        assert(seq_to_map(s2).contains_key(x));
        let p = choose|p: int| 0 <= p < s2.len() && #[trigger] s2[p].id == x;
        if p < a {
            assert(s1[p].id == s2[p].id);
            assert(s1[p].id < s1[a].id);
        } else if p > a {
            let y = s2[a].id;
            assert(seq_to_map(s2).contains_key(y)) by {
                assert(has_id(s2, y));
            }
            assert(seq_to_map(s1).contains_key(y));
            let q = choose|q: int| 0 <= q < s1.len() && #[trigger] s1[q].id == y;
            assert(s2[a].id < s2[p].id);
            if q < a {
                assert(s1[q].id == s2[q].id);
                assert(s2[q].id < s2[a].id);
            } else if q > a {
                assert(s1[a].id < s1[q].id);
            }
        }
    }
}

/// Only one sequence with increasing ids holds the runners of a map.
pub proof fn lemma_sorted_unique(s1: Seq<RunnerView>, s2: Seq<RunnerView>)
    requires
        ids_increasing(s1),
        ids_increasing(s2),
        seq_to_map(s1) == seq_to_map(s2),
    ensures
        s1 == s2,
{
    let n = if s1.len() < s2.len() { s1.len() as int } else { s2.len() as int };
    lemma_ids_prefix(s1, s2, n);
    if s1.len() > n {
        let x = s1[n].id;
        assert(has_id(s1, x));
        assert(seq_to_map(s2).contains_key(x));
        let p = choose|p: int| 0 <= p < s2.len() && #[trigger] s2[p].id == x;
        assert(s1[p].id == s2[p].id);
        assert(s1[p].id < s1[n].id);
    }
    if s2.len() > n {
        let x = s2[n].id;
        assert(has_id(s2, x));
        assert(seq_to_map(s1).contains_key(x));
        let p = choose|p: int| 0 <= p < s1.len() && #[trigger] s1[p].id == x;
        assert(s1[p].id == s2[p].id);
        assert(s2[p].id < s2[n].id);
    }
    assert forall|i: int| 0 <= i < s1.len() implies s1[i] == s2[i] by {
        lemma_seq_to_map_index(s1, i);
        lemma_seq_to_map_index(s2, i);
    }
    assert(s1 =~= s2);
}

/// `sorted_runners` gives the one sequence with increasing ids that holds
/// the runners of the map.
pub proof fn lemma_sorted_runners(m: Map<usize, RunnerView>, s: Seq<RunnerView>)
    requires
        ids_increasing(s),
        seq_to_map(s) == m,
    ensures
        sorted_runners(m) == s,
{
    let c = sorted_runners(m);
    assert(ids_increasing(c) && seq_to_map(c) == m);
    lemma_sorted_unique(c, s);
}

/// Two sequences with the same ids at each position.
pub proof fn lemma_same_ids(s: Seq<RunnerView>, t: Seq<RunnerView>)
    requires
        ids_increasing(s),
        t.len() == s.len(),
        forall|j: int| 0 <= j < s.len() ==> #[trigger] t[j].id == s[j].id,
    ensures
        ids_increasing(t),
{
    assert forall|a: int, b: int| 0 <= a < b < t.len() implies #[trigger] t[a].id
        < #[trigger] t[b].id by {
        assert(t[a].id == s[a].id);
        assert(t[b].id == s[b].id);
    }
}

pub open spec fn registration_views(v: Seq<ApiRunner>) -> Seq<ApiRunnerView> {
    v.map_values(|r: ApiRunner| r@)
}

pub open spec fn string_views(v: Seq<String>) -> Seq<Seq<char>> {
    v.map_values(|s: String| s@)
}

/// The runner ids that the registration names give, in order, skipping the
/// names that give none.
pub open spec fn registration_ids(regs: Seq<ApiRunnerView>) -> Seq<usize>
    decreases regs.len(),
{
    if regs.len() == 0 {
        Seq::empty()
    } else {
        let rest = registration_ids(regs.drop_last());
        match registration_runner_id(regs.last().name) {
            Some(id) => rest.push(id),
            None => rest,
        }
    }
}

/// The runner ids that the guest names give, in order, skipping the names
/// that give none.
pub open spec fn guest_ids(names: Seq<Seq<char>>) -> Seq<usize>
    decreases names.len(),
{
    if names.len() == 0 {
        Seq::empty()
    } else {
        let rest = guest_ids(names.drop_last());
        match guest_runner_id(names.last()) {
            Some(id) => rest.push(id),
            None => rest,
        }
    }
}

/// The map that inserting the runners of `rs` by id, in order, builds: a
/// later runner replaces an earlier one with its id.
pub open spec fn insert_runners(rs: Seq<RunnerView>) -> Map<usize, RunnerView>
    decreases rs.len(),
{
    if rs.len() == 0 {
        Map::empty()
    } else {
        insert_runners(rs.drop_last()).insert(rs.last().id, rs.last())
    }
}

/// The last of the registrations whose name gives the runner id `id`.
pub open spec fn last_registration(regs: Seq<ApiRunnerView>, id: usize) -> Option<ApiRunnerView>
    decreases regs.len(),
{
    if regs.len() == 0 {
        None
    } else if registration_runner_id(regs.last().name) == Some(id) {
        Some(regs.last())
    } else {
        last_registration(regs.drop_last(), id)
    }
}

/// The last of the guest names that gives the runner id `id`, with the
/// address at its position in `addresses`.
pub open spec fn last_guest(names: Seq<Seq<char>>, addresses: Seq<Option<u32>>, id: usize) -> Option<
    (Seq<char>, Option<u32>),
>
    decreases names.len(),
{
    if names.len() == 0 {
        None
    } else {
        let k = names.len() - 1;
        if guest_runner_id(names[k]) == Some(id) {
            Some((names[k], addresses[k]))
        } else {
            last_guest(names.drop_last(), addresses.take(k), id)
        }
    }
}

/// Each runner of `m` with the last registration whose name gives its id,
/// where there is one.
pub open spec fn attach_registrations(m: Map<usize, RunnerView>, regs: Seq<ApiRunnerView>) -> Map<
    usize,
    RunnerView,
> {
    Map::new(
        |id: usize| m.contains_key(id),
        |id: usize|
            match last_registration(regs, id) {
                Some(reg) => RunnerView { registration: Some(reg), ..m[id] },
                None => m[id],
            },
    )
}

/// Each runner of `m` with the last guest whose name gives its id, and that
/// guest's address, where there is one.
pub open spec fn attach_guests(
    m: Map<usize, RunnerView>,
    names: Seq<Seq<char>>,
    addresses: Seq<Option<u32>>,
) -> Map<usize, RunnerView> {
    Map::new(
        |id: usize| m.contains_key(id),
        |id: usize|
            match last_guest(names, addresses, id) {
                Some((name, address)) => RunnerView {
                    guest_name: Some(name),
                    ipv4_address: address,
                    ..m[id]
                },
                None => m[id],
            },
    )
}

/// The runners that `Runners::new` keeps: the created runners keyed by id,
/// each with the last registration and the last guest whose names give its
/// id.
pub open spec fn new_runners(
    regs: Seq<ApiRunnerView>,
    names: Seq<Seq<char>>,
    addresses: Seq<Option<u32>>,
    created: Seq<RunnerView>,
) -> Map<usize, RunnerView> {
    attach_guests(attach_registrations(insert_runners(created), regs), names, addresses)
}

/// The ids that the registrations give.
fn registration_ids_of(regs: &Vec<ApiRunner>) -> (r: Vec<usize>)
    ensures
        r@ == registration_ids(registration_views(regs@)),
{
    let ghost all = registration_views(regs@);
    let mut r: Vec<usize> = Vec::new();
    let mut i: usize = 0;
    assert(all.take(0) =~= Seq::<ApiRunnerView>::empty());
    while i < regs.len()
        invariant
            all == registration_views(regs@),
            i <= regs.len(),
            r@ == registration_ids(all.take(i as int)),
        decreases regs.len() - i,
    {
        assert(all.take(i + 1).drop_last() =~= all.take(i as int));
        assert(all.take(i + 1).last() == regs@[i as int]@);
        match runner_id_from_registration_name(regs[i].name.as_str()) {
            Some(id) => r.push(id),
            None => {},
        }
        i = i + 1;
    }
    assert(all.take(regs.len() as int) =~= all);
    r
}

/// The ids that the guest names give.
fn guest_ids_of(names: &Vec<String>) -> (r: Vec<usize>)
    ensures
        r@ == guest_ids(string_views(names@)),
{
    let ghost all = string_views(names@);
    let mut r: Vec<usize> = Vec::new();
    let mut i: usize = 0;
    assert(all.take(0) =~= Seq::<Seq<char>>::empty());
    while i < names.len()
        invariant
            all == string_views(names@),
            i <= names.len(),
            r@ == guest_ids(all.take(i as int)),
        decreases names.len() - i,
    {
        assert(all.take(i + 1).drop_last() =~= all.take(i as int));
        assert(all.take(i + 1).last() == names@[i as int]@);
        match runner_id_from_guest_name(names[i].as_str()) {
            Some(id) => r.push(id),
            None => {},
        }
        i = i + 1;
    }
    assert(all.take(names.len() as int) =~= all);
    r
}

pub open spec fn strictly_increasing(s: Seq<usize>) -> bool {
    forall|i: int, j: int| 0 <= i < j < s.len() ==> #[trigger] s[i] < #[trigger] s[j]
}

/// Adds `x` to the increasing ids `v`, once.
fn insert_id(v: &mut Vec<usize>, x: usize)
    requires
        strictly_increasing(old(v)@),
    ensures
        strictly_increasing(final(v)@),
        forall|y: usize| #[trigger] final(v)@.contains(y) <==> (old(v)@.contains(y) || y == x),
{
    let n = v.len();
    let mut p: usize = 0;
    while p < n && v[p] < x
        invariant
            n == v@.len(),
            p <= n,
            forall|j: int| 0 <= j < p ==> #[trigger] v@[j] < x,
        decreases n - p,
    {
        p = p + 1;
    }
    if p < n && v[p] == x {
        return;
    }
    let ghost old_v = v@;
    v.insert(p, x);
    assert forall|a: int, b: int| 0 <= a < b < v@.len() implies #[trigger] v@[a] < #[trigger] v@[b] by {
        if a < p {
            assert(v@[a] == old_v[a]);
        }
        if a > p {
            assert(v@[a] == old_v[a - 1]);
        }
        if b < p {
            assert(v@[b] == old_v[b]);
        }
        if b > p {
            assert(v@[b] == old_v[b - 1]);
            assert(old_v[p as int] > x);
            if p < b - 1 {
                assert(old_v[p as int] < old_v[b - 1]);
            }
        }
    }
    assert forall|y: usize| #[trigger] v@.contains(y) <==> (old_v.contains(y) || y == x) by {
        if v@.contains(y) {
            let k = choose|k: int| 0 <= k < v@.len() && #[trigger] v@[k] == y;
            if k < p {
                assert(old_v[k] == y);
            } else if k > p {
                assert(old_v[k - 1] == y);
            }
        }
        if old_v.contains(y) {
            let k = choose|k: int| 0 <= k < old_v.len() && #[trigger] old_v[k] == y;
            if k < p {
                assert(v@[k] == y);
            } else {
                assert(v@[k + 1] == y);
            }
        }
        if y == x {
            assert(v@[p as int] == y);
        }
    }
}

/// Adds each of `ids` to the increasing ids `v`, once.
fn insert_ids(v: &mut Vec<usize>, ids: &Vec<usize>)
    requires
        strictly_increasing(old(v)@),
    ensures
        strictly_increasing(final(v)@),
        forall|y: usize| #[trigger] final(v)@.contains(y) <==> (old(v)@.contains(y) || ids@.contains(y)),
{
    let ghost start = v@;
    let mut i: usize = 0;
    while i < ids.len()
        invariant
            i <= ids.len(),
            strictly_increasing(v@),
            forall|y: usize| #[trigger] v@.contains(y) <==> (start.contains(y) || ids@.take(i as int).contains(y)),
        decreases ids.len() - i,
    {
        insert_id(v, ids[i]);
        assert forall|y: usize| ids@.take(i + 1).contains(y) <==> (ids@.take(i as int).contains(y) || y == ids@[i as int]) by {
            if ids@.take(i + 1).contains(y) {
                let k = choose|k: int| 0 <= k < i + 1 && #[trigger] ids@.take(i + 1)[k] == y;
                if k < i {
                    assert(ids@.take(i as int)[k] == y);
                }
            }
            if ids@.take(i as int).contains(y) {
                let k = choose|k: int| 0 <= k < i && #[trigger] ids@.take(i as int)[k] == y;
                assert(ids@.take(i + 1)[k] == y);
            }
            if y == ids@[i as int] {
                assert(ids@.take(i + 1)[i as int] == y);
            }
        }
        assert forall|y: usize| #[trigger] v@.contains(y) <==> (start.contains(y) || ids@.take(
            i + 1,
        ).contains(y)) by {
            assert(ids@.take(i + 1).contains(y) <==> (ids@.take(i as int).contains(y) || y
                == ids@[i as int]));
        }
        i = i + 1;
    }
    assert(ids@.take(ids.len() as int) =~= ids@);
}


/// Why a request about a runner was refused.
#[derive(Clone, Copy, Debug, PartialEq, Eq, Structural)]
pub enum RunnerError {
    /// There is no runner with this id, or it has no GitHub registration.
    NotRegistered,
    /// There is no runner with this id.
    NoRunner(usize),
    /// The runner with this id has no libvirt guest.
    NoGuest(usize),
    /// No runner has this IPv4 address.
    NoRunnerWithAddress(u32),
}

pub open spec fn ref_views(s: Seq<&Runner>) -> Seq<RunnerView> {
    s.map_values(|r: &Runner| r@)
}

/// The runners of `s` whose base image name is `key`, in order.
pub open spec fn with_base_vm_name(s: Seq<RunnerView>, key: Seq<char>, prefix: Seq<char>) -> Seq<
    RunnerView,
>
    decreases s.len(),
{
    if s.len() == 0 {
        Seq::empty()
    } else {
        let rest = with_base_vm_name(s.drop_last(), key, prefix);
        if base_vm_name(s.last(), prefix) == key {
            rest.push(s.last())
        } else {
            rest
        }
    }
}

/// Runner `id` has the address `addr` and no runner with a smaller id has.
pub open spec fn is_first_with_address(m: Map<usize, RunnerView>, addr: u32, id: usize) -> bool {
    &&& m.contains_key(id)
    &&& m[id].ipv4_address == Some(addr)
    &&& forall|j: usize| #[trigger] m.contains_key(j) && j < id ==> m[j].ipv4_address != Some(addr)
}

/// The runner with the smallest id among those with the address `addr`.
pub open spec fn first_with_address(m: Map<usize, RunnerView>, addr: u32) -> Option<usize> {
    if exists|id: usize| is_first_with_address(m, addr, id) {
        Some(choose|id: usize| is_first_with_address(m, addr, id))
    } else {
        None
    }
}

/// The runners of `s` after a refresh of their guests' addresses: a runner
/// with a guest takes the address in `addresses` at its position.
pub open spec fn refreshed(s: Seq<RunnerView>, addresses: Seq<Option<u32>>) -> Seq<RunnerView> {
    Seq::new(
        s.len(),
        |i: int|
            if s[i].guest_name is Some {
                RunnerView { ipv4_address: addresses[i], ..s[i] }
            } else {
                s[i]
            },
    )
}

/// The changes that a refresh of the addresses makes: runner id, address
/// before, address after, in runner order.
pub open spec fn address_changes(s: Seq<RunnerView>, addresses: Seq<Option<u32>>) -> Seq<
    (usize, Option<u32>, Option<u32>),
>
    decreases s.len(),
{
    if s.len() == 0 {
        Seq::empty()
    } else {
        let k = s.len() - 1;
        let rest = address_changes(s.drop_last(), addresses);
        if s[k].guest_name is Some && s[k].ipv4_address != addresses[k] {
            rest.push((s[k].id, s[k].ipv4_address, addresses[k]))
        } else {
            rest
        }
    }
}


/// The position, in `rs`, of the first runner whose guest has the address
/// `addr`; `rs` holds the runners of `m` in increasing id order.
fn position_with_address(rs: &Vec<&Runner>, addr: u32, Ghost(m): Ghost<Map<usize, RunnerView>>) -> (r: Option<usize>)
    requires
        ids_increasing(ref_views(rs@)),
        seq_to_map(ref_views(rs@)) == m,
    ensures
        match r {
            Some(i) => i < rs@.len() && is_first_with_address(m, addr, rs@[i as int]@.id)
                && first_with_address(m, addr) == Some(rs@[i as int]@.id),
            None => first_with_address(m, addr) is None,
        },
{
    let ghost s = ref_views(rs@);
    let n = rs.len();
    let mut i: usize = 0;
    while i < n
        invariant
            n == s.len(),
            s == ref_views(rs@),
            ids_increasing(s),
            seq_to_map(s) == m,
            i <= n,
            forall|j: int| 0 <= j < i ==> #[trigger] s[j].ipv4_address != Some(addr),
        decreases n - i,
    {
        let runner: &Runner = rs[i];
        assert(s[i as int] == runner@);
        if runner.ipv4_address() == Some(addr) {
            proof {
                let id = s[i as int].id;
                lemma_seq_to_map_index(s, i as int);
                assert forall|j: usize| #[trigger] m.contains_key(j) && j < id implies m[
                    j
                ].ipv4_address != Some(addr) by {
                    let k = choose|k: int| 0 <= k < s.len() && #[trigger] s[k].id == j;
                    lemma_seq_to_map_index(s, k);
                    if k > i {
                        assert(s[i as int].id < s[k].id);
                    }
                }
                assert(is_first_with_address(m, addr, id));
                let c = choose|c: usize| is_first_with_address(m, addr, c);
                if c < id {
                    assert(m.contains_key(c));
                } else if c > id {
                    assert(m.contains_key(id));
                }
            }
            return Some(i);
        }
        i = i + 1;
    }
    proof {
        if exists|id: usize| is_first_with_address(m, addr, id) {
            let id = choose|id: usize| is_first_with_address(m, addr, id);
            let k = choose|k: int| 0 <= k < s.len() && #[trigger] s[k].id == id;
            lemma_seq_to_map_index(s, k);
            assert(s[k].ipv4_address != Some(addr));
        }
    }
    None
}

/// The runners of `partial(s, addresses, i)`: the first `i` refreshed.
pub open spec fn refreshed_prefix(s: Seq<RunnerView>, addresses: Seq<Option<u32>>, i: int) -> Seq<
    RunnerView,
> {
    Seq::new(s.len(), |j: int| if j < i { refreshed(s, addresses)[j] } else { s[j] })
}

/// The runners that the monitor tracks, keyed by runner id.
pub struct Runners {
    runners: BTreeMap<usize, Runner>,
}

impl View for Runners {
    type V = Map<usize, RunnerView>;

    /// The runners keyed by id.
    closed spec fn view(&self) -> Map<usize, RunnerView> {
        map_views(self.runners@)
    }
}

impl Runners {
    #[verifier::type_invariant]
    spec fn keyed_by_own_id(&self) -> bool {
        keyed_by_id(map_views(self.runners@))
    }

    /// The runners in increasing id order.
    pub closed spec fn ordered(&self) -> Seq<RunnerView> {
        sorted_runners(self@)
    }

    /// The ids of all runners with live resources: those that the
    /// registration names and the guest names give, each once, in
    /// increasing order.
    pub fn runner_ids(registrations: &Vec<ApiRunner>, guest_names: &Vec<String>) -> (r: Vec<
        usize,
    >)
        ensures
            strictly_increasing(r@),
            forall|id: usize| #[trigger]
                r@.contains(id) <==> (registration_ids(registration_views(registrations@)).contains(
                    id,
                ) || guest_ids(string_views(guest_names@)).contains(id)),
    {
        let from_registrations = registration_ids_of(registrations);
        let from_guests = guest_ids_of(guest_names);
        let mut ids: Vec<usize> = Vec::new();
        insert_ids(&mut ids, &from_registrations);
        insert_ids(&mut ids, &from_guests);
        ids
    }

    /// Tracks the runners in `created`, keyed by id (a later one replaces an
    /// earlier one with its id), then attaches to each its live resources:
    /// the last registration whose name gives its id, and the last guest
    /// name that gives its id together with the entry of
    /// `guest_ipv4_addresses` at that name's position, the guest's address.
    pub fn new(
        registrations: Vec<ApiRunner>,
        guest_names: Vec<String>,
        guest_ipv4_addresses: Vec<Option<u32>>,
        created: Vec<Runner>,
    ) -> (r: Runners)
        requires
            guest_ipv4_addresses.len() == guest_names.len(),
        ensures
            r@ == new_runners(
                registration_views(registrations@),
                string_views(guest_names@),
                guest_ipv4_addresses@,
                views(created@),
            ),
    {
        let ghost regs = registration_views(registrations@);
        let ghost names = string_views(guest_names@);
        let ghost addresses = guest_ipv4_addresses@;
        let ghost made = views(created@);

        let mut m: BTreeMap<usize, Runner> = BTreeMap::new();
        let mut created = created;
        let n = created.len();
        let mut k: usize = 0;
        assert(made.take(0) =~= Seq::<RunnerView>::empty());
        assert(map_views(m@) =~= Map::<usize, RunnerView>::empty());
        while k < n
            invariant
                n == made.len(),
                k <= n,
                views(created@) == made.skip(k as int),
                keyed_by_id(map_views(m@)),
                map_views(m@) == insert_runners(made.take(k as int)),
            decreases n - k,
        {
            assert(views(created@).len() == created@.len());
            assert(views(created@)[0] == made[k as int]);
            let ghost before = created@;
            let r = created.remove(0);
            assert(r@ == made[k as int]);
            assert(made.take(k + 1).drop_last() =~= made.take(k as int));
            assert forall|j: int| 0 <= j < created@.len() implies #[trigger] views(created@)[j]
                == made.skip(k + 1)[j] by {
                assert(views(before)[j + 1] == made.skip(k as int)[j + 1]);
            }
            assert(views(created@) =~= made.skip(k + 1));
            let id = r.id();
            let ghost old_m = map_views(m@);
            let ghost rv = r@;
            m.insert(id, r);
            assert(map_views(m@) =~= old_m.insert(id, rv));
            k = k + 1;
        }
        assert(made.take(n as int) =~= made);

        let ghost m0 = insert_runners(made);
        let mut registrations = registrations;
        let n = registrations.len();
        let mut k: usize = 0;
        assert(regs.take(0) =~= Seq::<ApiRunnerView>::empty());
        assert(map_views(m@) =~= attach_registrations(m0, regs.take(0)));
        while k < n
            invariant
                n == regs.len(),
                k <= n,
                registration_views(registrations@) == regs.skip(k as int),
                keyed_by_id(map_views(m@)),
                map_views(m@).dom() == m0.dom(),
                map_views(m@) == attach_registrations(m0, regs.take(k as int)),
            decreases n - k,
        {
            assert(registration_views(registrations@).len() == registrations@.len());
            assert(registration_views(registrations@)[0] == regs[k as int]);
            let ghost before = registrations@;
            let reg = registrations.remove(0);
            assert(reg@ == regs[k as int]);
            assert forall|j: int| 0 <= j < registrations@.len() implies #[trigger] registration_views(
                registrations@,
            )[j] == regs.skip(k + 1)[j] by {
                assert(registration_views(before)[j + 1] == regs.skip(k as int)[j + 1]);
            }
            assert(registration_views(registrations@) =~= regs.skip(k + 1));
            let ghost t = regs.take(k + 1);
            assert(t.drop_last() =~= regs.take(k as int));
            assert(t.last() == regs[k as int]);
            let ghost old_m = map_views(m@);
            match crate::names::runner_id_from_registration_name(reg.name.as_str()) {
                Some(id) => {
                    match m.remove(&id) {
                        Some(mut r) => {
                            assert(old_m.contains_key(id) && old_m[id] == r@);
                            r.set_registration(reg);
                            let ghost rv = r@;
                            m.insert(id, r);
                            assert(map_views(m@) =~= old_m.insert(id, rv));
                            assert(map_views(m@) =~= attach_registrations(m0, t));
                        },
                        None => {
                            assert(map_views(m@) =~= old_m);
                            assert(map_views(m@) =~= attach_registrations(m0, t));
                        },
                    }
                },
                None => {
                    assert(map_views(m@) =~= attach_registrations(m0, t));
                },
            }
            k = k + 1;
        }
        assert(regs.take(n as int) =~= regs);

        let ghost m1 = attach_registrations(m0, regs);
        let mut guest_names = guest_names;
        let mut guest_ipv4_addresses = guest_ipv4_addresses;
        let n = guest_names.len();
        let mut k: usize = 0;
        assert(names.take(0) =~= Seq::<Seq<char>>::empty());
        assert(map_views(m@) =~= attach_guests(m1, names.take(0), addresses.take(0)));
        while k < n
            invariant
                n == names.len(),
                n == addresses.len(),
                k <= n,
                string_views(guest_names@) == names.skip(k as int),
                guest_ipv4_addresses@ == addresses.skip(k as int),
                keyed_by_id(map_views(m@)),
                map_views(m@).dom() == m1.dom(),
                map_views(m@) == attach_guests(m1, names.take(k as int), addresses.take(k as int)),
            decreases n - k,
        {
            assert(string_views(guest_names@).len() == guest_names@.len());
            assert(string_views(guest_names@)[0] == names[k as int]);
            let ghost before = guest_names@;
            let name = guest_names.remove(0);
            let address = guest_ipv4_addresses.remove(0);
            assert(name@ == names[k as int]);
            assert(address == addresses[k as int]);
            assert forall|j: int| 0 <= j < guest_names@.len() implies #[trigger] string_views(
                guest_names@,
            )[j] == names.skip(k + 1)[j] by {
                assert(string_views(before)[j + 1] == names.skip(k as int)[j + 1]);
            }
            assert(string_views(guest_names@) =~= names.skip(k + 1));
            assert(guest_ipv4_addresses@ =~= addresses.skip(k + 1));
            let ghost t = names.take(k + 1);
            let ghost ta = addresses.take(k + 1);
            assert(t.drop_last() =~= names.take(k as int));
            assert(ta.take(k as int) =~= addresses.take(k as int));
            assert(t[k as int] == names[k as int]);
            assert(ta[k as int] == addresses[k as int]);
            let ghost old_m = map_views(m@);
            match crate::names::runner_id_from_guest_name(name.as_str()) {
                Some(id) => {
                    match m.remove(&id) {
                        Some(mut r) => {
                            assert(old_m.contains_key(id) && old_m[id] == r@);
                            r.set_guest(name, address);
                            let ghost rv = r@;
                            m.insert(id, r);
                            assert(map_views(m@) =~= old_m.insert(id, rv));
                            assert(map_views(m@) =~= attach_guests(m1, t, ta));
                        },
                        None => {
                            assert(map_views(m@) =~= old_m);
                            assert(map_views(m@) =~= attach_guests(m1, t, ta));
                        },
                    }
                },
                None => {
                    assert(map_views(m@) =~= attach_guests(m1, t, ta));
                },
            }
            k = k + 1;
        }
        assert(names.take(n as int) =~= names);
        assert(addresses.take(n as int) =~= addresses);
        Runners { runners: m }
    }

    /// The runners in increasing id order; each runner is the one kept
    /// under its id.
    pub fn iter(&self) -> (r: Vec<&Runner>)
        ensures
            ref_views(r@) == self.ordered(),
            ids_increasing(ref_views(r@)),
            seq_to_map(ref_views(r@)) == self@,
    {
        proof {
            use_type_invariant(self);
        }
        assert(vstd::laws_cmp::obeys_cmp::<usize>());
        assert(key_obeys_cmp_spec::<usize>());
        let mut r: Vec<&Runner> = Vec::new();
        for kv in it: self.runners.iter()
            invariant
                r@.len() == it.index(),
                it.seq() == spec_btree_map_iter(&self.runners).remaining(),
                forall|i: int| 0 <= i < it.index() ==> r@[i] == *it.seq()[i].1,
        {
            let (_id, runner) = kv;
            r.push(runner);
        }
        proof {
            let s = spec_btree_map_iter(&self.runners).remaining();
            let m = self.runners@;
            let rv = ref_views(r@);
            assert(increasing_seq(s.map_values(|kv: (&usize, &Runner)| *kv.0)));
            assert forall|i: int| 0 <= i < rv.len() implies #[trigger] rv[i].id == *s[i].0 by {
                assert(m.contains_key(*s[i].0));
                assert(map_views(m).contains_key(*s[i].0));
            }
            assert forall|a: int, b: int| 0 <= a < b < rv.len() implies #[trigger] rv[a].id
                < #[trigger] rv[b].id by {
                let keys = s.map_values(|kv: (&usize, &Runner)| *kv.0);
                assert(keys[a].cmp_spec(&keys[b]) is Less);
                assert(rv[a].id == *s[a].0);
                assert(rv[b].id == *s[b].0);
            }
            assert forall|k: usize| #[trigger] seq_to_map(rv).contains_key(k) <==> self@.contains_key(k) by {
                if self@.contains_key(k) {
                    assert(m.contains_key(k));
                    assert(s.contains((&k, &m[k])));
                    let i = choose|i: int| 0 <= i < s.len() && s[i] == (&k, &m[k]);
                    assert(rv[i].id == k);
                }
                if seq_to_map(rv).contains_key(k) {
                    let i = choose|i: int| 0 <= i < rv.len() && #[trigger] rv[i].id == k;
                    assert(m.contains_key(*s[i].0));
                }
            }
            assert forall|k: usize| #[trigger] seq_to_map(rv).contains_key(k) implies seq_to_map(rv)[k]
                == self@[k] by {
                let i = choose|i: int| 0 <= i < rv.len() && #[trigger] rv[i].id == k;
                lemma_seq_to_map_index(rv, i);
                assert(m.contains_key(*s[i].0) && m[*s[i].0] == *s[i].1);
            }
            assert(seq_to_map(rv) =~= self@);
            lemma_sorted_runners(self@, rv);
        }
        r
    }

    /// The runner with id `id`, or why it cannot be reached: `Err` holds the
    /// given error where there is no such runner.
    fn find(&self, id: usize, missing: RunnerError) -> (r: Result<&Runner, RunnerError>)
        ensures
            match r {
                Ok(runner) => self@.contains_key(id) && self@[id] == runner@,
                Err(e) => !self@.contains_key(id) && e == missing,
            },
    {
        match self.get(id) {
            Some(runner) => Ok(runner),
            None => Err(missing),
        }
    }

    /// The id of the GitHub registration to remove for runner `id`.
    pub fn unregister_runner(&self, id: usize) -> (r: Result<usize, RunnerError>)
        ensures
            match r {
                Ok(registration_id) => {
                    &&& self@.contains_key(id)
                    &&& self@[id].registration matches Some(reg)
                    &&& reg.id == registration_id
                },
                Err(e) => e == RunnerError::NotRegistered && !(self@.contains_key(id)
                    && self@[id].registration is Some),
            },
    {
        let runner = self.find(id, RunnerError::NotRegistered)?;
        match runner.registration() {
            Some(registration) => Ok(registration.id),
            None => Err(RunnerError::NotRegistered),
        }
    }

    /// The arguments of the script that reserves runner `id` for a workflow
    /// run: the registration id, `unique_id`, and the run's page
    /// `<qualified_repo>/actions/runs/<run_id>`.
    pub fn reserve_runner(
        &self,
        id: usize,
        unique_id: &str,
        qualified_repo: &str,
        run_id: &str,
    ) -> (r: Result<Vec<String>, RunnerError>)
        ensures
            match r {
                Ok(args) => {
                    &&& self@.contains_key(id)
                    &&& self@[id].registration matches Some(reg)
                    &&& args@.map_values(|a: String| a@) == seq![
                        decimal(reg.id as nat),
                        unique_id@,
                        qualified_repo@ + "/actions/runs/"@ + run_id@,
                    ]
                },
                Err(e) => if !self@.contains_key(id) {
                    e == RunnerError::NoRunner(id)
                } else {
                    self@[id].registration is None && e == RunnerError::NotRegistered
                },
            },
    {
        let runner = self.find(id, RunnerError::NoRunner(id))?;
        let registration = match runner.registration() {
            Some(registration) => registration,
            None => {
                return Err(RunnerError::NotRegistered);
            },
        };
        let mut page = String::from_str(qualified_repo);
        page.append("/actions/runs/");
        page.append(run_id);
        let mut args: Vec<String> = Vec::new();
        args.push(crate::names::decimal_string(registration.id));
        args.push(String::from_str(unique_id));
        args.push(page);
        assert(args@.map_values(|a: String| a@) =~= seq![
            decimal(registration.id as nat),
            unique_id@,
            qualified_repo@ + "/actions/runs/"@ + run_id@,
        ]);
        Ok(args)
    }

    /// The libvirt guest of runner `id`.
    fn guest_of(&self, id: usize) -> (r: Result<String, RunnerError>)
        ensures
            match r {
                Ok(name) => self@.contains_key(id) && self@[id].guest_name == Some(name@),
                Err(e) => if !self@.contains_key(id) {
                    e == RunnerError::NoRunner(id)
                } else {
                    self@[id].guest_name is None && e == RunnerError::NoGuest(id)
                },
            },
    {
        let runner = self.find(id, RunnerError::NoRunner(id))?;
        match runner.guest_name() {
            Some(name) => Ok(name.clone()),
            None => Err(RunnerError::NoGuest(id)),
        }
    }

    /// The libvirt guest to take a screenshot of for runner `id`.
    pub fn screenshot_runner(&self, id: usize) -> (r: Result<String, RunnerError>)
        ensures
            match r {
                Ok(name) => self@.contains_key(id) && self@[id].guest_name == Some(name@),
                Err(e) => if !self@.contains_key(id) {
                    e == RunnerError::NoRunner(id)
                } else {
                    self@[id].guest_name is None && e == RunnerError::NoGuest(id)
                },
            },
    {
        self.guest_of(id)
    }

    /// The libvirt guest whose screenshot to refresh for runner `id`.
    pub fn update_screenshot(&self, id: usize) -> (r: Result<String, RunnerError>)
        ensures
            match r {
                Ok(name) => self@.contains_key(id) && self@[id].guest_name == Some(name@),
                Err(e) => if !self@.contains_key(id) {
                    e == RunnerError::NoRunner(id)
                } else {
                    self@[id].guest_name is None && e == RunnerError::NoGuest(id)
                },
            },
    {
        self.guest_of(id)
    }

    /// The GitHub just-in-time configuration of the first runner, in id
    /// order, whose guest has the address `remote_addr`.
    pub fn github_jitconfig(&self, remote_addr: u32) -> (r: Result<Option<&String>, RunnerError>)
        ensures
            match first_with_address(self@, remote_addr) {
                Some(id) => {
                    &&& r matches Ok(config)
                    &&& match config {
                        Some(c) => self@[id].github_jitconfig == Some(c@),
                        None => self@[id].github_jitconfig is None,
                    }
                },
                None => r == Err::<Option<&String>, RunnerError>(
                    RunnerError::NoRunnerWithAddress(remote_addr),
                ),
            },
    {
        let rs = self.iter();
        match position_with_address(&rs, remote_addr, Ghost(self@)) {
            Some(i) => {
                let runner: &Runner = rs[i];
                proof {
                    lemma_seq_to_map_index(ref_views(rs@), i as int);
                }
                Ok(runner.github_jitconfig())
            },
            None => Err(RunnerError::NoRunnerWithAddress(remote_addr)),
        }
    }

    /// The id of the runner whose boot script to serve to `remote_addr`: the
    /// first runner, in id order, whose guest has that address.
    pub fn boot_script(&self, remote_addr: u32) -> (r: Option<usize>)
        ensures
            r == first_with_address(self@, remote_addr),
    {
        let rs = self.iter();
        match position_with_address(&rs, remote_addr, Ghost(self@)) {
            Some(i) => {
                let runner: &Runner = rs[i];
                Some(runner.id())
            },
            None => None,
        }
    }

    /// The runners, in id order, whose base image name is `key`. Every
    /// runner must have a base image name.
    pub fn by_profile(&self, key: &str, prefix: &str) -> (r: Vec<&Runner>)
        requires
            forall|id: usize| #[trigger]
                self@.contains_key(id) ==> has_base_vm_name(self@[id], prefix@),
        ensures
            ref_views(r@) == with_base_vm_name(self.ordered(), key@, prefix@),
    {
        let rs = self.iter();
        let ghost s = self.ordered();
        let mut r: Vec<&Runner> = Vec::new();
        let n = rs.len();
        let mut i: usize = 0;
        assert(s.take(0) =~= Seq::<RunnerView>::empty());
        while i < n
            invariant
                n == s.len(),
                s == self.ordered(),
                s == ref_views(rs@),
                ids_increasing(s),
                forall|id: usize| #[trigger]
                    self@.contains_key(id) ==> has_base_vm_name(self@[id], prefix@),
                self@ == seq_to_map(s),
                i <= n,
                ref_views(r@) == with_base_vm_name(s.take(i as int), key@, prefix@),
            decreases n - i,
        {
            let runner: &Runner = rs[i];
            proof {
                lemma_seq_to_map_index(s, i as int);
            }
            assert(s.take(i + 1).drop_last() =~= s.take(i as int));
            assert(s.take(i + 1).last() == runner@);
            let base = runner.base_vm_name(prefix);
            if crate::names::str_eq(base.as_str(), key) {
                r.push(runner);
            }
            assert(ref_views(r@) =~= with_base_vm_name(s.take(i + 1), key@, prefix@));
            i = i + 1;
        }
        assert(s.take(n as int) =~= s);
        r
    }

    /// Refreshes the addresses of the runners' guests: `addresses` holds, at
    /// each runner's position in id order, the address that its guest has
    /// now, and a runner with a guest takes it. Returns the changes that this
    /// made, in runner order, as (id, address before, address after).
    pub fn update_ipv4_addresses(&mut self, addresses: &Vec<Option<u32>>) -> (r: Vec<
        (usize, Option<u32>, Option<u32>),
    >)
        requires
            addresses@.len() == old(self).ordered().len(),
        ensures
            final(self).ordered() == refreshed(old(self).ordered(), addresses@),
            final(self)@ == seq_to_map(refreshed(old(self).ordered(), addresses@)),
            r@ == address_changes(old(self).ordered(), addresses@),
    {
        let ghost s = self.ordered();
        let ghost a = addresses@;
        let mut ids: Vec<usize> = Vec::new();
        {
            let rs = self.iter();
            let mut i: usize = 0;
            while i < rs.len()
                invariant
                    s == ref_views(rs@),
                    i <= rs@.len(),
                    ids@.len() == i,
                    forall|j: int| 0 <= j < i ==> #[trigger] ids@[j] == s[j].id,
                decreases rs@.len() - i,
            {
                let runner: &Runner = rs[i];
                ids.push(runner.id());
                i = i + 1;
            }
        }
        proof {
            use_type_invariant(&*self);
            assert(ids_increasing(s) && seq_to_map(s) == self@);
        }
        let mut m: BTreeMap<usize, Runner> = BTreeMap::new();
        std::mem::swap(&mut m, &mut self.runners);
        let mut changes: Vec<(usize, Option<u32>, Option<u32>)> = Vec::new();
        let n = ids.len();
        let mut i: usize = 0;
        assert(refreshed_prefix(s, a, 0) =~= s);
        assert(s.take(0) =~= Seq::<RunnerView>::empty());
        while i < n
            invariant
                n == s.len(),
                a.len() == n,
                a == addresses@,
                ids_increasing(s),
                forall|j: int| 0 <= j < n ==> #[trigger] ids@[j] == s[j].id,
                ids@.len() == n,
                i <= n,
                map_views(m@) == seq_to_map(refreshed_prefix(s, a, i as int)),
                changes@ == address_changes(s.take(i as int), a),
            decreases n - i,
        {
            let ghost p = refreshed_prefix(s, a, i as int);
            proof {
                lemma_same_ids(s, p);
                lemma_seq_to_map_index(p, i as int);
            }
            let id = ids[i];
            let ghost old_m = map_views(m@);
            match m.remove(&id) {
                Some(mut r) => {
                    assert(r@ == s[i as int]);
                    if r.guest_name().is_some() {
                        let old_address = r.ipv4_address();
                        let new_address = addresses[i];
                        if old_address != new_address {
                            changes.push((id, old_address, new_address));
                        }
                        r.set_ipv4_address(new_address);
                    }
                    let ghost rv = r@;
                    m.insert(id, r);
                    assert(map_views(m@) =~= old_m.insert(id, rv));
                    proof {
                        lemma_seq_to_map_update(p, i as int, rv);
                        assert(p.update(i as int, rv) =~= refreshed_prefix(s, a, i + 1));
                    }
                },
                None => {
                    assert(false);
                },
            }
            assert(s.take(i + 1).drop_last() =~= s.take(i as int));
            assert(changes@ =~= address_changes(s.take(i + 1), a));
            i = i + 1;
        }
        assert(refreshed_prefix(s, a, n as int) =~= refreshed(s, a));
        assert(s.take(n as int) =~= s);
        proof {
            lemma_same_ids(s, refreshed(s, a));
            lemma_sorted_runners(map_views(m@), refreshed(s, a));
            lemma_seq_to_map_keyed(refreshed(s, a));
        }
        self.runners = m;
        changes
    }

    /// The runner with id `id`.
    pub fn get(&self, id: usize) -> (r: Option<&Runner>)
        ensures
            match r {
                Some(runner) => self@.contains_key(id) && self@[id] == runner@,
                None => !self@.contains_key(id),
            },
    {
        assert(vstd::laws_cmp::obeys_cmp::<usize>());
        match self.runners.get(&id) {
            Some(runner) => Some(runner),
            None => None,
        }
    }
}

} // verus!
