//! Properties of the library as a whole: how names are read back, what the
//! collection of runners keeps, and how lookups by address behave.

use vstd::prelude::*;
use crate::github::{label_with_key, ApiRunnerView};
use crate::runner::{
    base_vm_name, base_vm_name_from_registration, reserved_since_secs, status_of, RunnerView,
    Status,
};
use crate::runners::{
    address_changes, guest_ids, last_guest, last_registration, registration_ids, first_with_address, ids_increasing, insert_runners,
    is_first_with_address, lemma_seq_to_map_index, new_runners, refreshed, seq_to_map,
    with_base_vm_name,
};
use crate::names::{
    all_digits, decimal, decimal_value, digit_char, digit_value, guest_base_name, guest_name,
    guest_runner_id, is_digit, lemma_last_index_of_unique, parse_usize,
    registration_base_name, registration_name, registration_runner_id, rsplit_once, strip_prefix, parse_u64,
};

verus! {

/// The decimal digits of a number are digits and write that number.
pub proof fn lemma_decimal_digits(n: nat)
    ensures
        decimal(n).len() > 0,
        all_digits(decimal(n)),
        decimal_value(decimal(n)) == n,
    decreases n,
{
    if n < 10 {
        assert(decimal(n) == seq![digit_char(n)]);
        assert(decimal(n).drop_last() =~= Seq::<char>::empty());
        assert(digit_char(n) as int == n + '0' as int);
        assert(digit_value(digit_char(n)) == n);
        assert(decimal_value(decimal(n).drop_last()) == 0);
        assert(decimal(n).last() == digit_char(n));
    } else {
        lemma_decimal_digits(n / 10);
        let d = decimal(n);
        assert(d.drop_last() =~= decimal(n / 10));
        assert(n == (n / 10) * 10 + n % 10) by (nonlinear_arith);
        assert(digit_value(digit_char(n % 10)) == n % 10);
        assert(d.last() == digit_char(n % 10));
        assert(decimal_value(d) == decimal_value(decimal(n / 10)) * 10 + n % 10);
        assert forall|i: int| 0 <= i < d.len() implies #[trigger] is_digit(d[i]) by {
            if i < d.len() - 1 {
                assert(d[i] == decimal(n / 10)[i]);
            }
        }
    }
}

/// Reading back a number written in decimal gives that number:
/// `n.to_string().parse::<usize>()` is `Ok(n)`.
pub proof fn lemma_parse_decimal(n: usize)
    ensures
        parse_usize(decimal(n as nat)) == Some(n),
{
    lemma_decimal_digits(n as nat);
    let d = decimal(n as nat);
    assert(is_digit(d[0]));
}

/// Reading back a `u64` written in decimal gives that number:
/// `n.to_string().parse::<u64>()` is `Ok(n)`.
pub proof fn lemma_parse_u64_decimal(n: u64)
    ensures
        parse_u64(decimal(n as nat)) == Some(n),
{
    lemma_decimal_digits(n as nat);
    let d = decimal(n as nat);
    assert(is_digit(d[0]));
}

/// `base.<digits>` split at its last `.`, where the digits are those of `id`.
proof fn lemma_split_base_and_id(base: Seq<char>, id: usize)
    ensures
        rsplit_once(base + seq!['.'] + decimal(id as nat), '.') == Some(
            (base, decimal(id as nat)),
        ),
{
    let d = decimal(id as nat);
    lemma_decimal_digits(id as nat);
    let s = base + seq!['.'] + d;
    let dot = base.len() as int;
    assert(s[dot] == '.');
    assert forall|j: int| dot < j < s.len() implies s[j] != '.' by {
        assert(s[j] == d[j - dot - 1]);
        assert(is_digit(d[j - dot - 1]));
    }
    lemma_last_index_of_unique(s, '.', dot);
    assert(s.take(dot) =~= base);
    assert(s.skip(dot + 1) =~= d);
}

/// A registration name reads back as the runner id and base image name that
/// it was made from, whatever the host (which holds no `@`).
pub proof fn lemma_registration_name_roundtrip(base: Seq<char>, id: usize, host: Seq<char>)
    requires
        forall|i: int| 0 <= i < host.len() ==> host[i] != '@',
    ensures
        registration_runner_id(registration_name(base, id, host)) == Some(id),
        registration_base_name(registration_name(base, id, host)) == Some(base),
{
    let d = decimal(id as nat);
    lemma_decimal_digits(id as nat);
    let rest = base + seq!['.'] + d;
    let s = registration_name(base, id, host);
    assert(s =~= rest + seq!['@'] + host);
    let at = rest.len() as int;
    assert(s[at] == '@');
    assert forall|j: int| at < j < s.len() implies s[j] != '@' by {
        assert(s[j] == host[j - at - 1]);
    }
    lemma_last_index_of_unique(s, '@', at);
    assert(s.take(at) =~= rest);
    lemma_split_base_and_id(base, id);
    lemma_parse_decimal(id);
}

/// A guest name reads back as the runner id and base image name that it was
/// made from.
pub proof fn lemma_guest_name_roundtrip(prefix: Seq<char>, base: Seq<char>, id: usize)
    ensures
        guest_runner_id(guest_name(prefix, base, id)) == Some(id),
        guest_base_name(guest_name(prefix, base, id), prefix) == Some(base),
{
    let d = decimal(id as nat);
    lemma_decimal_digits(id as nat);
    let s = guest_name(prefix, base, id);
    let rest = base + seq!['.'] + d;
    assert(s =~= prefix + rest);
    assert(s.take(prefix.len() as int) =~= prefix);
    assert(s.skip(prefix.len() as int) =~= rest);
    assert(strip_prefix(s, prefix) == Some(rest));
    lemma_split_base_and_id(base, id);
    lemma_split_base_and_id(prefix + base, id);
    assert(prefix + base + seq!['.'] + d =~= s);
    lemma_parse_decimal(id);
}

/// The parts of a runner that attaching live resources leaves alone.
pub open spec fn same_runner(a: RunnerView, b: RunnerView) -> bool {
    &&& a.id == b.id
    &&& a.created_time == b.created_time
    &&& a.github_jitconfig == b.github_jitconfig
    &&& a.image_type == b.image_type
}

proof fn lemma_insert_runners(rs: Seq<RunnerView>)
    ensures
        forall|id: usize| #[trigger]
            insert_runners(rs).contains_key(id) <==> exists|j: int|
                0 <= j < rs.len() && #[trigger] rs[j].id == id,
        forall|id: usize| #[trigger]
            insert_runners(rs).contains_key(id) ==> insert_runners(rs)[id].id == id,
    decreases rs.len(),
{
    if rs.len() > 0 {
        let t = rs.drop_last();
        lemma_insert_runners(t);
        assert forall|id: usize| #[trigger]
            insert_runners(rs).contains_key(id) <==> exists|j: int|
                0 <= j < rs.len() && #[trigger] rs[j].id == id by {
            if insert_runners(t).contains_key(id) {
                let j = choose|j: int| 0 <= j < t.len() && #[trigger] t[j].id == id;
                assert(rs[j].id == id);
            }
            if exists|j: int| 0 <= j < rs.len() && #[trigger] rs[j].id == id {
                let j = choose|j: int| 0 <= j < rs.len() && #[trigger] rs[j].id == id;
                if j < rs.len() - 1 {
                    assert(t[j].id == id);
                }
            }
        }
    }
}

/// `Runners::new` tracks one runner for each id among the created runners,
/// under that id, and attaching registrations and guests changes neither
/// the id, the creation time, the GitHub configuration nor the image type
/// of the runner that was created with that id last.
pub proof fn lemma_new_runners_keys(
    regs: Seq<ApiRunnerView>,
    names: Seq<Seq<char>>,
    addresses: Seq<Option<u32>>,
    created: Seq<RunnerView>,
)
    ensures
        forall|id: usize| #[trigger]
            new_runners(regs, names, addresses, created).contains_key(id) <==> exists|j: int|
                0 <= j < created.len() && #[trigger] created[j].id == id,
        forall|id: usize| #[trigger]
            new_runners(regs, names, addresses, created).contains_key(id) ==> same_runner(
                new_runners(regs, names, addresses, created)[id],
                insert_runners(created)[id],
            ) && new_runners(regs, names, addresses, created)[id].id == id,
{
    lemma_insert_runners(created);
}

/// Where some runner's guest has the address `addr`, a first such runner in
/// id order exists: the lookups by address then find a runner.
pub proof fn lemma_address_found(m: Map<usize, RunnerView>, addr: u32, id: usize)
    requires
        m.contains_key(id),
        m[id].ipv4_address == Some(addr),
    ensures
        first_with_address(m, addr) matches Some(first) && is_first_with_address(m, addr, first)
            && first <= id,
    decreases id,
{
    if is_first_with_address(m, addr, id) {
        let c = choose|c: usize| is_first_with_address(m, addr, c);
        if c < id {
            assert(m.contains_key(c));
        } else if c > id {
            assert(m.contains_key(id));
        }
    } else {
        let j = choose|j: usize| #[trigger] m.contains_key(j) && j < id && m[j].ipv4_address == Some(
            addr,
        );
        lemma_address_found(m, addr, j);
    }
}

/// A refresh of the addresses keeps the same runners under the same ids and
/// changes nothing of them but the address of a runner with a guest.
pub proof fn lemma_refresh_keeps_runners(s: Seq<RunnerView>, addresses: Seq<Option<u32>>)
    requires
        ids_increasing(s),
        addresses.len() == s.len(),
    ensures
        seq_to_map(refreshed(s, addresses)).dom() == seq_to_map(s).dom(),
        forall|id: usize| #[trigger]
            seq_to_map(s).contains_key(id) ==> {
                let before = seq_to_map(s)[id];
                let after = seq_to_map(refreshed(s, addresses))[id];
                &&& after == (RunnerView { ipv4_address: after.ipv4_address, ..before })
                &&& before.guest_name is None ==> after == before
            },
{
    let t = refreshed(s, addresses);
    assert(ids_increasing(t)) by {
        assert forall|a: int, b: int| 0 <= a < b < t.len() implies #[trigger] t[a].id
            < #[trigger] t[b].id by {
            assert(t[a].id == s[a].id);
            assert(t[b].id == s[b].id);
        }
    }
    assert forall|id: usize| #[trigger]
        seq_to_map(t).contains_key(id) <==> seq_to_map(s).contains_key(id) by {
        if seq_to_map(t).contains_key(id) {
            let k = choose|k: int| 0 <= k < t.len() && #[trigger] t[k].id == id;
            assert(s[k].id == id);
        }
        if seq_to_map(s).contains_key(id) {
            let k = choose|k: int| 0 <= k < s.len() && #[trigger] s[k].id == id;
            assert(t[k].id == id);
        }
    }
    assert(seq_to_map(t).dom() =~= seq_to_map(s).dom());
    assert forall|id: usize| #[trigger] seq_to_map(s).contains_key(id) implies {
        let before = seq_to_map(s)[id];
        let after = seq_to_map(t)[id];
        &&& after == (RunnerView { ipv4_address: after.ipv4_address, ..before })
        &&& before.guest_name is None ==> after == before
    } by {
        let k = choose|k: int| 0 <= k < s.len() && #[trigger] s[k].id == id;
        lemma_seq_to_map_index(s, k);
        assert(t[k].id == id);
        lemma_seq_to_map_index(t, k);
    }
}

/// `Runners::by_profile` gives exactly the tracked runners whose base image
/// name is `key`.
pub proof fn lemma_by_profile_members(s: Seq<RunnerView>, key: Seq<char>, prefix: Seq<char>)
    ensures
        forall|r: RunnerView| #[trigger]
            with_base_vm_name(s, key, prefix).contains(r) <==> (s.contains(r) && base_vm_name(
                r,
                prefix,
            ) == key),
    decreases s.len(),
{
    if s.len() > 0 {
        let t = s.drop_last();
        lemma_by_profile_members(t, key, prefix);
        assert forall|r: RunnerView| #[trigger]
            with_base_vm_name(s, key, prefix).contains(r) <==> (s.contains(r) && base_vm_name(
                r,
                prefix,
            ) == key) by {
            let rest = with_base_vm_name(t, key, prefix);
            if s.contains(r) {
                let k = choose|k: int| 0 <= k < s.len() && s[k] == r;
                if k < s.len() - 1 {
                    assert(t[k] == r);
                }
            }
            if t.contains(r) {
                let k = choose|k: int| 0 <= k < t.len() && t[k] == r;
                assert(s[k] == r);
            }
            if base_vm_name(s.last(), prefix) == key {
                assert(with_base_vm_name(s, key, prefix) == rest.push(s.last()));
                if rest.push(s.last()).contains(r) {
                    let k = choose|k: int| 0 <= k < rest.len() + 1 && rest.push(s.last())[k] == r;
                    if k < rest.len() {
                        assert(rest[k] == r);
                    }
                }
                if rest.contains(r) {
                    let k = choose|k: int| 0 <= k < rest.len() && rest[k] == r;
                    assert(rest.push(s.last())[k] == r);
                }
                assert(rest.push(s.last())[rest.len() as int] == s.last());
                assert(s[s.len() - 1] == s.last());
            }
        }
    }
}

/// The registration that `Runners::new` gives a runner is its own: the last
/// registration whose name gives the runner's id; there is none where no
/// name gives it.
pub proof fn lemma_last_registration(regs: Seq<ApiRunnerView>, id: usize)
    ensures
        match last_registration(regs, id) {
            Some(reg) => exists|i: int|
                0 <= i < regs.len() && regs[i] == reg && registration_runner_id(reg.name) == Some(id)
                    && forall|j: int|
                    i < j < regs.len() ==> registration_runner_id(#[trigger] regs[j].name) != Some(id),
            None => forall|i: int|
                0 <= i < regs.len() ==> registration_runner_id(#[trigger] regs[i].name) != Some(id),
        },
    decreases regs.len(),
{
    if regs.len() > 0 {
        let t = regs.drop_last();
        lemma_last_registration(t, id);
        let k = regs.len() - 1;
        if registration_runner_id(regs.last().name) != Some(id) {
            match last_registration(t, id) {
                Some(reg) => {
                    let i = choose|i: int|
                        0 <= i < t.len() && t[i] == reg && registration_runner_id(reg.name) == Some(
                            id,
                        ) && forall|j: int|
                            i < j < t.len() ==> registration_runner_id(#[trigger] t[j].name)
                                != Some(id);
                    assert(regs[i] == reg);
                    assert forall|j: int| i < j < regs.len() implies registration_runner_id(
                        #[trigger] regs[j].name,
                    ) != Some(id) by {
                        if j < k {
                            assert(regs[j] == t[j]);
                        }
                    }
                },
                None => {
                    assert forall|i: int| 0 <= i < regs.len() implies registration_runner_id(
                        #[trigger] regs[i].name,
                    ) != Some(id) by {
                        if i < k {
                            assert(regs[i] == t[i]);
                        }
                    }
                },
            }
        } else {
            assert(regs[k] == regs.last());
        }
    }
}

/// The guest that `Runners::new` gives a runner is its own: the last guest
/// name that gives the runner's id, with the address at that name's
/// position; there is none where no name gives it.
pub proof fn lemma_last_guest(names: Seq<Seq<char>>, addresses: Seq<Option<u32>>, id: usize)
    requires
        addresses.len() == names.len(),
    ensures
        match last_guest(names, addresses, id) {
            Some((name, address)) => exists|i: int|
                0 <= i < names.len() && names[i] == name && addresses[i] == address
                    && guest_runner_id(name) == Some(id) && forall|j: int|
                    i < j < names.len() ==> guest_runner_id(#[trigger] names[j]) != Some(id),
            None => forall|i: int|
                0 <= i < names.len() ==> guest_runner_id(#[trigger] names[i]) != Some(id),
        },
    decreases names.len(),
{
    if names.len() > 0 {
        let k = names.len() - 1;
        let t = names.drop_last();
        let ta = addresses.take(k);
        lemma_last_guest(t, ta, id);
        if guest_runner_id(names[k]) != Some(id) {
            match last_guest(t, ta, id) {
                Some((name, address)) => {
                    let i = choose|i: int|
                        0 <= i < t.len() && t[i] == name && ta[i] == address && guest_runner_id(
                            name,
                        ) == Some(id) && forall|j: int|
                            i < j < t.len() ==> guest_runner_id(#[trigger] t[j]) != Some(id);
                    assert(names[i] == name && addresses[i] == address);
                    assert forall|j: int| i < j < names.len() implies guest_runner_id(
                        #[trigger] names[j],
                    ) != Some(id) by {
                        if j < k {
                            assert(names[j] == t[j]);
                        }
                    }
                },
                None => {
                    assert forall|i: int| 0 <= i < names.len() implies guest_runner_id(
                        #[trigger] names[i],
                    ) != Some(id) by {
                        if i < k {
                            assert(names[i] == t[i]);
                        }
                    }
                },
            }
        }
    }
}

/// The registrations without those whose name gives the runner id `k`.
pub open spec fn registrations_without(regs: Seq<ApiRunnerView>, k: usize) -> Seq<ApiRunnerView>
    decreases regs.len(),
{
    if regs.len() == 0 {
        Seq::empty()
    } else {
        let rest = registrations_without(regs.drop_last(), k);
        if registration_runner_id(regs.last().name) == Some(k) {
            rest
        } else {
            rest.push(regs.last())
        }
    }
}

/// The guest names, and their addresses, without those whose name gives the
/// runner id `k`.
pub open spec fn guests_without(names: Seq<Seq<char>>, addresses: Seq<Option<u32>>, k: usize) -> (
    Seq<Seq<char>>,
    Seq<Option<u32>>,
)
    decreases names.len(),
{
    if names.len() == 0 {
        (Seq::empty(), Seq::empty())
    } else {
        let j = names.len() - 1;
        let rest = guests_without(names.drop_last(), addresses.take(j), k);
        if guest_runner_id(names[j]) == Some(k) {
            rest
        } else {
            (rest.0.push(names[j]), rest.1.push(addresses[j]))
        }
    }
}

proof fn lemma_registrations_without(regs: Seq<ApiRunnerView>, k: usize, id: usize)
    requires
        id != k,
    ensures
        last_registration(registrations_without(regs, k), id) == last_registration(regs, id),
        registration_ids(registrations_without(regs, k)).contains(id) <==> registration_ids(
            regs,
        ).contains(id),
        !registration_ids(registrations_without(regs, k)).contains(k),
    decreases regs.len(),
{
    if regs.len() > 0 {
        let t = regs.drop_last();
        let rest = registrations_without(t, k);
        lemma_registrations_without(t, k, id);
        let x = regs.last();
        if registration_runner_id(x.name) != Some(k) {
            assert(rest.push(x).drop_last() =~= rest);
            assert(rest.push(x).last() == x);
            let ids_rest = registration_ids(rest);
            let ids_t = registration_ids(t);
            match registration_runner_id(x.name) {
                Some(v) => {
                    assert(registration_ids(rest.push(x)) == ids_rest.push(v));
                    assert(registration_ids(regs) == ids_t.push(v));
                    assert(ids_rest.push(v).contains(id) <==> (ids_rest.contains(id) || v == id)) by {
                        if ids_rest.push(v).contains(id) {
                            let i = choose|i: int| 0 <= i < ids_rest.len() + 1 && ids_rest.push(v)[i] == id;
                            if i < ids_rest.len() {
                                assert(ids_rest[i] == id);
                            }
                        }
                        if ids_rest.contains(id) {
                            let i = choose|i: int| 0 <= i < ids_rest.len() && ids_rest[i] == id;
                            assert(ids_rest.push(v)[i] == id);
                        }
                        if v == id {
                            assert(ids_rest.push(v)[ids_rest.len() as int] == id);
                        }
                    }
                    assert(ids_t.push(v).contains(id) <==> (ids_t.contains(id) || v == id)) by {
                        if ids_t.push(v).contains(id) {
                            let i = choose|i: int| 0 <= i < ids_t.len() + 1 && ids_t.push(v)[i] == id;
                            if i < ids_t.len() {
                                assert(ids_t[i] == id);
                            }
                        }
                        if ids_t.contains(id) {
                            let i = choose|i: int| 0 <= i < ids_t.len() && ids_t[i] == id;
                            assert(ids_t.push(v)[i] == id);
                        }
                        if v == id {
                            assert(ids_t.push(v)[ids_t.len() as int] == id);
                        }
                    }
                    assert(!ids_rest.push(v).contains(k)) by {
                        if ids_rest.push(v).contains(k) {
                            let i = choose|i: int| 0 <= i < ids_rest.len() + 1 && ids_rest.push(v)[i] == k;
                            if i < ids_rest.len() {
                                assert(ids_rest[i] == k);
                            }
                        }
                    }
                },
                None => {
                    assert(registration_ids(rest.push(x)) == ids_rest);
                    assert(registration_ids(regs) == ids_t);
                },
            }
        } else {
            let v = k;
            let ids_t = registration_ids(t);
            assert(registration_ids(regs) == ids_t.push(v));
            assert(ids_t.push(v).contains(id) <==> ids_t.contains(id)) by {
                if ids_t.push(v).contains(id) {
                    let i = choose|i: int| 0 <= i < ids_t.len() + 1 && ids_t.push(v)[i] == id;
                    if i < ids_t.len() {
                        assert(ids_t[i] == id);
                    }
                }
                if ids_t.contains(id) {
                    let i = choose|i: int| 0 <= i < ids_t.len() && ids_t[i] == id;
                    assert(ids_t.push(v)[i] == id);
                }
            }
        }
    }
}

proof fn lemma_guests_without(names: Seq<Seq<char>>, addresses: Seq<Option<u32>>, k: usize, id: usize)
    requires
        id != k,
        addresses.len() == names.len(),
    ensures
        guests_without(names, addresses, k).0.len() == guests_without(names, addresses, k).1.len(),
        last_guest(guests_without(names, addresses, k).0, guests_without(names, addresses, k).1, id)
            == last_guest(names, addresses, id),
        guest_ids(guests_without(names, addresses, k).0).contains(id) <==> guest_ids(
            names,
        ).contains(id),
        !guest_ids(guests_without(names, addresses, k).0).contains(k),
    decreases names.len(),
{
    if names.len() > 0 {
        let j = names.len() - 1;
        let t = names.drop_last();
        let ta = addresses.take(j);
        let rest = guests_without(t, ta, k);
        lemma_guests_without(t, ta, k, id);
        let x = names[j];
        assert(names.last() == x);
        if guest_runner_id(x) != Some(k) {
            let n2 = rest.0.push(x);
            let a2 = rest.1.push(addresses[j]);
            assert(n2.drop_last() =~= rest.0);
            assert(a2.take(rest.0.len() as int) =~= rest.1);
            assert(n2[rest.0.len() as int] == x);
            assert(a2[rest.0.len() as int] == addresses[j]);
            assert(n2.last() == x);
            let ids_rest = guest_ids(rest.0);
            let ids_t = guest_ids(t);
            match guest_runner_id(x) {
                Some(v) => {
                    assert(guest_ids(n2) == ids_rest.push(v));
                    assert(guest_ids(names) == ids_t.push(v));
                    assert(ids_rest.push(v).contains(id) <==> (ids_rest.contains(id) || v == id)) by {
                        if ids_rest.push(v).contains(id) {
                            let i = choose|i: int| 0 <= i < ids_rest.len() + 1 && ids_rest.push(v)[i] == id;
                            if i < ids_rest.len() {
                                assert(ids_rest[i] == id);
                            }
                        }
                        if ids_rest.contains(id) {
                            let i = choose|i: int| 0 <= i < ids_rest.len() && ids_rest[i] == id;
                            assert(ids_rest.push(v)[i] == id);
                        }
                        if v == id {
                            assert(ids_rest.push(v)[ids_rest.len() as int] == id);
                        }
                    }
                    assert(ids_t.push(v).contains(id) <==> (ids_t.contains(id) || v == id)) by {
                        if ids_t.push(v).contains(id) {
                            let i = choose|i: int| 0 <= i < ids_t.len() + 1 && ids_t.push(v)[i] == id;
                            if i < ids_t.len() {
                                assert(ids_t[i] == id);
                            }
                        }
                        if ids_t.contains(id) {
                            let i = choose|i: int| 0 <= i < ids_t.len() && ids_t[i] == id;
                            assert(ids_t.push(v)[i] == id);
                        }
                        if v == id {
                            assert(ids_t.push(v)[ids_t.len() as int] == id);
                        }
                    }
                    assert(!ids_rest.push(v).contains(k)) by {
                        if ids_rest.push(v).contains(k) {
                            let i = choose|i: int| 0 <= i < ids_rest.len() + 1 && ids_rest.push(v)[i] == k;
                            if i < ids_rest.len() {
                                assert(ids_rest[i] == k);
                            }
                        }
                    }
                },
                None => {
                    assert(guest_ids(n2) == ids_rest);
                    assert(guest_ids(names) == ids_t);
                },
            }
        } else {
            let v = k;
            let ids_t = guest_ids(t);
            assert(guest_ids(names) == ids_t.push(v));
            assert(ids_t.push(v).contains(id) <==> ids_t.contains(id)) by {
                if ids_t.push(v).contains(id) {
                    let i = choose|i: int| 0 <= i < ids_t.len() + 1 && ids_t.push(v)[i] == id;
                    if i < ids_t.len() {
                        assert(ids_t[i] == id);
                    }
                }
                if ids_t.contains(id) {
                    let i = choose|i: int| 0 <= i < ids_t.len() && ids_t[i] == id;
                    assert(ids_t.push(v)[i] == id);
                }
            }
        }
    }
}

/// A runner that could not be created is simply left out: where no created
/// runner has id `k`, the names that give `k` and the resources they carry
/// can be dropped and every other runner stays as it was; the other names
/// give the same ids but `k`.
pub proof fn lemma_unreadable_runner_drops_alone(
    regs: Seq<ApiRunnerView>,
    names: Seq<Seq<char>>,
    addresses: Seq<Option<u32>>,
    created: Seq<RunnerView>,
    k: usize,
)
    requires
        addresses.len() == names.len(),
        forall|j: int| 0 <= j < created.len() ==> #[trigger] created[j].id != k,
    ensures
        new_runners(regs, names, addresses, created) == new_runners(
            registrations_without(regs, k),
            guests_without(names, addresses, k).0,
            guests_without(names, addresses, k).1,
            created,
        ),
        forall|id: usize| #[trigger]
            registration_ids(registrations_without(regs, k)).contains(id) <==> (
            registration_ids(regs).contains(id) && id != k),
        forall|id: usize| #[trigger]
            guest_ids(guests_without(names, addresses, k).0).contains(id) <==> (guest_ids(
                names,
            ).contains(id) && id != k),
{
    lemma_insert_runners(created);
    let r2 = registrations_without(regs, k);
    let g2 = guests_without(names, addresses, k);
    let a = new_runners(regs, names, addresses, created);
    let b = new_runners(r2, g2.0, g2.1, created);
    assert forall|id: usize| #[trigger] a.contains_key(id) implies a[id] == b[id] by {
        lemma_registrations_without(regs, k, id);
        lemma_guests_without(names, addresses, k, id);
        assert(insert_runners(created).contains_key(id));
    }
    assert(a =~= b);
    assert forall|id: usize| #[trigger]
        registration_ids(r2).contains(id) <==> (registration_ids(regs).contains(id) && id != k) by {
        if id != k {
            lemma_registrations_without(regs, k, id);
        } else if k > 0 {
            lemma_registrations_without(regs, k, 0);
        } else {
            lemma_registrations_without(regs, k, 1);
        }
    }
    assert forall|id: usize| #[trigger]
        guest_ids(g2.0).contains(id) <==> (guest_ids(names).contains(id) && id != k) by {
        if id != k {
            lemma_guests_without(names, addresses, k, id);
        } else if k > 0 {
            lemma_guests_without(names, addresses, k, 0);
        } else {
            lemma_guests_without(names, addresses, k, 1);
        }
    }
}

// ---------------------------------------------------------------------------
// Labels and status

/// A label reads `<key>:<value>` exactly where stripping `<key>:` leaves
/// `<value>`.
proof fn lemma_strip_key(label: Seq<char>, key: Seq<char>, value: Seq<char>)
    requires
        label == key.push(':') + value,
    ensures
        strip_prefix(label, key.push(':')) == Some(value),
{
    let p = key.push(':');
    assert(label.take(p.len() as int) =~= p);
    assert(label.skip(p.len() as int) =~= value);
}

/// The value that `label_with_key` gives is that of the first label, at any
/// position, that reads `<key>:<value>`; and it gives one whenever some label
/// reads so.
pub proof fn lemma_label_with_key_first(labels: Seq<Seq<char>>, key: Seq<char>, i: int)
    requires
        0 <= i < labels.len(),
        strip_prefix(labels[i], key.push(':')) is Some,
        forall|l: int| 0 <= l < i ==> strip_prefix(#[trigger] labels[l], key.push(':')) is None,
    ensures
        label_with_key(labels, key) == strip_prefix(labels[i], key.push(':')),
    decreases i,
{
    if i > 0 {
        let t = labels.skip(1);
        assert forall|l: int| 0 <= l < i - 1 implies strip_prefix(#[trigger] t[l], key.push(':'))
            is None by {
            assert(t[l] == labels[l + 1]);
        }
        assert(t[i - 1] == labels[i]);
        assert(strip_prefix(labels[0], key.push(':')) is None);
        lemma_label_with_key_first(t, key, i - 1);
    }
}

/// Where some label, at any position, reads `<key>:<value>`, `label_with_key`
/// finds a value.
pub proof fn lemma_label_with_key_any(labels: Seq<Seq<char>>, key: Seq<char>, i: int)
    requires
        0 <= i < labels.len(),
        strip_prefix(labels[i], key.push(':')) is Some,
    ensures
        label_with_key(labels, key) is Some,
    decreases i,
{
    if i > 0 && strip_prefix(labels[0], key.push(':')) is None {
        let t = labels.skip(1);
        assert(t[i - 1] == labels[i]);
        lemma_label_with_key_any(t, key, i - 1);
    }
}

/// Where no label reads `<key>:<value>`, `label_with_key` finds none.
pub proof fn lemma_label_with_key_none(labels: Seq<Seq<char>>, key: Seq<char>)
    requires
        forall|l: int| 0 <= l < labels.len() ==> strip_prefix(#[trigger] labels[l], key.push(':')) is None,
    ensures
        label_with_key(labels, key) is None,
    decreases labels.len(),
{
    if labels.len() > 0 {
        let t = labels.skip(1);
        assert forall|l: int| 0 <= l < t.len() implies strip_prefix(#[trigger] t[l], key.push(':'))
            is None by {
            assert(t[l] == labels[l + 1]);
        }
        assert(strip_prefix(labels[0], key.push(':')) is None);
        lemma_label_with_key_none(t, key);
    }
}

/// A runner with a guest and a registration that is not busy is reserved
/// when any of the registration's labels, at any position, reads
/// `reserved-for:<value>`; without such a label it is idle when the
/// registration is online, and started or crashed otherwise.
pub proof fn lemma_status_reserved(r: RunnerView)
    requires
        r.guest_name is Some,
        r.registration is Some,
        !r.registration->0.busy,
    ensures
        (exists|i: int|
            0 <= i < r.registration->0.labels.len() && "reserved-for"@.push(':').is_prefix_of(
                #[trigger] r.registration->0.labels[i],
            )) ==> status_of(r) == Status::Reserved,
        (forall|i: int|
            0 <= i < r.registration->0.labels.len() ==> strip_prefix(
                #[trigger] r.registration->0.labels[i],
                "reserved-for"@.push(':'),
            ) is None) ==> status_of(r) == (if r.registration->0.status == "online"@ {
            Status::Idle
        } else {
            Status::StartedOrCrashed
        }),
{
    let labels = r.registration->0.labels;
    let p = "reserved-for"@.push(':');
    if exists|i: int| 0 <= i < labels.len() && p.is_prefix_of(#[trigger] labels[i]) {
        let i = choose|i: int| 0 <= i < labels.len() && p.is_prefix_of(#[trigger] labels[i]);
        assert(labels[i].take(p.len() as int) =~= p);
        lemma_label_with_key_any(labels, "reserved-for"@, i);
    }
    if forall|i: int|
        0 <= i < labels.len() ==> strip_prefix(#[trigger] labels[i], "reserved-for"@.push(':'))
            is None {
        lemma_label_with_key_none(labels, "reserved-for"@);
    }
}

/// The reservation time is the whole number that the first
/// `reserved-since:` label holds: where that label reads
/// `reserved-since:<n>` for a `u64` `n` written in decimal, the reservation
/// is at second `n`.
pub proof fn lemma_reserved_since_secs(r: RunnerView, i: int, n: u64)
    requires
        r.registration is Some,
        0 <= i < r.registration->0.labels.len(),
        r.registration->0.labels[i] == "reserved-since"@.push(':') + decimal(n as nat),
        forall|l: int|
            0 <= l < i ==> strip_prefix(
                #[trigger] r.registration->0.labels[l],
                "reserved-since"@.push(':'),
            ) is None,
    ensures
        reserved_since_secs(r) == Some(Some(n)),
{
    let labels = r.registration->0.labels;
    lemma_strip_key(labels[i], "reserved-since"@, decimal(n as nat));
    lemma_label_with_key_first(labels, "reserved-since"@, i);
    lemma_parse_u64_decimal(n);
}

/// Without a `reserved-since:` label there is no reservation time.
pub proof fn lemma_reserved_since_none(r: RunnerView)
    requires
        r.registration is Some,
        forall|l: int|
            0 <= l < r.registration->0.labels.len() ==> strip_prefix(
                #[trigger] r.registration->0.labels[l],
                "reserved-since"@.push(':'),
            ) is None,
    ensures
        reserved_since_secs(r) is None,
{
    lemma_label_with_key_none(r.registration->0.labels, "reserved-since"@);
}

// ---------------------------------------------------------------------------
// Base image names

/// A runner's base image name is the one that its registration's name
/// gives, where it gives one, whatever the guest; otherwise it is the one
/// that the guest's name gives.
pub proof fn lemma_base_vm_name(r: RunnerView, prefix: Seq<char>)
    ensures
        (r.registration is Some && registration_base_name(r.registration->0.name) is Some)
            ==> base_vm_name(r, prefix) == registration_base_name(r.registration->0.name)->0,
        (base_vm_name_from_registration(r) is None && r.guest_name is Some && guest_base_name(
            r.guest_name->0,
            prefix,
        ) is Some) ==> base_vm_name(r, prefix) == guest_base_name(
            r.guest_name->0,
            prefix,
        )->0,
{
}

/// A runner registered as `<base>.<id>@<host>` has the base image name
/// `base`, whatever its guest.
pub proof fn lemma_base_vm_name_of_registration(
    r: RunnerView,
    prefix: Seq<char>,
    base: Seq<char>,
    id: usize,
    host: Seq<char>,
)
    requires
        r.registration is Some,
        r.registration->0.name == registration_name(base, id, host),
        forall|i: int| 0 <= i < host.len() ==> host[i] != '@',
    ensures
        base_vm_name(r, prefix) == base,
{
    lemma_registration_name_roundtrip(base, id, host);
}

/// A runner without a registration whose guest is `<prefix><base>.<id>` has
/// the base image name `base`.
pub proof fn lemma_base_vm_name_of_guest(
    r: RunnerView,
    prefix: Seq<char>,
    base: Seq<char>,
    id: usize,
)
    requires
        r.registration is None,
        r.guest_name == Some(guest_name(prefix, base, id)),
    ensures
        base_vm_name(r, prefix) == base,
{
    lemma_guest_name_roundtrip(prefix, base, id);
}

// ---------------------------------------------------------------------------
// What `Runners::new` keeps

/// The runner kept under an id is the runner created last with that id.
pub proof fn lemma_insert_runners_last(rs: Seq<RunnerView>, j: int)
    requires
        0 <= j < rs.len(),
        forall|l: int| j < l < rs.len() ==> #[trigger] rs[l].id != rs[j].id,
    ensures
        insert_runners(rs).contains_key(rs[j].id),
        insert_runners(rs)[rs[j].id] == rs[j],
    decreases rs.len(),
{
    if j < rs.len() - 1 {
        let t = rs.drop_last();
        assert(rs[rs.len() - 1].id != rs[j].id);
        assert forall|l: int| j < l < t.len() implies #[trigger] t[l].id != t[j].id by {
            assert(t[l] == rs[l]);
        }
        lemma_insert_runners_last(t, j);
    }
}

/// The last registration whose name gives `id` is the one at position `i`
/// when no later name gives `id`.
proof fn lemma_last_registration_at(regs: Seq<ApiRunnerView>, id: usize, i: int)
    requires
        0 <= i < regs.len(),
        registration_runner_id(regs[i].name) == Some(id),
        forall|l: int| i < l < regs.len() ==> registration_runner_id(#[trigger] regs[l].name) != Some(id),
    ensures
        last_registration(regs, id) == Some(regs[i]),
    decreases regs.len(),
{
    if i < regs.len() - 1 {
        let t = regs.drop_last();
        assert(registration_runner_id(regs[regs.len() - 1].name) != Some(id));
        assert forall|l: int| i < l < t.len() implies registration_runner_id(#[trigger] t[l].name)
            != Some(id) by {
            assert(t[l] == regs[l]);
        }
        lemma_last_registration_at(t, id, i);
    }
}

/// The last guest name that gives `id` is the one at position `i` when no
/// later name gives `id`; its address is the one at `i`.
proof fn lemma_last_guest_at(
    names: Seq<Seq<char>>,
    addresses: Seq<Option<u32>>,
    id: usize,
    i: int,
)
    requires
        addresses.len() == names.len(),
        0 <= i < names.len(),
        guest_runner_id(names[i]) == Some(id),
        forall|l: int| i < l < names.len() ==> guest_runner_id(#[trigger] names[l]) != Some(id),
    ensures
        last_guest(names, addresses, id) == Some((names[i], addresses[i])),
    decreases names.len(),
{
    let k = names.len() - 1;
    if i < k {
        let t = names.drop_last();
        let ta = addresses.take(k);
        assert(guest_runner_id(names[k]) != Some(id));
        assert forall|l: int| i < l < t.len() implies guest_runner_id(#[trigger] t[l]) != Some(id) by {
            assert(t[l] == names[l]);
        }
        lemma_last_guest_at(t, ta, id, i);
    }
}

/// `Runners::new` keeps, under the id of each created runner, the runner
/// created last with that id, with its id, creation time, GitHub
/// configuration and image type; its registration is the last registration
/// whose name gives that id (the created one where no name gives it), and
/// its guest and address are those of the last guest name that gives that
/// id (the created ones where no name gives it).
pub proof fn lemma_new_keeps_created_runner(
    regs: Seq<ApiRunnerView>,
    names: Seq<Seq<char>>,
    addresses: Seq<Option<u32>>,
    created: Seq<RunnerView>,
    j: int,
)
    requires
        addresses.len() == names.len(),
        0 <= j < created.len(),
        forall|l: int| j < l < created.len() ==> #[trigger] created[l].id != created[j].id,
    ensures
        ({
            let m = new_runners(regs, names, addresses, created);
            let id = created[j].id;
            let r = m[id];
            &&& m.contains_key(id)
            &&& r.id == id
            &&& r.created_time == created[j].created_time
            &&& r.github_jitconfig == created[j].github_jitconfig
            &&& r.image_type == created[j].image_type
            &&& forall|i: int|
                0 <= i < regs.len() && registration_runner_id(regs[i].name) == Some(id) && (forall|
                    l: int,
                | i < l < regs.len() ==> registration_runner_id(#[trigger] regs[l].name) != Some(id))
                    ==> r.registration == Some(regs[i])
            &&& (forall|i: int|
                0 <= i < regs.len() ==> registration_runner_id(#[trigger] regs[i].name) != Some(id))
                ==> r.registration == created[j].registration
            &&& forall|i: int|
                0 <= i < names.len() && guest_runner_id(names[i]) == Some(id) && (forall|l: int|
                    i < l < names.len() ==> guest_runner_id(#[trigger] names[l]) != Some(id)) ==> {
                    &&& r.guest_name == Some(names[i])
                    &&& r.ipv4_address == addresses[i]
                }
            &&& (forall|i: int|
                0 <= i < names.len() ==> guest_runner_id(#[trigger] names[i]) != Some(id)) ==> {
                &&& r.guest_name == created[j].guest_name
                &&& r.ipv4_address == created[j].ipv4_address
            }
        }),
{
    let id = created[j].id;
    lemma_insert_runners_last(created, j);
    lemma_last_registration(regs, id);
    lemma_last_guest(names, addresses, id);
    assert forall|i: int|
        0 <= i < regs.len() && registration_runner_id(regs[i].name) == Some(id) && (forall|l: int|
            i < l < regs.len() ==> registration_runner_id(#[trigger] regs[l].name) != Some(id))
        implies new_runners(regs, names, addresses, created)[id].registration == Some(regs[i]) by {
        lemma_last_registration_at(regs, id, i);
    }
    assert forall|i: int|
        0 <= i < names.len() && guest_runner_id(names[i]) == Some(id) && (forall|l: int|
            i < l < names.len() ==> guest_runner_id(#[trigger] names[l]) != Some(id)) implies {
        &&& new_runners(regs, names, addresses, created)[id].guest_name == Some(names[i])
        &&& new_runners(regs, names, addresses, created)[id].ipv4_address == addresses[i]
    } by {
        lemma_last_guest_at(names, addresses, id, i);
    }
}

// ---------------------------------------------------------------------------
// Refreshing addresses

/// After a refresh, each runner with a guest has exactly the address given
/// at its position, whatever it had before; a runner without one is left as
/// it was.
pub proof fn lemma_refresh_sets_addresses(s: Seq<RunnerView>, addresses: Seq<Option<u32>>)
    requires
        ids_increasing(s),
        addresses.len() == s.len(),
    ensures
        forall|i: int|
            0 <= i < s.len() ==> {
                let m = seq_to_map(refreshed(s, addresses));
                &&& m.contains_key(#[trigger] s[i].id)
                &&& s[i].guest_name is Some ==> m[s[i].id].ipv4_address == addresses[i]
                &&& s[i].guest_name is None ==> m[s[i].id] == s[i]
            },
{
    let t = refreshed(s, addresses);
    assert forall|a: int, b: int| 0 <= a < b < t.len() implies #[trigger] t[a].id
        < #[trigger] t[b].id by {
        assert(t[a].id == s[a].id);
        assert(t[b].id == s[b].id);
    }
    assert forall|i: int| 0 <= i < s.len() implies {
        let m = seq_to_map(t);
        &&& m.contains_key(#[trigger] s[i].id)
        &&& s[i].guest_name is Some ==> m[s[i].id].ipv4_address == addresses[i]
        &&& s[i].guest_name is None ==> m[s[i].id] == s[i]
    } by {
        lemma_seq_to_map_index(t, i);
        assert(t[i].id == s[i].id);
    }
}

/// The changes that a refresh reports are exactly, in runner order, those
/// of the runners with a guest whose address differs from the one given:
/// (id, address before, address after).
pub proof fn lemma_address_changes(s: Seq<RunnerView>, addresses: Seq<Option<u32>>)
    requires
        addresses.len() == s.len(),
    ensures
        forall|c: (usize, Option<u32>, Option<u32>)| #[trigger]
            address_changes(s, addresses).contains(c) <==> exists|i: int|
                0 <= i < s.len() && s[i].guest_name is Some && s[i].ipv4_address != addresses[i]
                    && c == (s[i].id, s[i].ipv4_address, addresses[i]),
{
    lemma_address_changes_prefix(s, addresses);
}

/// `lemma_address_changes` for a prefix of the runners, whose addresses are
/// read at the same positions.
proof fn lemma_address_changes_prefix(s: Seq<RunnerView>, addresses: Seq<Option<u32>>)
    requires
        s.len() <= addresses.len(),
    ensures
        forall|c: (usize, Option<u32>, Option<u32>)| #[trigger]
            address_changes(s, addresses).contains(c) <==> exists|i: int|
                0 <= i < s.len() && s[i].guest_name is Some && s[i].ipv4_address != addresses[i]
                    && c == (s[i].id, s[i].ipv4_address, addresses[i]),
    decreases s.len(),
{
    if s.len() > 0 {
        let k = s.len() - 1;
        let t = s.drop_last();
        lemma_address_changes_prefix(t, addresses);
        let rest = address_changes(t, addresses);
        assert forall|c: (usize, Option<u32>, Option<u32>)| #[trigger]
            address_changes(s, addresses).contains(c) <==> exists|i: int|
                0 <= i < s.len() && s[i].guest_name is Some && s[i].ipv4_address != addresses[i]
                    && c == (s[i].id, s[i].ipv4_address, addresses[i]) by {
            let changed = s[k].guest_name is Some && s[k].ipv4_address != addresses[k];
            let x = (s[k].id, s[k].ipv4_address, addresses[k]);
            if changed {
                assert(address_changes(s, addresses) == rest.push(x));
                if rest.push(x).contains(c) {
                    let p = choose|p: int| 0 <= p < rest.len() + 1 && rest.push(x)[p] == c;
                    if p < rest.len() {
                        assert(rest[p] == c);
                        assert(rest.contains(c));
                        let i = choose|i: int|
                            0 <= i < t.len() && t[i].guest_name is Some && t[i].ipv4_address
                                != addresses[i] && c == (t[i].id, t[i].ipv4_address, addresses[i]);
                        assert(s[i] == t[i]);
                    }
                }
                if exists|i: int|
                    0 <= i < s.len() && s[i].guest_name is Some && s[i].ipv4_address
                        != addresses[i] && c == (s[i].id, s[i].ipv4_address, addresses[i]) {
                    let i = choose|i: int|
                        0 <= i < s.len() && s[i].guest_name is Some && s[i].ipv4_address
                            != addresses[i] && c == (s[i].id, s[i].ipv4_address, addresses[i]);
                    if i < k {
                        assert(t[i] == s[i]);
                        assert(rest.contains(c));
                        let p = choose|p: int| 0 <= p < rest.len() && rest[p] == c;
                        assert(rest.push(x)[p] == c);
                    } else {
                        assert(rest.push(x)[rest.len() as int] == c);
                    }
                }
            } else {
                assert(address_changes(s, addresses) == rest);
                if rest.contains(c) {
                    let i = choose|i: int|
                        0 <= i < t.len() && t[i].guest_name is Some && t[i].ipv4_address
                            != addresses[i] && c == (t[i].id, t[i].ipv4_address, addresses[i]);
                    assert(s[i] == t[i]);
                }
                if exists|i: int|
                    0 <= i < s.len() && s[i].guest_name is Some && s[i].ipv4_address
                        != addresses[i] && c == (s[i].id, s[i].ipv4_address, addresses[i]) {
                    let i = choose|i: int|
                        0 <= i < s.len() && s[i].guest_name is Some && s[i].ipv4_address
                            != addresses[i] && c == (s[i].id, s[i].ipv4_address, addresses[i]);
                    assert(i != k);
                    assert(t[i] == s[i]);
                }
            }
        }
    }
}

} // verus!
