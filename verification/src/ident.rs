//! Identifier allocation.
//!
//! Identifiers are 128-bit numbers. A fresh one starts from a random candidate;
//! should the candidate already be taken, the numbers after it are tried in
//! turn, so that allocation always succeeds and never hands out a taken number.

use std::collections::HashMap;
use vstd::arithmetic::div_mod::{lemma_mod_sub_multiples_vanish, lemma_small_mod};
use vstd::prelude::*;
use vstd::std_specs::hash::*;

verus! {

/// The number of 128-bit values.
pub open spec fn identifier_space() -> nat {
    (u128::MAX + 1) as nat
}

/// The `k`-th number tried when allocation starts at `candidate`: the numbers
/// follow each other and wrap around at the end of the range.
pub open spec fn probe(candidate: u128, k: nat) -> u128 {
    ((candidate as nat + k) % identifier_space()) as u128
}

/// `k` is the first position at which the numbers tried from `candidate` leave `used`.
pub open spec fn first_unused_at(used: Set<u128>, candidate: u128, k: nat) -> bool {
    &&& !used.contains(probe(candidate, k))
    &&& forall|j: nat| j < k ==> used.contains(#[trigger] probe(candidate, j))
}

/// The identifier allocated from `candidate` when the identifiers in `used` are
/// taken: the first of `candidate`, `candidate + 1`, ... that is not in `used`.
pub open spec fn allocate(used: Set<u128>, candidate: u128) -> u128 {
    probe(candidate, choose|k: nat| first_unused_at(used, candidate, k))
}

/// A value has the version and variant bits of a random (version 4) UUID.
pub open spec fn is_random_uuid(value: u128) -> bool {
    value & 0x0000_0000_0000_f000_c000_0000_0000_0000 == 0x0000_0000_0000_4000_8000_0000_0000_0000
}

/// Draws a candidate identifier with `uuid::Uuid::new_v4`, as the 128-bit number
/// that `Uuid::as_u128` gives for it.
///
/// Trusted: the value is random, so nothing is claimed of it beyond the version
/// and variant bits that `new_v4` sets on every UUID it returns. The call fails
/// only where the operating system cannot supply random bytes.
#[verifier::external_body]
pub(crate) fn random_candidate() -> (value: u128)
    ensures
        is_random_uuid(value),
{
    uuid::Uuid::new_v4().as_u128()
}

/// The number tried at a position below the size of the identifier space:
/// the sum, less the size of the space where the sum leaves the range.
pub proof fn lemma_probe_value(candidate: u128, k: nat)
    requires
        k < identifier_space(),
    ensures
        probe(candidate, k) == if candidate + k < identifier_space() {
            candidate + k
        } else {
            candidate + k - identifier_space()
        },
{
    let m = identifier_space();
    let sum = candidate as nat + k;
    if sum < m {
        lemma_small_mod(sum, m);
    } else {
        lemma_small_mod((sum - m) as nat, m);
        lemma_mod_sub_multiples_vanish(sum as int, m as int);
    }
}

/// Different positions below the size of the identifier space try different numbers.
pub proof fn lemma_probe_injective(candidate: u128, i: nat, j: nat)
    requires
        i < j < identifier_space(),
    ensures
        probe(candidate, i) != probe(candidate, j),
{
    lemma_probe_value(candidate, i);
    lemma_probe_value(candidate, j);
}

/// If the first `k` numbers tried from `candidate` are all taken, at least `k`
/// identifiers are taken.
pub proof fn lemma_taken_probes_counted(used: Set<u128>, candidate: u128, k: nat)
    requires
        used.finite(),
        k <= identifier_space(),
        forall|j: nat| j < k ==> used.contains(#[trigger] probe(candidate, j)),
    ensures
        k <= used.len(),
    decreases k,
{
    if k > 0 {
        let last = probe(candidate, (k - 1) as nat);
        let rest = used.remove(last);
        assert forall|j: nat| j < (k - 1) as nat implies rest.contains(
            #[trigger] probe(candidate, j),
        ) by {
            lemma_probe_injective(candidate, j, (k - 1) as nat);
        }
        lemma_taken_probes_counted(rest, candidate, (k - 1) as nat);
    }
}

/// The position at which allocation ends is unique.
pub proof fn lemma_first_unused_unique(used: Set<u128>, candidate: u128, i: nat, j: nat)
    requires
        first_unused_at(used, candidate, i),
        first_unused_at(used, candidate, j),
    ensures
        i == j,
{
}

/// Allocation yields exactly the number at the first position that leaves `used`.
pub proof fn lemma_allocate_is(used: Set<u128>, candidate: u128, k: nat)
    requires
        first_unused_at(used, candidate, k),
    ensures
        allocate(used, candidate) == probe(candidate, k),
{
    let chosen = choose|i: nat| first_unused_at(used, candidate, i);
    lemma_first_unused_unique(used, candidate, chosen, k);
}

/// While fewer identifiers are taken than exist, some position from `start` on
/// leaves `used`, given that all positions before `start` are taken.
proof fn lemma_first_unused_exists_from(used: Set<u128>, candidate: u128, start: nat) -> (k: nat)
    requires
        used.finite(),
        used.len() < identifier_space(),
        start <= used.len(),
        forall|j: nat| j < start ==> used.contains(#[trigger] probe(candidate, j)),
    ensures
        first_unused_at(used, candidate, k),
        k <= used.len(),
    decreases used.len() - start,
{
    if !used.contains(probe(candidate, start)) {
        start
    } else {
        lemma_taken_probes_counted(used, candidate, start + 1);
        lemma_first_unused_exists_from(used, candidate, start + 1)
    }
}

/// While fewer identifiers are taken than exist, the allocated identifier is
/// not a taken one, and it is the candidate itself if that is free.
pub proof fn lemma_allocate_fresh(used: Set<u128>, candidate: u128)
    requires
        used.finite(),
        used.len() < identifier_space(),
    ensures
        !used.contains(allocate(used, candidate)),
        !used.contains(candidate) ==> allocate(used, candidate) == candidate,
{
    let k = lemma_first_unused_exists_from(used, candidate, 0);
    lemma_allocate_is(used, candidate, k);
    if !used.contains(candidate) {
        lemma_probe_value(candidate, 0);
        assert(first_unused_at(used, candidate, 0));
        lemma_allocate_is(used, candidate, 0);
    }
}

/// Allocates an identifier that is not a key of `table`, starting at `candidate`.
pub fn allocate_in<V>(table: &HashMap<u128, V>, candidate: u128) -> (id: u128)
    ensures
        id == allocate(table@.dom(), candidate),
        !table@.contains_key(id),
{
    broadcast use group_hash_axioms;

    let ghost used = table@.dom();
    let ghost mut tried: nat = 0;
    let taken = table.len();
    let mut id = candidate;
    proof {
        lemma_probe_value(candidate, 0);
    }
    while table.contains_key(&id)
        invariant
            used == table@.dom(),
            used.finite(),
            used.len() == taken,
            id == probe(candidate, tried),
            tried <= used.len(),
            forall|j: nat| j < tried ==> used.contains(#[trigger] probe(candidate, j)),
        decreases used.len() - tried,
    {
        proof {
            lemma_taken_probes_counted(used, candidate, tried + 1);
            lemma_probe_value(candidate, tried);
            lemma_probe_value(candidate, tried + 1);
            tried = tried + 1;
        }
        id = if id == u128::MAX { 0 } else { id + 1 };
    }
    proof {
        lemma_allocate_is(used, candidate, tried);
    }
    id
}

} // verus!
