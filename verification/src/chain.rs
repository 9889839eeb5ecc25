//! Facts about walking a chain: more fuel never changes a settled outcome,
//! and a chain that is still going after one step per byte of the image has
//! run into a cycle and never ends.

use vstd::prelude::*;
use vstd::set_lib::{lemma_int_range, lemma_len_subset, set_int_range};
use crate::reader::{has_zero_from, read_u64, stored_name_is, walk};

verus! {

/// The entry at `o` is a real entry whose name is not `q`, so a walk goes
/// on from it to the next one.
pub open spec fn passes(data: Seq<u8>, o: int, q: Seq<u8>) -> bool {
    &&& 0 < o
    &&& o + 8 <= data.len()
    &&& has_zero_from(data, o + 8)
    &&& !stored_name_is(data, o + 8, q)
}

/// The entry reached from `o` after following `k` links.
pub open spec fn node(data: Seq<u8>, o: int, k: nat) -> int
    decreases k,
{
    if k == 0 {
        o
    } else {
        read_u64(data, node(data, o, (k - 1) as nat)) as int
    }
}

/// Once a walk has an outcome, more fuel gives the same outcome.
pub proof fn lemma_walk_more_fuel(data: Seq<u8>, o: int, q: Seq<u8>, f1: nat, f2: nat)
    requires
        walk(data, o, q, f1) is Some,
        f1 <= f2,
    ensures
        walk(data, o, q, f2) == walk(data, o, q, f1),
    decreases f1,
{
    if o != 0 && f1 > 0 && passes(data, o, q) {
        lemma_walk_more_fuel(data, read_u64(data, o) as int, q, (f1 - 1) as nat, (f2 - 1) as nat);
    }
}

proof fn lemma_node_succ(data: Seq<u8>, o: int, k: nat)
    ensures
        node(data, o, k + 1) == read_u64(data, node(data, o, k)) as int,
{
}

/// Following `j` links and then `k` more is following `j + k` links.
proof fn lemma_node_add(data: Seq<u8>, o: int, j: nat, k: nat)
    ensures
        node(data, node(data, o, j), k) == node(data, o, j + k),
    decreases k,
{
    if k > 0 {
        lemma_node_add(data, o, j, (k - 1) as nat);
        lemma_node_succ(data, o, (j + k - 1) as nat);
    }
}

/// Passing `k` entries costs `k` fuel and leads to the `k`-th entry.
proof fn lemma_walk_skip(data: Seq<u8>, o: int, q: Seq<u8>, k: nat, f: nat)
    requires
        k <= f,
        forall|m: nat| m < k ==> passes(data, #[trigger] node(data, o, m), q),
    ensures
        walk(data, o, q, f) == walk(data, node(data, o, k), q, (f - k) as nat),
    decreases k,
{
    if k > 0 {
        lemma_walk_skip(data, o, q, (k - 1) as nat, f);
        let x = node(data, o, (k - 1) as nat);
        assert(passes(data, x, q));
        lemma_node_succ(data, o, (k - 1) as nat);
    }
}

/// At an entry that the walk does not pass, the outcome does not depend on
/// the fuel, as long as there is some.
proof fn lemma_walk_stop(data: Seq<u8>, o: int, q: Seq<u8>, f1: nat, f2: nat)
    requires
        !passes(data, o, q),
        f1 > 0,
        f2 > 0,
    ensures
        walk(data, o, q, f1) == walk(data, o, q, f2),
{
}

/// Among `len + 1` entries of an image of `len` bytes, two are the same.
proof fn lemma_nodes_repeat(data: Seq<u8>, o: int, q: Seq<u8>)
    requires
        forall|m: nat| m <= data.len() ==> passes(data, #[trigger] node(data, o, m), q),
    ensures
        exists|a: nat, b: nat| a < b <= data.len() && node(data, o, a) == node(data, o, b),
{
    let len = data.len();
    let s = Seq::new(len + 1, |m: int| node(data, o, m as nat));
    if s.no_duplicates() {
        s.unique_seq_to_set();
        assert(passes(data, node(data, o, 0), q));
        lemma_int_range(1, len as int);
        assert forall|x: int| s.to_set().contains(x) implies set_int_range(1, len as int).contains(x) by {
            let m = choose|m: int| 0 <= m < s.len() && s[m] == x;
            assert(passes(data, node(data, o, m as nat), q));
        }
        lemma_len_subset(s.to_set(), set_int_range(1, len as int));
        assert(false);
    } else {
        let (i, j) = choose|i: int, j: int| 0 <= i < s.len() && 0 <= j < s.len() && i != j && s[i] == s[j];
        if i < j {
            assert(node(data, o, i as nat) == node(data, o, j as nat));
        } else {
            assert(node(data, o, j as nat) == node(data, o, i as nat));
        }
    }
}

/// A walk that comes back to its start having passed every entry on the way
/// never ends.
proof fn lemma_cycle_never_ends(data: Seq<u8>, x: int, q: Seq<u8>, p: nat, g: nat)
    requires
        p > 0,
        node(data, x, p) == x,
        forall|m: nat| m < p ==> passes(data, #[trigger] node(data, x, m), q),
    ensures
        walk(data, x, q, g) is None,
    decreases g,
{
    if g < p {
        lemma_walk_skip(data, x, q, g, g);
        assert(passes(data, node(data, x, g), q));
    } else {
        lemma_walk_skip(data, x, q, p, g);
        lemma_cycle_never_ends(data, x, q, p, (g - p) as nat);
    }
}

/// A walk that has no outcome with one step per byte of the image has none
/// with any fuel.
pub proof fn lemma_walk_enough_fuel(data: Seq<u8>, o: int, q: Seq<u8>, f: nat)
    requires
        walk(data, o, q, f) is Some,
    ensures
        walk(data, o, q, (data.len() + 1) as nat) == walk(data, o, q, f),
{
    let full = (data.len() + 1) as nat;
    if f <= full {
        lemma_walk_more_fuel(data, o, q, f, full);
    } else if forall|m: nat| m <= data.len() ==> passes(data, #[trigger] node(data, o, m), q) {
        lemma_nodes_repeat(data, o, q);
        let (a, b) = choose|a: nat, b: nat| a < b <= data.len() && node(data, o, a) == node(data, o, b);
        let x = node(data, o, a);
        let p = (b - a) as nat;
        assert forall|m: nat| m < p implies passes(data, #[trigger] node(data, x, m), q) by {
            lemma_node_add(data, o, a, m);
            assert(passes(data, node(data, o, a + m), q));
        }
        lemma_node_add(data, o, a, p);
        assert forall|m: nat| m < a implies passes(data, #[trigger] node(data, o, m), q) by {
            assert(passes(data, node(data, o, m), q));
        }
        lemma_walk_skip(data, o, q, a, f);
        lemma_cycle_never_ends(data, x, q, p, (f - a) as nat);
        assert(false);
    } else {
        let m0 = choose|m: nat| m <= data.len() && !passes(data, #[trigger] node(data, o, m), q);
        let m = first_stop(data, o, q, m0);
        lemma_walk_skip(data, o, q, m, f);
        lemma_walk_skip(data, o, q, m, full);
        lemma_walk_stop(data, node(data, o, m), q, (f - m) as nat, (full - m) as nat);
    }
}

/// The first entry, at or before the `m0`-th, that a walk does not pass.
proof fn first_stop(data: Seq<u8>, o: int, q: Seq<u8>, m0: nat) -> (m: nat)
    requires
        !passes(data, node(data, o, m0), q),
    ensures
        m <= m0,
        !passes(data, node(data, o, m), q),
        forall|k: nat| k < m ==> passes(data, #[trigger] node(data, o, k), q),
    decreases m0,
{
    if m0 == 0 {
        0
    } else if forall|k: nat| k < m0 ==> passes(data, #[trigger] node(data, o, k), q) {
        m0
    } else {
        let k = choose|k: nat| k < m0 && !passes(data, #[trigger] node(data, o, k), q);
        first_stop(data, o, q, k)
    }
}

} // verus!
