//! Laws of the itinerary model: what building and walking guarantee for a
//! leg set that holds one valid chain, whether supplied in travel order or
//! in any other order, and for the empty leg set.

use vstd::prelude::*;
use crate::model::{
    LegView,
    leg_wf,
    BuildFail,
    Build,
    Walk,
    build,
    scan_fail,
    roles_upto,
    roles_of,
    hops_upto,
    hops_of,
    toggled,
    has_role,
    lone_role,
    the_role,
    walk_from,
};

verus! {

/// Law: per-leg validation accepts a leg set exactly when all its remaining
/// legs, from `i` on, are well formed.
pub proof fn lemma_scan_fail_none(legs: Seq<LegView>, i: int)
    requires
        0 <= i <= legs.len(),
    ensures
        scan_fail(legs, i) is None <==> (forall|j: int| i <= j < legs.len() ==> leg_wf(legs[j])),
    decreases legs.len() - i,
{
    if i < legs.len() && leg_wf(legs[i]) {
        lemma_scan_fail_none(legs, i + 1);
    }
}

/// `legs` lists a chain in travel order over pairwise distinct, non-empty
/// codes: leg `i` goes from `codes[i]` to `codes[i + 1]`.
pub open spec fn chain_of(codes: Seq<Seq<char>>, legs: Seq<LegView>) -> bool {
    &&& legs.len() >= 1
    &&& codes.len() == legs.len() + 1
    &&& forall|i: int| 0 <= i < legs.len() ==> #[trigger] legs[i] == seq![codes[i], codes[i + 1]]
    &&& forall|i: int, j: int| 0 <= i < j < codes.len() ==> codes[i] != codes[j]
    &&& forall|i: int| 0 <= i < codes.len() ==> codes[i].len() > 0
}

/// Law: building a leg set that lists one valid chain in travel order
/// succeeds, with the chain's first code as source and its last code as
/// destination, and walking the built next-hop mapping with the standard hop
/// budget visits exactly the chain's codes in order: the path starts at the
/// source, ends at the destination, is one longer than the number of legs,
/// and visits each leg's origin immediately before that leg's destination.
pub proof fn lemma_chain_builds_and_walks(codes: Seq<Seq<char>>, legs: Seq<LegView>)
    requires
        chain_of(codes, legs),
    ensures
        build(legs) matches Build::Built { source, destination, hops } && source == codes[0]
            && destination == codes[codes.len() - 1] && hops == hops_of(legs) && walk_from(
            hops,
            source,
            destination,
            (legs.len() + 1) as nat,
        ) == Walk::Reached(codes),
{
    let n = legs.len() as int;
    let idx = Seq::new(n as nat, |i: int| i);
    assert(chain_in_some_order(codes, legs, idx, idx)) by {
        assert forall|i: int| 0 <= i < legs.len() implies #[trigger] legs[i] == seq![
            codes[idx[i]],
            codes[idx[i] + 1],
        ] by {
            assert(idx[i] == i);
            assert(legs[i] == seq![codes[i], codes[i + 1]]);
        }
        assert(forall|i: int| 0 <= i < legs.len() ==> 0 <= #[trigger] idx[i] < legs.len());
        assert(forall|i: int| 0 <= i < legs.len() ==> idx[#[trigger] idx[i]] == i);
    }
    lemma_any_order_chain_builds_and_walks(codes, legs, idx, idx);
}

/// Law: the walk of a chain built from legs supplied in travel order
/// reconstructs exactly the legs that were supplied: leg `i` is the pair of
/// adjacent path entries `i` and `i + 1`.
pub proof fn lemma_chain_round_trip(codes: Seq<Seq<char>>, legs: Seq<LegView>)
    requires
        chain_of(codes, legs),
    ensures
        build(legs) matches Build::Built { source, destination, hops } && (walk_from(
            hops,
            source,
            destination,
            (legs.len() + 1) as nat,
        ) matches Walk::Reached(p) && p.len() == legs.len() + 1 && forall|i: int|
            0 <= i < legs.len() ==> legs[i] == seq![p[i], p[i + 1]]),
{
    lemma_chain_builds_and_walks(codes, legs);
}

/// Some leg among the first `i` carries chain position `k`.
pub open spec fn placed(pos: Seq<int>, i: int, k: int) -> bool {
    exists|t: int| 0 <= t < i && pos[t] == k
}

/// `legs` holds exactly the legs of the chain that visits `codes` in order,
/// but in an arbitrary order: leg `i` carries chain position `pos[i]`, chain
/// position `j` stands at leg `at[j]`, and the two index maps invert each
/// other.
pub open spec fn chain_in_some_order(
    codes: Seq<Seq<char>>,
    legs: Seq<LegView>,
    pos: Seq<int>,
    at: Seq<int>,
) -> bool {
    &&& legs.len() >= 1
    &&& codes.len() == legs.len() + 1
    &&& pos.len() == legs.len()
    &&& at.len() == legs.len()
    &&& forall|i: int| 0 <= i < legs.len() ==> 0 <= #[trigger] pos[i] < legs.len()
    &&& forall|j: int| 0 <= j < legs.len() ==> 0 <= #[trigger] at[j] < legs.len()
    &&& forall|i: int| 0 <= i < legs.len() ==> at[#[trigger] pos[i]] == i
    &&& forall|j: int| 0 <= j < legs.len() ==> pos[#[trigger] at[j]] == j
    &&& forall|i: int| 0 <= i < legs.len() ==> #[trigger] legs[i] == seq![
        codes[pos[i]],
        codes[pos[i] + 1],
    ]
    &&& forall|i: int, j: int| 0 <= i < j < codes.len() ==> codes[i] != codes[j]
    &&& forall|i: int| 0 <= i < codes.len() ==> codes[i].len() > 0
}

/// Extending the processed prefix by one leg places exactly that leg's chain
/// position in addition.
proof fn lemma_placed_step(pos: Seq<int>, i: int, k: int)
    requires
        1 <= i <= pos.len(),
    ensures
        placed(pos, i, k) <==> (placed(pos, i - 1, k) || pos[i - 1] == k),
{
    if placed(pos, i, k) {
        let t = choose|t: int| 0 <= t < i && pos[t] == k;
        if t < i - 1 {
            assert(placed(pos, i - 1, k));
        }
    }
    if placed(pos, i - 1, k) {
        let t = choose|t: int| 0 <= t < i - 1 && pos[t] == k;
        assert(0 <= t < i && pos[t] == k);
    }
    if pos[i - 1] == k {
        assert(0 <= i - 1 < i && pos[i - 1] == k);
    }
}

/// Per-leg validation accepts every leg of a chain in any order.
proof fn lemma_scrambled_scan(
    codes: Seq<Seq<char>>,
    legs: Seq<LegView>,
    pos: Seq<int>,
    at: Seq<int>,
    i: int,
)
    requires
        chain_in_some_order(codes, legs, pos, at),
        0 <= i <= legs.len(),
    ensures
        scan_fail(legs, i) is None,
    decreases legs.len() - i,
{
    if i < legs.len() {
        assert(legs[i] == seq![codes[pos[i]], codes[pos[i] + 1]]);
        assert(legs[i].len() == 2);
        assert(legs[i][0].len() > 0);
        assert(legs[i][1].len() > 0);
        lemma_scrambled_scan(codes, legs, pos, at, i + 1);
    }
}

/// After toggling the first `i` legs of a chain in any order, a code
/// survives exactly when it was seen an odd number of times so far: with the
/// origin role when only its outgoing leg was seen, with the destination
/// role when only its incoming leg was seen.
proof fn lemma_scrambled_roles(
    codes: Seq<Seq<char>>,
    legs: Seq<LegView>,
    pos: Seq<int>,
    at: Seq<int>,
    i: int,
)
    requires
        chain_in_some_order(codes, legs, pos, at),
        0 <= i <= legs.len(),
    ensures
        forall|k: int|
            #![trigger codes[k]]
            0 <= k <= legs.len() ==> {
                &&& (roles_upto(legs, i).contains_key(codes[k]) <==> (placed(pos, i, k)
                    != placed(pos, i, k - 1)))
                &&& (placed(pos, i, k) && !placed(pos, i, k - 1) ==> roles_upto(legs, i)[codes[k]]
                    == 0)
                &&& (!placed(pos, i, k) && placed(pos, i, k - 1) ==> roles_upto(legs, i)[codes[k]]
                    == 1)
            },
        forall|c: Seq<char>| #[trigger] roles_upto(legs, i).contains_key(c) ==> exists|k: int|
            0 <= k <= legs.len() && codes[k] == c,
    decreases i,
{
    let n = legs.len() as int;
    if i > 0 {
        lemma_scrambled_roles(codes, legs, pos, at, i - 1);
        let p = pos[i - 1];
        assert(0 <= p < n);
        assert(legs[i - 1] == seq![codes[p], codes[p + 1]]);
        let o = codes[p];
        let d = codes[p + 1];
        assert(legs[i - 1][0] == o && legs[i - 1][1] == d);
        let m0 = roles_upto(legs, i - 1);
        let m1 = toggled(m0, legs[i - 1][0], 0);
        let m2 = roles_upto(legs, i);
        assert(m2 == toggled(m1, legs[i - 1][1], 1));
        assert(o != d);
        assert forall|k: int| #[trigger] placed(pos, i, k) == (placed(pos, i - 1, k) || p
            == k) by {
            lemma_placed_step(pos, i, k);
        }
        assert(!placed(pos, i - 1, p)) by {
            if placed(pos, i - 1, p) {
                let t = choose|t: int| 0 <= t < i - 1 && pos[t] == p;
                assert(at[pos[t]] == t);
                assert(at[pos[i - 1]] == i - 1);
            }
        }
        assert forall|k: int|
            #![trigger codes[k]]
            0 <= k <= legs.len() implies {
            &&& (m2.contains_key(codes[k]) <==> (placed(pos, i, k) != placed(pos, i, k - 1)))
            &&& (placed(pos, i, k) && !placed(pos, i, k - 1) ==> m2[codes[k]] == 0)
            &&& (!placed(pos, i, k) && placed(pos, i, k - 1) ==> m2[codes[k]] == 1)
        } by {
            if k == p {
                assert(codes[k] == o);
                assert(placed(pos, i, k));
                assert(placed(pos, i, k - 1) == placed(pos, i - 1, k - 1));
                if placed(pos, i - 1, p - 1) {
                    assert(m0.contains_key(o));
                    assert(m1 == m0.remove(o));
                    assert(!m2.contains_key(o));
                } else {
                    assert(!m0.contains_key(o));
                    assert(m1 == m0.insert(o, 0u8));
                    assert(m2.contains_key(o) && m2[o] == 0);
                }
            } else if k == p + 1 {
                assert(codes[k] == d);
                assert(placed(pos, i, k - 1));
                assert(placed(pos, i, k) == placed(pos, i - 1, k));
                assert(m1.contains_key(d) == m0.contains_key(d));
                if placed(pos, i - 1, p + 1) {
                    assert(m0.contains_key(d));
                    assert(m2 == m1.remove(d));
                    assert(!m2.contains_key(d));
                } else {
                    assert(!m0.contains_key(d));
                    assert(m2 == m1.insert(d, 1u8));
                    assert(m2.contains_key(d) && m2[d] == 1);
                }
            } else {
                assert(codes[k] != o);
                assert(codes[k] != d);
                assert(m1.contains_key(codes[k]) == m0.contains_key(codes[k]));
                assert(m2.contains_key(codes[k]) == m0.contains_key(codes[k]));
                assert(m0.contains_key(codes[k]) ==> m2[codes[k]] == m0[codes[k]]);
                assert(placed(pos, i, k) == placed(pos, i - 1, k));
                assert(placed(pos, i, k - 1) == placed(pos, i - 1, k - 1));
            }
        }
        assert forall|c: Seq<char>| #[trigger] m2.contains_key(c) implies exists|k: int|
            0 <= k <= legs.len() && codes[k] == c by {
            if c == o {
                assert(0 <= p <= legs.len() && codes[p] == c);
            } else if c == d {
                assert(0 <= p + 1 <= legs.len() && codes[p + 1] == c);
            } else {
                assert(m1.contains_key(c));
                assert(m0.contains_key(c));
            }
        }
    }
}

/// The next-hop mapping of the first `i` legs of a chain in any order sends
/// each chain position seen so far to its successor code.
proof fn lemma_scrambled_hops(
    codes: Seq<Seq<char>>,
    legs: Seq<LegView>,
    pos: Seq<int>,
    at: Seq<int>,
    i: int,
)
    requires
        chain_in_some_order(codes, legs, pos, at),
        0 <= i <= legs.len(),
    ensures
        forall|k: int|
            #![trigger codes[k]]
            0 <= k < legs.len() ==> {
                &&& (hops_upto(legs, i).contains_key(codes[k]) <==> placed(pos, i, k))
                &&& (placed(pos, i, k) ==> hops_upto(legs, i)[codes[k]] == codes[k + 1])
            },
    decreases i,
{
    if i > 0 {
        lemma_scrambled_hops(codes, legs, pos, at, i - 1);
        let p = pos[i - 1];
        assert(legs[i - 1] == seq![codes[p], codes[p + 1]]);
        assert(hops_upto(legs, i) == hops_upto(legs, i - 1).insert(codes[p], codes[p + 1]));
        assert forall|k: int| #[trigger] placed(pos, i, k) == (placed(pos, i - 1, k) || p
            == k) by {
            lemma_placed_step(pos, i, k);
        }
        assert forall|k: int|
            #![trigger codes[k]]
            0 <= k < legs.len() implies {
            &&& (hops_upto(legs, i).contains_key(codes[k]) <==> placed(pos, i, k))
            &&& (placed(pos, i, k) ==> hops_upto(legs, i)[codes[k]] == codes[k + 1])
        } by {
            if k != p {
                assert(codes[k] != codes[p]);
                assert(placed(pos, i, k) == placed(pos, i - 1, k));
            }
        }
    }
}

/// Walking a mapping that sends each code of `codes` to the next reaches the
/// last code and visits exactly the codes from `i` on, whenever at least the
/// remaining number of hops may still be spent.
proof fn lemma_walk_along(codes: Seq<Seq<char>>, hops: Map<Seq<char>, Seq<char>>, i: int, fuel: nat)
    requires
        codes.len() >= 1,
        forall|a: int, b: int| 0 <= a < b < codes.len() ==> codes[a] != codes[b],
        forall|j: int| 0 <= j < codes.len() - 1 ==> #[trigger] hops.contains_key(codes[j])
            && hops[codes[j]] == codes[j + 1],
        0 <= i < codes.len(),
        fuel >= codes.len() - 1 - i,
    ensures
        walk_from(hops, codes[i], codes[codes.len() - 1], fuel) == Walk::Reached(codes.skip(i)),
    decreases codes.len() - i,
{
    let dst = codes[codes.len() - 1];
    if i == codes.len() - 1 {
        assert(walk_from(hops, codes[i], dst, fuel) == Walk::Reached(seq![codes[i]]));
        assert(codes.skip(i) =~= seq![codes[i]]);
    } else {
        assert(codes[i] != dst);
        assert(hops.contains_key(codes[i]) && hops[codes[i]] == codes[i + 1]);
        lemma_walk_along(codes, hops, i + 1, (fuel - 1) as nat);
        assert(seq![codes[i]] + codes.skip(i + 1) =~= codes.skip(i));
    }
}

/// Law: building a leg set that holds the legs of one valid chain, in
/// whatever order they were supplied, succeeds with the chain's first code
/// as source and its last code as destination, and walking the built
/// next-hop mapping with the standard hop budget visits exactly the chain's
/// codes in chain order: the path starts at the source, ends at the
/// destination, is one longer than the number of legs, and visits each leg's
/// origin immediately before that leg's destination.
pub proof fn lemma_any_order_chain_builds_and_walks(
    codes: Seq<Seq<char>>,
    legs: Seq<LegView>,
    pos: Seq<int>,
    at: Seq<int>,
)
    requires
        chain_in_some_order(codes, legs, pos, at),
    ensures
        build(legs) matches Build::Built { source, destination, hops } && source == codes[0]
            && destination == codes[codes.len() - 1] && hops == hops_of(legs) && walk_from(
            hops,
            source,
            destination,
            (legs.len() + 1) as nat,
        ) == Walk::Reached(codes),
{
    let n = legs.len() as int;
    lemma_scrambled_scan(codes, legs, pos, at, 0);
    lemma_scrambled_roles(codes, legs, pos, at, n);
    let roles = roles_of(legs);
    assert forall|k: int| 0 <= k < n implies #[trigger] placed(pos, n, k) by {
        assert(0 <= at[k] < n && pos[at[k]] == k);
    }
    assert(!placed(pos, n, -1)) by {
        if placed(pos, n, -1) {
            let t = choose|t: int| 0 <= t < n && pos[t] == -1;
        }
    }
    assert(!placed(pos, n, n)) by {
        if placed(pos, n, n) {
            let t = choose|t: int| 0 <= t < n && pos[t] == n;
        }
    }
    assert(roles.contains_key(codes[0]) && roles[codes[0]] == 0u8);
    assert(roles.contains_key(codes[n]) && roles[codes[n]] == 1u8);
    assert(has_role(roles, 0));
    assert(has_role(roles, 1));
    assert(lone_role(roles, 0)) by {
        assert forall|c1: Seq<char>, c2: Seq<char>|
            roles.contains_key(c1) && roles[c1] == 0 && roles.contains_key(c2) && roles[c2]
                == 0 implies c1 == c2 by {
            let k1 = choose|k: int| 0 <= k <= n && codes[k] == c1;
            assert(0 < k1 < n ==> placed(pos, n, k1) && placed(pos, n, k1 - 1));
            assert(k1 == n && n > 0 ==> !placed(pos, n, k1) && placed(pos, n, k1 - 1));
            assert(k1 == 0);
            let k2 = choose|k: int| 0 <= k <= n && codes[k] == c2;
            assert(k2 == 0);
        }
    }
    assert(lone_role(roles, 1)) by {
        assert forall|c1: Seq<char>, c2: Seq<char>|
            roles.contains_key(c1) && roles[c1] == 1 && roles.contains_key(c2) && roles[c2]
                == 1 implies c1 == c2 by {
            let k1 = choose|k: int| 0 <= k <= n && codes[k] == c1;
            assert(0 < k1 < n ==> placed(pos, n, k1) && placed(pos, n, k1 - 1));
            assert(k1 == 0 ==> roles[codes[0]] == 0);
            assert(k1 == n);
            let k2 = choose|k: int| 0 <= k <= n && codes[k] == c2;
            assert(k2 == n);
        }
    }
    assert(the_role(roles, 0) == codes[0]) by {
        assert(roles.contains_key(the_role(roles, 0)) && roles[the_role(roles, 0)] == 0);
    }
    assert(the_role(roles, 1) == codes[n]) by {
        assert(roles.contains_key(the_role(roles, 1)) && roles[the_role(roles, 1)] == 1);
    }
    lemma_scrambled_hops(codes, legs, pos, at, n);
    assert forall|j: int| 0 <= j < codes.len() - 1 implies #[trigger] hops_of(
        legs,
    ).contains_key(codes[j]) && hops_of(legs)[codes[j]] == codes[j + 1] by {
        assert(placed(pos, n, j));
    }
    lemma_walk_along(codes, hops_of(legs), 0, (n + 1) as nat);
    assert(codes.skip(0) =~= codes);
}

/// Law: an empty leg set yields no source.
pub proof fn lemma_empty_legs_no_source()
    ensures
        build(Seq::<LegView>::empty()) == Build::Failed(BuildFail::NoSource),
{
    let legs = Seq::<LegView>::empty();
    assert(scan_fail(legs, 0) is None);
    let roles = roles_of(legs);
    assert(roles =~= Map::<Seq<char>, u8>::empty());
    assert(!has_role(roles, 0)) by {
        if has_role(roles, 0) {
            let c = choose|c: Seq<char>| roles.contains_key(c) && roles[c] == 0;
            assert(false);
        }
    }
}

} // verus!
