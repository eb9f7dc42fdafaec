//! The mathematical model of itinerary building and path walking.
//!
//! A request's legs are modelled as a sequence of legs, each leg a sequence of
//! airport codes, each code a sequence of characters. The functions here say
//! what the executable code in `flight` must compute; they are the vocabulary
//! of its contracts and of the laws in `laws`.

use vstd::prelude::*;

verus! {

/// One leg as supplied in a request: its airport codes, in order.
pub type LegView = Seq<Seq<char>>;

/// A leg is well formed when it is exactly an origin and a destination,
/// neither of them empty.
pub open spec fn leg_wf(leg: LegView) -> bool {
    leg.len() == 2 && leg[0].len() > 0 && leg[1].len() > 0
}

/// The ways building an itinerary can fail, each carrying what it reports.
pub enum BuildFail {
    /// A leg that is not exactly an origin and a destination.
    BadLeg(LegView),
    /// An empty airport code.
    BadCode(Seq<char>),
    /// No airport qualifies as the overall origin.
    NoSource,
    /// No airport qualifies as the overall destination.
    NoDestination,
    /// More than one airport qualifies as origin or as destination.
    Ambiguous,
}

/// The first per-leg validation failure at or after leg `i`, if any: a leg
/// that is not a pair, or the first empty code inside a pair.
pub open spec fn scan_fail(legs: Seq<LegView>, i: int) -> Option<BuildFail>
    decreases legs.len() - i,
{
    if i < 0 || i >= legs.len() {
        None
    } else if legs[i].len() != 2 {
        Some(BuildFail::BadLeg(legs[i]))
    } else if legs[i][0].len() == 0 {
        Some(BuildFail::BadCode(legs[i][0]))
    } else if legs[i][1].len() == 0 {
        Some(BuildFail::BadCode(legs[i][1]))
    } else {
        scan_fail(legs, i + 1)
    }
}

/// One step of the toggle algorithm: a code seen again cancels out, a code
/// seen for the first time is recorded with its role (0 origin, 1
/// destination).
pub open spec fn toggled(m: Map<Seq<char>, u8>, code: Seq<char>, role: u8) -> Map<Seq<char>, u8> {
    if m.contains_key(code) {
        m.remove(code)
    } else {
        m.insert(code, role)
    }
}

/// The role map after toggling both codes of each of the first `i` legs, in
/// leg order, origin before destination.
pub open spec fn roles_upto(legs: Seq<LegView>, i: int) -> Map<Seq<char>, u8>
    decreases i,
{
    if i <= 0 {
        Map::empty()
    } else {
        toggled(toggled(roles_upto(legs, i - 1), legs[i - 1][0], 0), legs[i - 1][1], 1)
    }
}

/// The role map after toggling every leg.
pub open spec fn roles_of(legs: Seq<LegView>) -> Map<Seq<char>, u8> {
    roles_upto(legs, legs.len() as int)
}

/// The next-hop mapping after inserting origin to destination for the first
/// `i` legs, later legs overriding earlier ones.
pub open spec fn hops_upto(legs: Seq<LegView>, i: int) -> Map<Seq<char>, Seq<char>>
    decreases i,
{
    if i <= 0 {
        Map::empty()
    } else {
        hops_upto(legs, i - 1).insert(legs[i - 1][0], legs[i - 1][1])
    }
}

/// The next-hop mapping of the whole leg set.
pub open spec fn hops_of(legs: Seq<LegView>) -> Map<Seq<char>, Seq<char>> {
    hops_upto(legs, legs.len() as int)
}

/// Some airport survived the toggling with the given role.
pub open spec fn has_role(m: Map<Seq<char>, u8>, role: u8) -> bool {
    exists|c: Seq<char>| m.contains_key(c) && m[c] == role
}

/// At most one airport survived the toggling with the given role.
pub open spec fn lone_role(m: Map<Seq<char>, u8>, role: u8) -> bool {
    forall|c1: Seq<char>, c2: Seq<char>|
        m.contains_key(c1) && m[c1] == role && m.contains_key(c2) && m[c2] == role ==> c1 == c2
}

/// The airport that survived the toggling with the given role.
pub open spec fn the_role(m: Map<Seq<char>, u8>, role: u8) -> Seq<char> {
    choose|c: Seq<char>| m.contains_key(c) && m[c] == role
}

/// Every role the toggling records is an origin role or a destination role.
pub proof fn lemma_roles_upto_binary(legs: Seq<LegView>, i: int)
    ensures
        forall|c: Seq<char>| #[trigger] roles_upto(legs, i).contains_key(c)
            ==> roles_upto(legs, i)[c] == 0 || roles_upto(legs, i)[c] == 1,
    decreases i,
{
    if i > 0 {
        lemma_roles_upto_binary(legs, i - 1);
        let m0 = roles_upto(legs, i - 1);
        let m1 = toggled(m0, legs[i - 1][0], 0);
        let m2 = toggled(m1, legs[i - 1][1], 1);
        assert forall|c: Seq<char>| #[trigger] m1.contains_key(c) implies m1[c] == 0 || m1[c]
            == 1 by {
            if c != legs[i - 1][0] {
                assert(m0.contains_key(c) && m1[c] == m0[c]);
            }
        }
        assert forall|c: Seq<char>| #[trigger] m2.contains_key(c) implies m2[c] == 0 || m2[c]
            == 1 by {
            if c != legs[i - 1][1] {
                assert(m1.contains_key(c) && m2[c] == m1[c]);
            }
        }
        assert(roles_upto(legs, i) == m2);
    }
}

/// What building an itinerary yields.
pub enum Build {
    /// The overall endpoints and the next-hop mapping.
    Built { source: Seq<char>, destination: Seq<char>, hops: Map<Seq<char>, Seq<char>> },
    /// The first failure encountered.
    Failed(BuildFail),
}

/// Building an itinerary from a leg set: per-leg validation in input order,
/// then endpoint detection by the toggle algorithm, then the demand that
/// exactly one origin and exactly one destination survive.
pub open spec fn build(legs: Seq<LegView>) -> Build {
    match scan_fail(legs, 0) {
        Some(f) => Build::Failed(f),
        None => {
            let roles = roles_of(legs);
            if !has_role(roles, 0) {
                Build::Failed(BuildFail::NoSource)
            } else if !has_role(roles, 1) {
                Build::Failed(BuildFail::NoDestination)
            } else if !lone_role(roles, 0) || !lone_role(roles, 1) {
                Build::Failed(BuildFail::Ambiguous)
            } else {
                Build::Built {
                    source: the_role(roles, 0),
                    destination: the_role(roles, 1),
                    hops: hops_of(legs),
                }
            }
        },
    }
}

/// What walking a next-hop mapping yields.
pub enum Walk {
    /// The airports visited, source and destination included.
    Reached(Seq<Seq<char>>),
    /// The walk stopped at a code with no next hop before reaching the
    /// destination.
    Broken(Seq<char>),
    /// The hop budget ran out: the mapping loops without reaching the
    /// destination.
    Cyclic,
}

/// Following the next-hop mapping from `at` until the destination, spending
/// at most `fuel` hops.
pub open spec fn walk_from(
    hops: Map<Seq<char>, Seq<char>>,
    at: Seq<char>,
    destination: Seq<char>,
    fuel: nat,
) -> Walk
    decreases fuel,
{
    if at == destination {
        Walk::Reached(seq![at])
    } else if fuel == 0 {
        Walk::Cyclic
    } else if !hops.contains_key(at) {
        Walk::Broken(at)
    } else {
        match walk_from(hops, hops[at], destination, (fuel - 1) as nat) {
            Walk::Reached(rest) => Walk::Reached(seq![at] + rest),
            w => w,
        }
    }
}

} // verus!
