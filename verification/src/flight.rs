//! Flight itineraries: requests, responses, errors, and the `Flight` type
//! that holds a validated itinerary.
//!
//! `Flight::try_from` builds an itinerary from raw legs exactly as
//! `model::build` says; walking it with `FlightInfo::path` follows
//! `model::walk_from` with a hop budget of one more than the number of legs.

use vstd::prelude::*;
use crate::assoc::{
    assoc_map,
    distinct_keys,
    assoc_find_last,
    lemma_assoc_map_contains,
    lemma_assoc_map_entry,
    lemma_assoc_map_push,
    lemma_assoc_map_remove,
    lemma_assoc_map_last_entry,
};
use crate::model::{
    LegView,
    BuildFail,
    Build,
    Walk,
    build,
    scan_fail,
    roles_upto,
    roles_of,
    hops_upto,
    hops_of,
    toggled,
    has_role,
    lone_role,
    the_role,
    walk_from,
    lemma_roles_upto_binary,
};

verus! {

/// A request: the legs to assemble and whether the full path is wanted.
#[derive(Clone)]
pub struct FlightRequest {
    pub legs: Vec<Vec<String>>,
    pub full_path: bool,
}

/// The result envelope handed to the transport boundary.
pub enum FlightResponse {
    Success { source: String, destination: String, path: Option<Vec<String>> },
    Error { message: String },
}

/// The ways a request can fail; every one of them is a client-input error.
#[derive(Debug)]
pub enum FlightError {
    /// Path reconstruction reached this code and found no next hop.
    DestinationNotFoundFor(String),
    /// This leg is not exactly an origin and a destination.
    InvalidLeg(Vec<String>),
    /// This airport code is empty.
    InvalidAirportCode(String),
    /// No airport qualifies as the overall origin.
    SourceNotFound,
    /// No airport qualifies as the overall destination.
    DestinationNotFound,
    /// More than one airport qualifies as origin or as destination.
    AmbiguousEndpoints,
    /// The next-hop mapping loops without reaching the destination.
    CycleDetected,
}

impl FlightError {
    /// The characters of the message that reports this error.
    pub open spec fn spec_message(&self) -> Seq<char> {
        match self {
            FlightError::DestinationNotFoundFor(c) => "no destination found for "@ + c@,
            FlightError::InvalidLeg(_) => "invalid leg: expected exactly two airport codes"@,
            FlightError::InvalidAirportCode(_) => "invalid airport code: a code must not be empty"@,
            FlightError::SourceNotFound => "source not found"@,
            FlightError::DestinationNotFound => "destination not found"@,
            FlightError::AmbiguousEndpoints => "ambiguous itinerary: more than one source or destination"@,
            FlightError::CycleDetected => "cycle detected: the legs do not reach the destination"@,
        }
    }

    /// A human-readable rendering of the failure kind.
    pub fn message(&self) -> (r: String)
        ensures
            r@ == self.spec_message(),
    {
        match self {
            FlightError::DestinationNotFoundFor(c) => String::from_str(
                "no destination found for ",
            ).concat(c.as_str()),
            FlightError::InvalidLeg(_) => String::from_str(
                "invalid leg: expected exactly two airport codes",
            ),
            FlightError::InvalidAirportCode(_) => String::from_str(
                "invalid airport code: a code must not be empty",
            ),
            FlightError::SourceNotFound => String::from_str("source not found"),
            FlightError::DestinationNotFound => String::from_str("destination not found"),
            FlightError::AmbiguousEndpoints => String::from_str(
                "ambiguous itinerary: more than one source or destination",
            ),
            FlightError::CycleDetected => String::from_str(
                "cycle detected: the legs do not reach the destination",
            ),
        }
    }
}

/// Element-wise equality of two code lists.
fn codes_eq(x: &Vec<String>, y: &Vec<String>) -> (r: bool)
    ensures
        r == (x.deep_view() == y.deep_view()),
{
    if x.len() != y.len() {
        proof {
            assert(x.deep_view().len() != y.deep_view().len());
        }
        return false;
    }
    let mut i: usize = 0;
    while i < x.len()
        invariant
            x@.len() == y@.len(),
            i <= x@.len(),
            forall|j: int| 0 <= j < i ==> x.deep_view()[j] == y.deep_view()[j],
        decreases x@.len() - i,
    {
        proof {
            assert(x.deep_view()[i as int] == x@[i as int]@);
            assert(y.deep_view()[i as int] == y@[i as int]@);
        }
        if !(x[i] == y[i]) {
            return false;
        }
        i = i + 1;
    }
    proof {
        assert(x.deep_view() =~= y.deep_view());
    }
    true
}

impl PartialEq for FlightError {
    fn eq(&self, other: &FlightError) -> (r: bool) {
        match (self, other) {
            (FlightError::DestinationNotFoundFor(a), FlightError::DestinationNotFoundFor(b)) => *a
                == *b,
            (FlightError::InvalidLeg(a), FlightError::InvalidLeg(b)) => codes_eq(a, b),
            (FlightError::InvalidAirportCode(a), FlightError::InvalidAirportCode(b)) => *a == *b,
            (FlightError::SourceNotFound, FlightError::SourceNotFound) => true,
            (FlightError::DestinationNotFound, FlightError::DestinationNotFound) => true,
            (FlightError::AmbiguousEndpoints, FlightError::AmbiguousEndpoints) => true,
            (FlightError::CycleDetected, FlightError::CycleDetected) => true,
            _ => false,
        }
    }
}

impl vstd::std_specs::cmp::PartialEqSpecImpl for FlightError {
    open spec fn obeys_eq_spec() -> bool {
        true
    }

    open spec fn eq_spec(&self, other: &FlightError) -> bool {
        match (self, other) {
            (FlightError::DestinationNotFoundFor(a), FlightError::DestinationNotFoundFor(b)) => a@
                == b@,
            (FlightError::InvalidLeg(a), FlightError::InvalidLeg(b)) => a.deep_view()
                == b.deep_view(),
            (FlightError::InvalidAirportCode(a), FlightError::InvalidAirportCode(b)) => a@ == b@,
            (FlightError::SourceNotFound, FlightError::SourceNotFound) => true,
            (FlightError::DestinationNotFound, FlightError::DestinationNotFound) => true,
            (FlightError::AmbiguousEndpoints, FlightError::AmbiguousEndpoints) => true,
            (FlightError::CycleDetected, FlightError::CycleDetected) => true,
            _ => false,
        }
    }
}

/// The entries of a next-hop list, each string as its characters.
pub open spec fn hop_entries(s: Seq<(String, String)>) -> Seq<(Seq<char>, Seq<char>)> {
    s.map(|i: int, p: (String, String)| (p.0@, p.1@))
}

/// The entries of a role list, each string as its characters.
pub open spec fn role_entries(s: Seq<(String, u8)>) -> Seq<(Seq<char>, u8)> {
    s.map(|i: int, p: (String, u8)| (p.0@, p.1))
}

/// The executable error that reports a spec-level build failure.
pub open spec fn err_matches(e: FlightError, f: BuildFail) -> bool {
    match f {
        BuildFail::BadLeg(l) => e matches FlightError::InvalidLeg(v) && v.deep_view() == l,
        BuildFail::BadCode(c) => e matches FlightError::InvalidAirportCode(s) && s@ == c,
        BuildFail::NoSource => e matches FlightError::SourceNotFound,
        BuildFail::NoDestination => e matches FlightError::DestinationNotFound,
        BuildFail::Ambiguous => e matches FlightError::AmbiguousEndpoints,
    }
}

/// The executable result that reports the walk of a next-hop mapping.
pub open spec fn walk_matches(
    hops: Map<Seq<char>, Seq<char>>,
    source: Seq<char>,
    destination: Seq<char>,
    fuel: nat,
    r: Result<Vec<String>, FlightError>,
) -> bool {
    match walk_from(hops, source, destination, fuel) {
        Walk::Reached(p) => r matches Ok(path) && path.deep_view() == p,
        Walk::Broken(c) => r matches Err(e) && (e matches FlightError::DestinationNotFoundFor(x)
            && x@ == c),
        Walk::Cyclic => r matches Err(e) && (e matches FlightError::CycleDetected),
    }
}

/// What an itinerary exposes: its endpoints, its next-hop mapping and hop
/// budget, and a walk of that mapping from source to destination.
pub trait FlightInfo {
    /// The characters of the overall source code.
    spec fn spec_source(&self) -> Seq<char>;

    /// The characters of the overall destination code.
    spec fn spec_destination(&self) -> Seq<char>;

    /// The next-hop mapping.
    spec fn spec_hops(&self) -> Map<Seq<char>, Seq<char>>;

    /// How many hops a walk may spend before giving up.
    spec fn spec_fuel(&self) -> nat;

    fn source(&self) -> (r: String)
        ensures
            r@ == self.spec_source(),
    ;

    fn destination(&self) -> (r: String)
        ensures
            r@ == self.spec_destination(),
    ;

    fn path(&self) -> (r: Result<Vec<String>, FlightError>)
        ensures
            walk_matches(
                self.spec_hops(),
                self.spec_source(),
                self.spec_destination(),
                self.spec_fuel(),
                r,
            ),
    ;
}

/// A validated itinerary: the overall endpoints and the next-hop list built
/// from the legs, later legs overriding earlier ones.
pub struct Flight {
    source: String,
    destination: String,
    from_to: Vec<(String, String)>,
}

impl Flight {
    /// An itinerary assembled directly from its parts; the walk budget is one
    /// hop more than the list is long.
    pub fn new(source: String, destination: String, from_to: Vec<(String, String)>) -> (r: Flight)
        ensures
            r.spec_source() == source@,
            r.spec_destination() == destination@,
            r.spec_hops() == assoc_map(hop_entries(from_to@)),
            r.spec_fuel() == from_to@.len() + 1,
    {
        Flight { source, destination, from_to }
    }

    /// Builds an itinerary from raw legs: per-leg validation in input order,
    /// endpoint detection by the toggle algorithm, and the next-hop list,
    /// exactly as `model::build` says.
    pub fn try_from(legs: &Vec<Vec<String>>) -> (r: Result<Flight, FlightError>)
        ensures
            match build(legs.deep_view()) {
                Build::Failed(f) => r matches Err(e) && err_matches(e, f),
                Build::Built { source, destination, hops } => r matches Ok(fl)
                    && fl.spec_source() == source && fl.spec_destination() == destination
                    && fl.spec_hops() == hops && fl.spec_fuel() == legs.deep_view().len() + 1,
            },
    {
        let ghost lv = legs.deep_view();
        let mut from_to: Vec<(String, String)> = Vec::new();
        let mut roles: Vec<(String, u8)> = Vec::new();
        let mut idx: usize = 0;
        while idx < legs.len()
            invariant
                lv == legs.deep_view(),
                lv.len() == legs@.len(),
                idx <= legs@.len(),
                scan_fail(lv, 0) == scan_fail(lv, idx as int),
                from_to@.len() == idx,
                assoc_map(hop_entries(from_to@)) == hops_upto(lv, idx as int),
                distinct_keys(role_entries(roles@)),
                assoc_map(role_entries(roles@)) == roles_upto(lv, idx as int),
            decreases legs@.len() - idx,
        {
            let leg = &legs[idx];
            proof {
                assert(lv[idx as int] == legs@[idx as int].deep_view());
                assert(lv[idx as int].len() == leg@.len());
                assert(forall|j: int| 0 <= j < leg@.len() ==> lv[idx as int][j] == leg@[j]@);
            }
            if leg.len() != 2 {
                let bad = leg.clone();
                proof {
                    assert(scan_fail(lv, idx as int) == Some(BuildFail::BadLeg(lv[idx as int])));
                    assert(forall|j: int| #![all_triggers] 0 <= j < leg@.len() ==> bad@[j]
                        == leg@[j]);
                    assert(bad@ =~= leg@);
                    assert(bad.deep_view() =~= lv[idx as int]);
                }
                return Err(FlightError::InvalidLeg(bad));
            }
            let origin = leg[0].clone();
            let dest_code = leg[1].clone();
            let ghost ft0 = from_to@;
            from_to.push((origin.clone(), dest_code.clone()));
            proof {
                assert(origin@ == lv[idx as int][0]);
                assert(dest_code@ == lv[idx as int][1]);
                assert(hop_entries(from_to@) =~= hop_entries(ft0).push((origin@, dest_code@)));
                lemma_assoc_map_push(hop_entries(ft0), origin@, dest_code@);
                assert(assoc_map(hop_entries(from_to@)) == hops_upto(lv, idx as int + 1));
            }
            if origin.as_str().is_empty() {
                proof {
                    assert(scan_fail(lv, idx as int) == Some(
                        BuildFail::BadCode(lv[idx as int][0]),
                    ));
                }
                return Err(FlightError::InvalidAirportCode(origin));
            }
            let ghost origin_view = origin@;
            toggle_role(&mut roles, origin, 0);
            if dest_code.as_str().is_empty() {
                proof {
                    assert(scan_fail(lv, idx as int) == Some(
                        BuildFail::BadCode(lv[idx as int][1]),
                    ));
                }
                return Err(FlightError::InvalidAirportCode(dest_code));
            }
            toggle_role(&mut roles, dest_code, 1);
            proof {
                assert(assoc_map(role_entries(roles@)) == toggled(
                    toggled(roles_upto(lv, idx as int), lv[idx as int][0], 0),
                    lv[idx as int][1],
                    1,
                ));
                assert(assoc_map(role_entries(roles@)) == roles_upto(lv, idx as int + 1));
                assert(scan_fail(lv, idx as int) == scan_fail(lv, idx as int + 1));
            }
            idx = idx + 1;
        }
        let ghost s = role_entries(roles@);
        let ghost m = assoc_map(s);
        proof {
            assert(scan_fail(lv, lv.len() as int) is None);
            assert(m == roles_of(lv));
            assert(forall|j: int| 0 <= j < roles@.len() ==> s[j] == (roles@[j].0@, roles@[j].1));
            lemma_roles_upto_binary(lv, lv.len() as int);
            assert forall|j: int| 0 <= j < s.len() implies (m.contains_key(s[j].0) && m[s[j].0]
                == s[j].1 && (s[j].1 == 0 || s[j].1 == 1)) by {
                lemma_assoc_map_entry(s, j);
            }
        }
        let mut first0: Option<usize> = None;
        let mut dup0 = false;
        let mut first1: Option<usize> = None;
        let mut dup1 = false;
        let mut k: usize = 0;
        while k < roles.len()
            invariant
                s == role_entries(roles@),
                s.len() == roles@.len(),
                forall|j: int| 0 <= j < s.len() ==> s[j] == (roles@[j].0@, roles@[j].1),
                forall|j: int| 0 <= j < s.len() ==> s[j].1 == 0 || s[j].1 == 1,
                k <= roles@.len(),
                ({
                    match first0 {
                        None => !dup0 && (forall|j: int| 0 <= j < k ==> s[j].1 != 0),
                        Some(a) => {
                            &&& a < k
                            &&& s[a as int].1 == 0
                            &&& dup0 ==> exists|j: int|
                                0 <= j < k && j != a && s[j].1 == 0
                            &&& !dup0 ==> forall|j: int|
                                0 <= j < k && j != a ==> s[j].1 != 0
                        },
                    }
                }),
                ({
                    match first1 {
                        None => !dup1 && (forall|j: int| 0 <= j < k ==> s[j].1 != 1),
                        Some(b) => {
                            &&& b < k
                            &&& s[b as int].1 == 1
                            &&& dup1 ==> exists|j: int|
                                0 <= j < k && j != b && s[j].1 == 1
                            &&& !dup1 ==> forall|j: int|
                                0 <= j < k && j != b ==> s[j].1 != 1
                        },
                    }
                }),
            decreases roles@.len() - k,
        {
            proof {
                assert(s[k as int] == (roles@[k as int].0@, roles@[k as int].1));
            }
            if roles[k].1 == 0 {
                match first0 {
                    None => { first0 = Some(k); },
                    Some(_) => { dup0 = true; },
                }
            } else {
                match first1 {
                    None => { first1 = Some(k); },
                    Some(_) => { dup1 = true; },
                }
            }
            k = k + 1;
        }
        let a = match first0 {
            None => {
                proof {
                    assert(!has_role(m, 0)) by {
                        if has_role(m, 0) {
                            let c = choose|c: Seq<char>| m.contains_key(c) && m[c] == 0;
                            lemma_assoc_map_contains(s, c);
                            let j = choose|j: int| 0 <= j < s.len() && s[j].0 == c;
                            lemma_assoc_map_entry(s, j);
                            assert(s[j].1 == 0);
                        }
                    }
                }
                return Err(FlightError::SourceNotFound);
            },
            Some(a) => a,
        };
        let b = match first1 {
            None => {
                proof {
                    assert(m.contains_key(s[a as int].0) && m[s[a as int].0] == 0);
                    assert(has_role(m, 0));
                    assert(!has_role(m, 1)) by {
                        if has_role(m, 1) {
                            let c = choose|c: Seq<char>| m.contains_key(c) && m[c] == 1;
                            lemma_assoc_map_contains(s, c);
                            let j = choose|j: int| 0 <= j < s.len() && s[j].0 == c;
                            lemma_assoc_map_entry(s, j);
                            assert(s[j].1 == 1);
                        }
                    }
                }
                return Err(FlightError::DestinationNotFound);
            },
            Some(b) => b,
        };
        proof {
            assert(m.contains_key(s[a as int].0) && m[s[a as int].0] == 0);
            assert(has_role(m, 0));
            assert(m.contains_key(s[b as int].0) && m[s[b as int].0] == 1);
            assert(has_role(m, 1));
        }
        if dup0 || dup1 {
            proof {
                if dup0 {
                    let j = choose|j: int| 0 <= j < s.len() && j != a && s[j].1 == 0;
                    assert(s[j].0 != s[a as int].0);
                    assert(m.contains_key(s[j].0) && m[s[j].0] == 0);
                    assert(!lone_role(m, 0));
                } else {
                    let j = choose|j: int| 0 <= j < s.len() && j != b && s[j].1 == 1;
                    assert(s[j].0 != s[b as int].0);
                    assert(m.contains_key(s[j].0) && m[s[j].0] == 1);
                    assert(!lone_role(m, 1));
                }
            }
            return Err(FlightError::AmbiguousEndpoints);
        }
        let source = roles[a].0.clone();
        let destination = roles[b].0.clone();
        proof {
            assert(lone_role(m, 0)) by {
                assert forall|c1: Seq<char>, c2: Seq<char>|
                    m.contains_key(c1) && m[c1] == 0 && m.contains_key(c2) && m[c2]
                        == 0 implies c1 == c2 by {
                    lemma_assoc_map_contains(s, c1);
                    let j1 = choose|j: int| 0 <= j < s.len() && s[j].0 == c1;
                    lemma_assoc_map_entry(s, j1);
                    lemma_assoc_map_contains(s, c2);
                    let j2 = choose|j: int| 0 <= j < s.len() && s[j].0 == c2;
                    lemma_assoc_map_entry(s, j2);
                    assert(j1 == a && j2 == a);
                }
            }
            assert(lone_role(m, 1)) by {
                assert forall|c1: Seq<char>, c2: Seq<char>|
                    m.contains_key(c1) && m[c1] == 1 && m.contains_key(c2) && m[c2]
                        == 1 implies c1 == c2 by {
                    lemma_assoc_map_contains(s, c1);
                    let j1 = choose|j: int| 0 <= j < s.len() && s[j].0 == c1;
                    lemma_assoc_map_entry(s, j1);
                    lemma_assoc_map_contains(s, c2);
                    let j2 = choose|j: int| 0 <= j < s.len() && s[j].0 == c2;
                    lemma_assoc_map_entry(s, j2);
                    assert(j1 == b && j2 == b);
                }
            }
            assert(the_role(m, 0) == s[a as int].0) by {
                assert(m.contains_key(the_role(m, 0)) && m[the_role(m, 0)] == 0);
            }
            assert(the_role(m, 1) == s[b as int].0) by {
                assert(m.contains_key(the_role(m, 1)) && m[the_role(m, 1)] == 1);
            }
            assert(source@ == s[a as int].0);
            assert(destination@ == s[b as int].0);
            assert(assoc_map(hop_entries(from_to@)) == hops_of(lv));
        }
        Ok(Flight { source, destination, from_to })
    }
}

/// One toggle step on the role list: a code seen again cancels out, a new
/// code is recorded with the given role.
fn toggle_role(roles: &mut Vec<(String, u8)>, code: String, role: u8)
    requires
        distinct_keys(role_entries(old(roles)@)),
    ensures
        distinct_keys(role_entries(final(roles)@)),
        assoc_map(role_entries(final(roles)@)) == toggled(
            assoc_map(role_entries(old(roles)@)),
            code@,
            role,
        ),
{
    let ghost s = role_entries(roles@);
    proof {
        assert(forall|j: int| 0 <= j < roles@.len() ==> s[j] == (roles@[j].0@, roles@[j].1));
    }
    match assoc_find_last(roles, &code) {
        Some(i) => {
            proof {
                lemma_assoc_map_contains(s, code@);
                assert(s[i as int].0 == code@);
                assert(assoc_map(s).contains_key(code@));
                lemma_assoc_map_remove(s, i as int);
                crate::assoc::lemma_distinct_remove(s, i as int);
            }
            roles.remove(i);
            proof {
                assert(role_entries(roles@) =~= s.remove(i as int));
            }
        },
        None => {
            let ghost cv = code@;
            proof {
                lemma_assoc_map_contains(s, cv);
                assert(!assoc_map(s).contains_key(cv));
                lemma_assoc_map_push(s, cv, role);
                crate::assoc::lemma_distinct_push(s, cv, role);
            }
            roles.push((code, role));
            proof {
                assert(role_entries(roles@) =~= s.push((cv, role)));
            }
        },
    }
}

impl FlightInfo for Flight {
    closed spec fn spec_source(&self) -> Seq<char> {
        self.source@
    }

    closed spec fn spec_destination(&self) -> Seq<char> {
        self.destination@
    }

    closed spec fn spec_hops(&self) -> Map<Seq<char>, Seq<char>> {
        assoc_map(hop_entries(self.from_to@))
    }

    closed spec fn spec_fuel(&self) -> nat {
        self.from_to@.len() + 1
    }

    fn source(&self) -> (r: String) {
        self.source.clone()
    }

    fn destination(&self) -> (r: String) {
        self.destination.clone()
    }

    fn path(&self) -> (r: Result<Vec<String>, FlightError>) {
        let ghost m = self.spec_hops();
        let ghost dst = self.spec_destination();
        let ghost n = self.from_to@.len() as int;
        let mut path: Vec<String> = Vec::new();
        path.push(self.source.clone());
        let mut current: String = self.source.clone();
        proof {
            assert(path.deep_view() =~= seq![self.spec_source()]);
        }
        while !(current == self.destination)
            invariant
                m == self.spec_hops(),
                dst == self.spec_destination(),
                n == self.from_to@.len() as int,
                1 <= path.deep_view().len() <= n + 2,
                path.deep_view().last() == current@,
                ({
                    let pv = path.deep_view();
                    let fuel_left = (n + 2 - pv.len()) as nat;
                    match walk_from(m, current@, dst, fuel_left) {
                        Walk::Reached(rest) => walk_from(m, self.spec_source(), dst, (n + 1) as nat)
                            == Walk::Reached(pv.drop_last() + rest),
                        Walk::Broken(c) => walk_from(m, self.spec_source(), dst, (n + 1) as nat)
                            == Walk::Broken(c),
                        Walk::Cyclic => walk_from(m, self.spec_source(), dst, (n + 1) as nat)
                            == Walk::Cyclic,
                    }
                }),
            decreases n + 2 - path.deep_view().len(),
        {
            let ghost pv = path.deep_view();
            let ghost fuel_left = (n + 2 - pv.len()) as nat;
            if path.len() - 1 > self.from_to.len() {
                proof {
                    assert(pv.len() == n + 2);
                    assert(fuel_left == 0);
                    assert(walk_from(m, current@, dst, fuel_left) == Walk::Cyclic);
                }
                return Err(FlightError::CycleDetected);
            }
            assert(fuel_left >= 1);
            match assoc_find_last(&self.from_to, &current) {
                None => {
                    proof {
                        lemma_assoc_map_contains(hop_entries(self.from_to@), current@);
                        assert(forall|j: int| 0 <= j < self.from_to@.len()
                            ==> hop_entries(self.from_to@)[j].0 == self.from_to@[j].0@);
                        assert(!m.contains_key(current@));
                        assert(walk_from(m, current@, dst, fuel_left) == Walk::Broken(current@));
                    }
                    return Err(FlightError::DestinationNotFoundFor(current));
                },
                Some(i) => {
                    let next = self.from_to[i].1.clone();
                    proof {
                        let entries = hop_entries(self.from_to@);
                        assert(forall|j: int| 0 <= j < self.from_to@.len()
                            ==> entries[j] == (self.from_to@[j].0@, self.from_to@[j].1@));
                        lemma_assoc_map_last_entry(entries, i as int);
                        assert(m.contains_key(current@));
                        assert(m[current@] == next@);
                    }
                    path.push(next.clone());
                    current = next;
                    proof {
                        assert(path.deep_view() =~= pv.push(current@));
                        let pv2 = path.deep_view();
                        assert(pv2.drop_last() =~= pv);
                        let fuel2 = (n + 2 - pv2.len()) as nat;
                        assert(fuel2 == (fuel_left - 1) as nat);
                        assert(pv.last() != dst);
                        assert(walk_from(m, pv.last(), dst, fuel_left) == match walk_from(
                            m,
                            current@,
                            dst,
                            fuel2,
                        ) {
                            Walk::Reached(rest) => Walk::Reached(seq![pv.last()] + rest),
                            w => w,
                        });
                        if walk_from(m, current@, dst, fuel2) is Reached {
                            let rest = walk_from(m, current@, dst, fuel2)->Reached_0;
                            assert(pv.drop_last() + (seq![pv.last()] + rest) =~= pv + rest);
                            assert(pv2.drop_last() + rest =~= pv + rest);
                        }
                    }
                },
            }
        }
        proof {
            let pv = path.deep_view();
            let fuel_left = (n + 2 - pv.len()) as nat;
            assert(current@ == dst);
            assert(walk_from(m, current@, dst, fuel_left) == Walk::Reached(seq![current@]));
            assert(pv.drop_last() + seq![current@] =~= pv);
        }
        Ok(path)
    }
}

impl FlightResponse {
    /// Assembles the response for a request: builds the itinerary and, when
    /// the full path is wanted, walks it; every failure is handed back to the
    /// caller.
    pub fn try_from(req: &FlightRequest) -> (r: Result<FlightResponse, FlightError>)
        ensures
            ({
                let lv = req.legs.deep_view();
                match build(lv) {
                    Build::Failed(f) => r matches Err(e) && err_matches(e, f),
                    Build::Built { source, destination, hops } => {
                        if req.full_path {
                            match walk_from(hops, source, destination, lv.len() + 1) {
                                Walk::Reached(p) => r matches Ok(resp) && (resp
                                    matches FlightResponse::Success {
                                    source: so,
                                    destination: de,
                                    path: pp,
                                } && so@ == source && de@ == destination && (pp matches Some(v)
                                    && v.deep_view() == p)),
                                Walk::Broken(c) => r matches Err(e) && (e
                                    matches FlightError::DestinationNotFoundFor(x) && x@ == c),
                                Walk::Cyclic => r matches Err(e) && (e
                                    matches FlightError::CycleDetected),
                            }
                        } else {
                            r matches Ok(resp) && (resp matches FlightResponse::Success {
                                source: so,
                                destination: de,
                                path: pp,
                            } && so@ == source && de@ == destination && pp is None)
                        }
                    },
                }
            }),
    {
        let flight = match Flight::try_from(&req.legs) {
            Ok(f) => f,
            Err(e) => {
                return Err(e);
            },
        };
        let path = if req.full_path {
            match flight.path() {
                Ok(p) => Some(p),
                Err(e) => {
                    return Err(e);
                },
            }
        } else {
            None
        };
        Ok(
            FlightResponse::Success {
                source: flight.source(),
                destination: flight.destination(),
                path,
            },
        )
    }
}

} // verus!
