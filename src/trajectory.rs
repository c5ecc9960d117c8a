use vstd::prelude::*;
use crate::adjacency::{edges_view, endpoint_labels, sorted_labels};
use crate::labels::{label_order, labels_view};
use crate::route::{refused_with, Route};

verus! {

/// Refusal of a collection in which two routes join the same labels the same way.
pub const REP_ERROR: &'static str = "There cannot be repetition of a given route";

/// Refusal of a collection without routes.
pub const NO_ROUTE_ERROR: &'static str = "There cannot be no routes";

/// Each route of a list as (source label, destination label, distance).
pub open spec fn routes_view(routes: Seq<Route>) -> Seq<(Seq<char>, Seq<char>, usize)> {
    routes.map_values(|r: Route| r@)
}

/// No two routes of `rs` join the same source to the same destination.
pub open spec fn distinct_routes(rs: Seq<(Seq<char>, Seq<char>, usize)>) -> bool {
    forall|i: int, j: int|
        0 <= i < j < rs.len() ==> !((#[trigger] rs[i]).0 == (#[trigger] rs[j]).0 && rs[i].1
            == rs[j].1)
}

/// The text of each label of a list of owned labels.
pub open spec fn strings_view(v: Seq<String>) -> Seq<Seq<char>> {
    v.map_values(|s: String| s@)
}

/// A non-empty collection of routes, no two of them joining the same labels the same
/// way.
#[derive(Debug)]
pub struct Trajectories {
    routes: Vec<Route>,
}

impl View for Trajectories {
    type V = Seq<(Seq<char>, Seq<char>, usize)>;

    closed spec fn view(&self) -> Seq<(Seq<char>, Seq<char>, usize)> {
        routes_view(self.routes@)
    }
}

impl Trajectories {
    /// The collection holds routes, no two joining the same labels the same way.
    pub closed spec fn wf(&self) -> bool {
        &&& self@.len() > 0
        &&& distinct_routes(self@)
    }

    /// A collection of `routes`. Refused with `NO_ROUTE_ERROR` where there are none,
    /// then with `REP_ERROR` where two of them join the same labels the same way.
    pub fn new<'a>(routes: Vec<Route>) -> (r: Result<Trajectories, &'a str>)
        ensures
            routes@.len() == 0 ==> refused_with(r, NO_ROUTE_ERROR),
            routes@.len() > 0 && !distinct_routes(routes_view(routes@)) ==> refused_with(
                r,
                REP_ERROR,
            ),
            routes@.len() > 0 && distinct_routes(routes_view(routes@)) ==> (r matches Ok(t) && t@
                == routes_view(routes@) && t.wf()),
    {
        if let Some(e) = Self::guard_clauses(&routes) {
            return Err(e);
        }
        Ok(Trajectories { routes })
    }

    /// A collection of the routes given as `(source, destination, distance)` tuples,
    /// each of which must make a route; refused as `new` refuses.
    pub fn from_routes_tuples<'a>(routes_tuple: Vec<(String, String, usize)>) -> (r: Result<
        Trajectories,
        &'a str,
    >)
        requires
            forall|i: int|
                0 <= i < routes_tuple@.len() ==> (#[trigger] routes_tuple@[i]).0@ != routes_tuple@[i].1@
                    && routes_tuple@[i].2 > 0,
        ensures
            routes_tuple@.len() == 0 ==> refused_with(r, NO_ROUTE_ERROR),
            ({
                let rs = routes_tuple@.map_values(
                    |t: (String, String, usize)| (t.0@, t.1@, t.2),
                );
                &&& routes_tuple@.len() > 0 && !distinct_routes(rs) ==> refused_with(r, REP_ERROR)
                &&& routes_tuple@.len() > 0 && distinct_routes(rs) ==> (r matches Ok(t) && t@ == rs
                    && t.wf())
            }),
    {
        let ghost rs = routes_tuple@.map_values(|t: (String, String, usize)| (t.0@, t.1@, t.2));
        let mut routes: Vec<Route> = Vec::new();
        let mut i: usize = 0;
        while i < routes_tuple.len()
            invariant
                i <= routes_tuple@.len(),
                forall|k: int|
                    0 <= k < routes_tuple@.len() ==> (#[trigger] routes_tuple@[k]).0@
                        != routes_tuple@[k].1@ && routes_tuple@[k].2 > 0,
                routes_view(routes@) == rs.take(i as int),
                rs == routes_tuple@.map_values(|t: (String, String, usize)| (t.0@, t.1@, t.2)),
            decreases routes_tuple@.len() - i,
        {
            let t = &routes_tuple[i];
            match Route::from_tuple(t) {
                Ok(route) => {
                    let ghost before = routes@;
                    routes.push(route);
                    assert(rs[i as int] == (t.0@, t.1@, t.2));
                    assert(routes_view(routes@) =~= routes_view(before).push(route@));
                    assert(routes_view(routes@) =~= rs.take(i + 1));
                },
                Err(_) => {},
            }
            i = i + 1;
        }
        assert(rs.take(i as int) =~= rs);
        Self::new(routes)
    }

    /// Adds `routes` to the collection, emptying `routes`. Refused with `REP_ERROR`,
    /// leaving both as they were, where two routes of the whole would join the same
    /// labels the same way.
    pub fn append<'a>(&mut self, routes: &mut Vec<Route>) -> (r: Result<(), &'a str>)
        requires
            old(self).wf(),
        ensures
            final(self).wf(),
            distinct_routes(old(self)@ + routes_view(old(routes)@)) ==> r is Ok && final(self)@
                == old(self)@ + routes_view(old(routes)@) && final(routes)@.len() == 0,
            !distinct_routes(old(self)@ + routes_view(old(routes)@)) ==> refused_with(r, REP_ERROR)
                && final(self)@ == old(self)@ && final(routes)@ == old(routes)@,
    {
        let ghost whole = self@ + routes_view(routes@);
        let n = self.routes.len();
        proof {
            assert forall|a: int| 0 <= a < n implies #[trigger] whole[a] == self@[a] by {}
        }
        let mut j: usize = 0;
        while j < routes.len()
            invariant
                n == self.routes@.len(),
                n == self@.len(),
                self@ == old(self)@,
                self.wf(),
                routes@ == old(routes)@,
                whole == self@ + routes_view(routes@),
                j <= routes@.len(),
                forall|a: int, b: int|
                    0 <= a < b < n + j ==> !((#[trigger] whole[a]).0 == (#[trigger] whole[b]).0
                        && whole[a].1 == whole[b].1),
            decreases routes@.len() - j,
        {
            assert(whole[n + j] == routes@[j as int]@);
            let mut k: usize = 0;
            while k < n
                invariant
                    n == self.routes@.len(),
                    n == self@.len(),
                    self@ == old(self)@,
                    self.wf(),
                    routes@ == old(routes)@,
                    whole == self@ + routes_view(routes@),
                    j < routes@.len(),
                    k <= n,
                    forall|a: int| 0 <= a < k ==> !((#[trigger] whole[a]).0 == whole[n + j].0
                        && whole[a].1 == whole[n + j].1),
                decreases n - k,
            {
                assert(whole[k as int] == self.routes@[k as int]@);
                if self.routes[k] == routes[j] {
                    proof {
                        assert(!distinct_routes(whole)) by {
                            assert(whole[k as int].0 == whole[n + j].0);
                        }
                    }
                    return Err(REP_ERROR);
                }
                k = k + 1;
            }
            let mut k: usize = 0;
            while k < j
                invariant
                    n == self.routes@.len(),
                    n == self@.len(),
                    self@ == old(self)@,
                    self.wf(),
                    routes@ == old(routes)@,
                    whole == self@ + routes_view(routes@),
                    j < routes@.len(),
                    k <= j,
                    forall|a: int| 0 <= a < n + k ==> !((#[trigger] whole[a]).0 == whole[n + j].0
                        && whole[a].1 == whole[n + j].1),
                decreases j - k,
            {
                assert(whole[n + k] == routes@[k as int]@);
                if routes[k] == routes[j] {
                    proof {
                        assert(!distinct_routes(whole)) by {
                            assert(whole[n + k].0 == whole[n + j].0);
                        }
                    }
                    return Err(REP_ERROR);
                }
                k = k + 1;
            }
            j = j + 1;
        }
        assert(distinct_routes(whole)) by {
            assert forall|a: int, b: int| 0 <= a < b < whole.len() implies !((#[trigger] whole[a]).0
                == (#[trigger] whole[b]).0 && whole[a].1 == whole[b].1) by {}
        }
        let ghost moved = routes@;
        self.routes.append(routes);
        assert(self@ =~= whole) by {
            assert(self.routes@ == old(self).routes@ + moved);
        }
        Ok(())
    }

    /// The first refusal that `routes` earns, if any.
    fn guard_clauses<'a>(routes: &Vec<Route>) -> (r: Option<&'a str>)
        ensures
            routes@.len() == 0 ==> (r matches Some(e) && e@ == NO_ROUTE_ERROR@),
            routes@.len() > 0 && !distinct_routes(routes_view(routes@)) ==> (r matches Some(e)
                && e@ == REP_ERROR@),
            routes@.len() > 0 && distinct_routes(routes_view(routes@)) ==> r is None,
    {
        match Self::guard_against_empty_routes(routes) {
            Some(e) => Some(e),
            None => Self::guard_against_repeated_routes(routes),
        }
    }

    fn guard_against_empty_routes<'a>(routes: &Vec<Route>) -> (r: Option<&'a str>)
        ensures
            routes@.len() == 0 ==> (r matches Some(e) && e@ == NO_ROUTE_ERROR@),
            routes@.len() > 0 ==> r is None,
    {
        if routes.len() == 0 {
            return Some(NO_ROUTE_ERROR);
        }
        None
    }

    fn guard_against_repeated_routes<'a>(routes: &Vec<Route>) -> (r: Option<&'a str>)
        ensures
            !distinct_routes(routes_view(routes@)) ==> (r matches Some(e) && e@ == REP_ERROR@),
            distinct_routes(routes_view(routes@)) ==> r is None,
    {
        if !Self::check_uniques(routes) {
            return Some(REP_ERROR);
        }
        None
    }

    /// The routes of the collection, in order.
    pub fn routes(&self) -> (r: &Vec<Route>)
        ensures
            routes_view(r@) == self@,
    {
        &self.routes
    }

    /// The labels that the routes join, in label order, each once.
    pub fn nodes(&self) -> (r: Vec<String>)
        ensures
            strings_view(r@) == label_order(endpoint_labels(self@)),
    {
        let mut tuples: Vec<(&str, &str, usize)> = Vec::new();
        let mut i: usize = 0;
        while i < self.routes.len()
            invariant
                i <= self.routes@.len(),
                edges_view(tuples@) == self@.take(i as int),
            decreases self.routes@.len() - i,
        {
            let route = &self.routes[i];
            let ghost before = tuples@;
            tuples.push((route.source_str(), route.destination_str(), route.distance()));
            assert(self@[i as int] == self.routes@[i as int]@);
            assert(edges_view(tuples@) =~= edges_view(before).push(self@[i as int]));
            assert(edges_view(tuples@) =~= self@.take(i + 1));
            i = i + 1;
        }
        assert(self@.take(i as int) =~= self@);
        let labels = sorted_labels(tuples.as_slice());
        let mut unique_nodes: Vec<String> = Vec::new();
        let mut k: usize = 0;
        while k < labels.len()
            invariant
                k <= labels@.len(),
                strings_view(unique_nodes@) == labels_view(labels@).take(k as int),
            decreases labels@.len() - k,
        {
            let ghost before = unique_nodes@;
            let owned = labels[k].to_owned();
            unique_nodes.push(owned);
            assert(labels_view(labels@)[k as int] == owned@);
            assert(strings_view(unique_nodes@) =~= strings_view(before).push(owned@));
            assert(strings_view(unique_nodes@) =~= labels_view(labels@).take(k + 1));
            k = k + 1;
        }
        assert(labels_view(labels@).take(k as int) =~= labels_view(labels@));
        unique_nodes
    }

    /// The endpoints of each route, in order.
    fn routes_tuple(routes: &Vec<Route>) -> (r: Vec<(String, String)>)
        ensures
            r@.len() == routes@.len(),
            forall|i: int|
                0 <= i < r@.len() ==> (#[trigger] r@[i]).0@ == routes@[i]@.0 && r@[i].1@
                    == routes@[i]@.1,
    {
        let mut route_tuple: Vec<(String, String)> = Vec::new();
        let mut i: usize = 0;
        while i < routes.len()
            invariant
                i <= routes@.len(),
                route_tuple@.len() == i,
                forall|k: int|
                    0 <= k < i ==> (#[trigger] route_tuple@[k]).0@ == routes@[k]@.0
                        && route_tuple@[k].1@ == routes@[k]@.1,
            decreases routes@.len() - i,
        {
            route_tuple.push(routes[i].endpoints());
            i = i + 1;
        }
        route_tuple
    }

    /// Whether no two routes join the same labels the same way.
    fn check_uniques(routes: &Vec<Route>) -> (r: bool)
        ensures
            r == distinct_routes(routes_view(routes@)),
    {
        let pairs = Self::routes_tuple(routes);
        let ghost rs = routes_view(routes@);
        let mut j: usize = 0;
        while j < pairs.len()
            invariant
                rs == routes_view(routes@),
                pairs@.len() == rs.len(),
                forall|i: int|
                    0 <= i < pairs@.len() ==> (#[trigger] pairs@[i]).0@ == rs[i].0 && pairs@[i].1@
                        == rs[i].1,
                j <= pairs@.len(),
                forall|a: int, b: int|
                    0 <= a < b < j ==> !((#[trigger] rs[a]).0 == (#[trigger] rs[b]).0 && rs[a].1
                        == rs[b].1),
            decreases pairs@.len() - j,
        {
            let mut k: usize = 0;
            while k < j
                invariant
                    rs == routes_view(routes@),
                    pairs@.len() == rs.len(),
                    forall|i: int|
                        0 <= i < pairs@.len() ==> (#[trigger] pairs@[i]).0@ == rs[i].0
                            && pairs@[i].1@ == rs[i].1,
                    j < pairs@.len(),
                    k <= j,
                    forall|a: int| 0 <= a < k ==> !((#[trigger] rs[a]).0 == rs[j as int].0 && rs[a].1
                        == rs[j as int].1),
                decreases j - k,
            {
                if pairs[k].0 == pairs[j].0 && pairs[k].1 == pairs[j].1 {
                    assert(rs[k as int].0 == rs[j as int].0);
                    return false;
                }
                k = k + 1;
            }
            j = j + 1;
        }
        true
    }
}

/// Two collections are equal where they hold the same routes in the same order.
impl PartialEq for Trajectories {
    fn eq(&self, other: &Trajectories) -> (r: bool) {
        if self.routes.len() != other.routes.len() {
            return false;
        }
        let mut i: usize = 0;
        while i < self.routes.len()
            invariant
                self.routes@.len() == other.routes@.len(),
                i <= self.routes@.len(),
                forall|k: int|
                    0 <= k < i ==> (#[trigger] self@[k]).0 == other@[k].0 && self@[k].1
                        == other@[k].1,
            decreases self.routes@.len() - i,
        {
            assert(self@[i as int] == self.routes@[i as int]@);
            assert(other@[i as int] == other.routes@[i as int]@);
            if !(self.routes[i] == other.routes[i]) {
                return false;
            }
            i = i + 1;
        }
        true
    }
}

impl vstd::std_specs::cmp::PartialEqSpecImpl for Trajectories {
    open spec fn obeys_eq_spec() -> bool {
        true
    }

    open spec fn eq_spec(&self, other: &Trajectories) -> bool {
        &&& self@.len() == other@.len()
        &&& forall|k: int|
            0 <= k < self@.len() ==> (#[trigger] self@[k]).0 == other@[k].0 && self@[k].1
                == other@[k].1
    }
}

} // verus!
