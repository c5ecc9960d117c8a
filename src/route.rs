use vstd::prelude::*;

verus! {

/// Refusal of a route whose two endpoints are the same label.
pub const ROUTE_TO_ITSELF: &'static str = "Impossible to have a route to itself";

/// Refusal of a route that costs nothing.
pub const ZERO_DISTANCE: &'static str = "A route with zero distance is a route to itself";

/// `r` is the refusal `msg`.
pub open spec fn refused_with<T>(r: Result<T, &str>, msg: &str) -> bool {
    match r {
        Err(e) => e@ == msg@,
        Ok(_) => false,
    }
}

/// The character of decimal digit `d`.
pub open spec fn digit_char(d: int) -> char {
    seq!['0', '1', '2', '3', '4', '5', '6', '7', '8', '9'][d]
}

/// The decimal text of `n`, without leading zeros.
pub open spec fn decimal(n: nat) -> Seq<char>
    decreases n,
{
    if n < 10 {
        seq![digit_char(n as int)]
    } else {
        decimal(n / 10).push(digit_char((n % 10) as int))
    }
}

fn digit_text(d: usize) -> (r: &'static str)
    requires
        d < 10,
    ensures
        r@ == seq![digit_char(d as int)],
{
    proof {
        reveal_strlit("0");
        reveal_strlit("1");
        reveal_strlit("2");
        reveal_strlit("3");
        reveal_strlit("4");
        reveal_strlit("5");
        reveal_strlit("6");
        reveal_strlit("7");
        reveal_strlit("8");
        reveal_strlit("9");
    }
    let r = match d {
        0 => "0",
        1 => "1",
        2 => "2",
        3 => "3",
        4 => "4",
        5 => "5",
        6 => "6",
        7 => "7",
        8 => "8",
        _ => "9",
    };
    assert(r@ =~= seq![digit_char(d as int)]);
    r
}

/// The decimal text of `n`.
pub fn decimal_text(n: usize) -> (r: String)
    ensures
        r@ == decimal(n as nat),
    decreases n,
{
    if n < 10 {
        digit_text(n).to_owned()
    } else {
        let mut s = decimal_text(n / 10);
        s.append(digit_text(n % 10));
        s
    }
}

/// A directed, labelled connection between two distinct places, with a positive
/// distance.
#[derive(Clone, Debug)]
pub struct Route {
    src: String,
    dst: String,
    delta: usize,
}

impl View for Route {
    type V = (Seq<char>, Seq<char>, usize);

    /// Source label, destination label, distance.
    closed spec fn view(&self) -> (Seq<char>, Seq<char>, usize) {
        (self.src@, self.dst@, self.delta)
    }
}

impl Route {
    /// A route from `src` to `dst`. Refused with `ROUTE_TO_ITSELF` where the labels are
    /// the same, then with `ZERO_DISTANCE` where `delta` is zero.
    pub fn new<'a>(src: String, dst: String, delta: usize) -> (r: Result<Route, &'a str>)
        ensures
            src@ == dst@ ==> refused_with(r, ROUTE_TO_ITSELF),
            src@ != dst@ && delta == 0 ==> refused_with(r, ZERO_DISTANCE),
            src@ != dst@ && delta > 0 ==> (r matches Ok(route) && route@ == (src@, dst@, delta)),
    {
        if src == dst {
            return Err(ROUTE_TO_ITSELF);
        }
        if delta == 0 {
            return Err(ZERO_DISTANCE);
        }
        Ok(Route { src, dst, delta })
    }

    /// A route from a `(source, destination, distance)` tuple, refused as `new` refuses.
    pub fn from_tuple<'a>(route_tuple: &(String, String, usize)) -> (r: Result<Route, &'a str>)
        ensures
            route_tuple.0@ == route_tuple.1@ ==> refused_with(r, ROUTE_TO_ITSELF),
            route_tuple.0@ != route_tuple.1@ && route_tuple.2 == 0 ==> refused_with(
                r,
                ZERO_DISTANCE,
            ),
            route_tuple.0@ != route_tuple.1@ && route_tuple.2 > 0 ==> (r matches Ok(route)
                && route@ == (route_tuple.0@, route_tuple.1@, route_tuple.2)),
    {
        Route::new(route_tuple.0.clone(), route_tuple.1.clone(), route_tuple.2)
    }

    /// The source and destination labels.
    pub fn endpoints(&self) -> (r: (String, String))
        ensures
            r.0@ == self@.0,
            r.1@ == self@.1,
    {
        (self.src.clone(), self.dst.clone())
    }

    pub fn source(&self) -> (r: String)
        ensures
            r@ == self@.0,
    {
        self.src.clone()
    }

    pub fn destination(&self) -> (r: String)
        ensures
            r@ == self@.1,
    {
        self.dst.clone()
    }

    pub fn distance(&self) -> (r: usize)
        ensures
            r == self@.2,
    {
        self.delta
    }

    pub fn source_str(&self) -> (r: &str)
        ensures
            r@ == self@.0,
    {
        self.src.as_str()
    }

    pub fn destination_str(&self) -> (r: &str)
        ensures
            r@ == self@.1,
    {
        self.dst.as_str()
    }

    /// `Route to <source> from <destination>, costing <distance>`.
    pub fn message(&self) -> (r: String)
        ensures
            r@ == "Route to "@ + self@.0 + " from "@ + self@.1 + ", costing "@ + decimal(
                self@.2 as nat,
            ),
    {
        let mut s = "Route to ".to_owned();
        s.append(self.src.as_str());
        s.append(" from ");
        s.append(self.dst.as_str());
        s.append(", costing ");
        let number = decimal_text(self.delta);
        s.append(number.as_str());
        s
    }
}

/// Two routes are the same route where they join the same two labels in the same
/// direction, whatever their distances.
impl PartialEq for Route {
    fn eq(&self, other: &Route) -> (r: bool) {
        self.src == other.src && self.dst == other.dst
    }
}

impl vstd::std_specs::cmp::PartialEqSpecImpl for Route {
    open spec fn obeys_eq_spec() -> bool {
        true
    }

    open spec fn eq_spec(&self, other: &Route) -> bool {
        self@.0 == other@.0 && self@.1 == other@.1
    }
}

} // verus!
