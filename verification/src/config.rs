//! The bridge's settings.
use vstd::prelude::*;

verus! {

broadcast use vstd::string::group_string_axioms;

/// A route: the MQTT topic that a kind of telemetry goes to, and the labels of its values.
pub open spec fn route_view(route: (String, Vec<String>)) -> (Seq<char>, Seq<Seq<char>>) {
    (route.0@, string_views(route.1@))
}

/// The settings of the bridge: which brain to connect to, its code, and where telemetry goes.
///
/// Telemetry whose first value is `i` goes to the topic of `routes[i]`; its other values are
/// labelled, in order, by that route's labels.
#[derive(Debug, Clone)]
pub struct Config {
    pub brain_name: String,
    pub brain_code: String,
    pub routes: Vec<(String, Vec<String>)>,
}

impl Config {
    /// The routes, topic and labels taken as text.
    pub open spec fn routes_view(self) -> Seq<(Seq<char>, Seq<Seq<char>>)> {
        self.routes@.map_values(|route: (String, Vec<String>)| route_view(route))
    }
}

/// The routes of the default settings.
pub open spec fn default_routes() -> Seq<(Seq<char>, Seq<Seq<char>>)> {
    seq![
        ("pid/linear"@, seq!["P"@, "I"@, "D"@]),
        ("pid/angular"@, seq!["P"@, "I"@, "D"@]),
        ("joysticks/x"@, seq!["Left"@, "Right"@]),
        ("joysticks/y"@, seq!["Left"@, "Right"@]),
    ]
}

/// The text of each string.
pub open spec fn string_views(v: Seq<String>) -> Seq<Seq<char>> {
    v.map_values(|s: String| s@)
}

/// The text of each string slice.
pub open spec fn str_views(v: Seq<&str>) -> Seq<Seq<char>> {
    v.map_values(|s: &str| s@)
}

fn labels(names: Vec<&str>) -> (r: Vec<String>)
    ensures
        string_views(r@) == str_views(names@),
{
    let mut r: Vec<String> = Vec::new();
    let mut i: usize = 0;
    while i < names.len()
        invariant
            i <= names@.len(),
            r@.len() == i,
            forall|k: int| 0 <= k < i ==> r@[k]@ == names@[k]@,
        decreases names.len() - i,
    {
        r.push(names[i].to_string());
        i += 1;
    }
    assert(string_views(r@) =~= str_views(names@));
    r
}

impl Default for Config {
    fn default() -> (c: Self)
        ensures
            c.brain_name@ == "VEX_V5"@,
            c.brain_code@ == "0000"@,
            c.routes_view() == default_routes(),
    {
        let ghost pid = seq!["P"@, "I"@, "D"@];
        let ghost sides = seq!["Left"@, "Right"@];
        let names = vec!["P", "I", "D"];
        assert(str_views(names@) =~= pid);
        let linear = ("pid/linear".to_string(), labels(names));
        let names = vec!["P", "I", "D"];
        assert(str_views(names@) =~= pid);
        let angular = ("pid/angular".to_string(), labels(names));
        let names = vec!["Left", "Right"];
        assert(str_views(names@) =~= sides);
        let x = ("joysticks/x".to_string(), labels(names));
        let names = vec!["Left", "Right"];
        assert(str_views(names@) =~= sides);
        let y = ("joysticks/y".to_string(), labels(names));
        let mut routes: Vec<(String, Vec<String>)> = Vec::new();
        routes.push(linear);
        routes.push(angular);
        routes.push(x);
        routes.push(y);
        let c = Config {
            brain_name: "VEX_V5".to_string(),
            brain_code: "0000".to_string(),
            routes,
        };
        assert(c.routes_view() =~= default_routes());
        c
    }
}

} // verus!
