//! Where a telemetry frame is published.
use vstd::prelude::*;
use crate::config::Config;

verus! {

broadcast use vstd::string::group_string_axioms;

/// Failures while forwarding telemetry.
#[derive(Debug, Clone, Copy, PartialEq, Eq, Structural)]
pub enum DispatchError {
    DecodeError,
}

impl DispatchError {
    /// The text that describes the failure.
    pub fn message(&self) -> (r: String)
        ensures
            r@ == "Couldn't decode"@,
    {
        "Couldn't decode".to_string()
    }
}

/// How often the broker is to deliver a message.
#[derive(Debug, Clone, Copy, PartialEq, Eq, Structural)]
pub enum Delivery {
    AtMostOnce,
    AtLeastOnce,
    ExactlyOnce,
}

/// A message to publish: the values of a telemetry frame, labelled, on the topic of its route.
#[derive(Debug)]
pub struct Publication {
    /// The topic to publish on.
    pub topic: String,
    /// Each label, and the index among the frame's values of the value it names.
    pub fields: Vec<(String, usize)>,
    /// How often the broker delivers it.
    pub delivery: Delivery,
    /// Whether the broker keeps it for later subscribers.
    pub retain: bool,
}

/// What to publish for a frame of `value_count` values whose first value selects `route`:
/// the route's topic, and its labels, the `i`-th of which names the value at index `i + 1`.
/// It is delivered at least once and retained.
pub fn publication(config: &Config, route: usize, value_count: usize) -> (p: Publication)
    requires
        route < config.routes@.len(),
        config.routes@[route as int].1@.len() < value_count,
    ensures
        p.topic@ == config.routes@[route as int].0@,
        p.fields@.len() == config.routes@[route as int].1@.len(),
        forall|i: int|
            0 <= i < p.fields@.len() ==> p.fields@[i].0@ == config.routes@[route as int].1@[i]@
                && p.fields@[i].1 == i + 1,
        p.delivery == Delivery::AtLeastOnce,
        p.retain,
{
    let (topic, labels) = &config.routes[route];
    let mut fields: Vec<(String, usize)> = Vec::new();
    let mut i: usize = 0;
    while i < labels.len()
        invariant
            labels@ == config.routes@[route as int].1@,
            labels@.len() < value_count,
            i <= labels@.len(),
            fields@.len() == i,
            forall|k: int| 0 <= k < i ==> fields@[k].0@ == labels@[k]@ && fields@[k].1 == k + 1,
        decreases labels.len() - i,
    {
        fields.push((labels[i].clone(), i + 1));
        i += 1;
    }
    Publication { topic: topic.clone(), fields, delivery: Delivery::AtLeastOnce, retain: true }
}

} // verus!
