use vstd::prelude::*;

verus! {

/// One increment of a named counter, with its labels.
#[derive(Debug, Clone, PartialEq, Eq)]
pub struct CounterUpdate {
    pub name: String,
    pub value: u64,
    pub labels: Vec<(String, String)>,
}

/// Events read from a MongoDB server by the metrics source.
#[derive(Debug, Clone, PartialEq, Eq)]
pub struct MongoDbMetricsEventsReceived {
    pub count: usize,
    pub byte_size: usize,
    pub uri: String,
}

/// A request to a MongoDB server failed; `error` is the error's text.
#[derive(Debug, Clone, PartialEq, Eq)]
pub struct MongoDbMetricsRequestError {
    pub error: String,
    pub endpoint: String,
}

/// A BSON document from a MongoDB server could not be parsed; `error` is the
/// error's text.
#[derive(Debug, Clone, PartialEq, Eq)]
pub struct MongoDbMetricsBsonParseError {
    pub error: String,
    pub endpoint: String,
}

/// The update has the given name, value and labels.
pub open spec fn update_is(
    u: CounterUpdate,
    name: Seq<char>,
    value: nat,
    labels: Seq<(Seq<char>, Seq<char>)>,
) -> bool {
    &&& u.name@ == name
    &&& u.value == value
    &&& u.labels@.len() == labels.len()
    &&& forall|i: int|
        0 <= i < labels.len() ==> u.labels@[i].0@ == labels[i].0 && u.labels@[i].1@ == labels[i].1
}

fn label(key: &str, value: &str) -> (r: (String, String))
    ensures
        r.0@ == key@,
        r.1@ == value@,
{
    (key.to_owned(), value.to_owned())
}

impl MongoDbMetricsEventsReceived {
    /// The counters that this event increments: events and bytes received,
    /// and the older events-in total, each labelled with the URI.
    pub fn metric_updates(&self) -> (r: Vec<CounterUpdate>)
        ensures
            r@.len() == 3,
            update_is(r@[0], "component_received_events_total"@, self.count as nat, seq![("uri"@, self.uri@)]),
            update_is(r@[1], "component_received_event_bytes_total"@, self.byte_size as nat, seq![("uri"@, self.uri@)]),
            update_is(r@[2], "events_in_total"@, self.count as nat, seq![("uri"@, self.uri@)]),
    {
        let mut r: Vec<CounterUpdate> = Vec::new();
        r.push(CounterUpdate {
            name: "component_received_events_total".to_owned(),
            value: self.count as u64,
            labels: vec![label("uri", self.uri.as_str())],
        });
        r.push(CounterUpdate {
            name: "component_received_event_bytes_total".to_owned(),
            value: self.byte_size as u64,
            labels: vec![label("uri", self.uri.as_str())],
        });
        r.push(CounterUpdate {
            name: "events_in_total".to_owned(),
            value: self.count as u64,
            labels: vec![label("uri", self.uri.as_str())],
        });
        r
    }
}

impl MongoDbMetricsRequestError {
    /// The counters that this event increments: the component error total,
    /// labelled with the error, its type and stage, and the older request
    /// error total.
    pub fn metric_updates(&self) -> (r: Vec<CounterUpdate>)
        ensures
            r@.len() == 2,
            update_is(
                r@[0],
                "component_errors_total"@,
                1,
                seq![("error"@, self.error@), ("error_type"@, "request_failed"@), ("stage"@, "receiving"@)],
            ),
            update_is(r@[1], "request_errors_total"@, 1, seq![]),
    {
        let mut r: Vec<CounterUpdate> = Vec::new();
        r.push(CounterUpdate {
            name: "component_errors_total".to_owned(),
            value: 1,
            labels: vec![
                label("error", self.error.as_str()),
                label("error_type", "request_failed"),
                label("stage", "receiving"),
            ],
        });
        r.push(CounterUpdate { name: "request_errors_total".to_owned(), value: 1, labels: Vec::new() });
        r
    }
}

impl MongoDbMetricsBsonParseError {
    /// The counters that this event increments: the component error total,
    /// labelled with the error, its type, stage and endpoint, and the older
    /// parse error total.
    pub fn metric_updates(&self) -> (r: Vec<CounterUpdate>)
        ensures
            r@.len() == 2,
            update_is(
                r@[0],
                "component_errors_total"@,
                1,
                seq![
                    ("error"@, self.error@),
                    ("error_type"@, "parser_failed"@),
                    ("stage"@, "receiving"@),
                    ("endpoint"@, self.endpoint@),
                ],
            ),
            update_is(r@[1], "parse_errors_total"@, 1, seq![]),
    {
        let mut r: Vec<CounterUpdate> = Vec::new();
        r.push(CounterUpdate {
            name: "component_errors_total".to_owned(),
            value: 1,
            labels: vec![
                label("error", self.error.as_str()),
                label("error_type", "parser_failed"),
                label("stage", "receiving"),
                label("endpoint", self.endpoint.as_str()),
            ],
        });
        r.push(CounterUpdate { name: "parse_errors_total".to_owned(), value: 1, labels: Vec::new() });
        r
    }
}

} // verus!
