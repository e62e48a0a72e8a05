use schema_visitors::events::{
    MongoDbMetricsBsonParseError, MongoDbMetricsEventsReceived, MongoDbMetricsRequestError,
};

fn labels(v: &[(&str, &str)]) -> Vec<(String, String)> {
    v.iter().map(|(k, x)| (k.to_string(), x.to_string())).collect()
}

#[test]
fn events_received_updates() {
    let e = MongoDbMetricsEventsReceived { count: 5, byte_size: 1024, uri: "mongodb://localhost:27017".to_string() };
    let u = e.metric_updates();
    assert_eq!(u.len(), 3);
    assert_eq!(u[0].name, "component_received_events_total");
    assert_eq!(u[0].value, 5);
    assert_eq!(u[0].labels, labels(&[("uri", "mongodb://localhost:27017")]));
    assert_eq!(u[1].name, "component_received_event_bytes_total");
    assert_eq!(u[1].value, 1024);
    assert_eq!(u[2].name, "events_in_total");
    assert_eq!(u[2].value, 5);
}

#[test]
fn request_error_updates() {
    let e = MongoDbMetricsRequestError { error: "timed out".to_string(), endpoint: "db:27017".to_string() };
    let u = e.metric_updates();
    assert_eq!(u.len(), 2);
    assert_eq!(u[0].name, "component_errors_total");
    assert_eq!(u[0].value, 1);
    assert_eq!(
        u[0].labels,
        labels(&[("error", "timed out"), ("error_type", "request_failed"), ("stage", "receiving")])
    );
    assert_eq!(u[1].name, "request_errors_total");
    assert!(u[1].labels.is_empty());
}

#[test]
fn bson_parse_error_updates() {
    let e = MongoDbMetricsBsonParseError { error: "bad document".to_string(), endpoint: "db:27017".to_string() };
    let u = e.metric_updates();
    assert_eq!(u.len(), 2);
    assert_eq!(
        u[0].labels,
        labels(&[
            ("error", "bad document"),
            ("error_type", "parser_failed"),
            ("stage", "receiving"),
            ("endpoint", "db:27017"),
        ])
    );
    assert_eq!(u[1].name, "parse_errors_total");
    assert_eq!(u[1].value, 1);
}
