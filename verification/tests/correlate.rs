use fluxfang::correlate::{model_of, same_model_pairs, witness_frame, CoEventPoint, Emitter, JsonValue};
use fluxfang::timestamp::Timestamp;

fn obj(entries: Vec<(&str, JsonValue)>) -> JsonValue {
    JsonValue::Object(entries.into_iter().map(|(k, v)| (k.to_string(), v)).collect())
}

fn with_model(id: u128, model: Option<&str>) -> Emitter {
    let attributes = match model {
        Some(m) => obj(vec![("vendor", JsonValue::Str("acme".into())), ("model", JsonValue::Str(m.into()))]),
        None => obj(vec![("vendor", JsonValue::Str("acme".into()))]),
    };
    Emitter { id, attributes }
}

#[test]
fn model_of_reads_string_model_attribute() {
    let e = with_model(1, Some("TRW-433"));
    assert_eq!(model_of(&e).as_deref(), Some("TRW-433"));
}

#[test]
fn model_of_ignores_missing_or_non_string_model() {
    assert_eq!(model_of(&with_model(1, None)), None);
    let numeric = Emitter { id: 2, attributes: obj(vec![("model", JsonValue::Number("42".into()))]) };
    assert_eq!(model_of(&numeric), None);
    let not_object = Emitter { id: 3, attributes: JsonValue::Str("model".into()) };
    assert_eq!(model_of(&not_object), None);
    let null = Emitter { id: 4, attributes: JsonValue::Null };
    assert_eq!(model_of(&null), None);
    let nested = Emitter {
        id: 5,
        attributes: obj(vec![("meta", obj(vec![("model", JsonValue::Str("x".into()))]))]),
    };
    assert_eq!(model_of(&nested), None);
}

#[test]
fn same_model_pairs_lists_matching_pairs_in_order() {
    let es = vec![
        with_model(0, Some("A")),
        with_model(1, Some("B")),
        with_model(2, Some("A")),
        with_model(3, None),
        with_model(4, Some("A")),
        with_model(5, None),
        with_model(6, Some("B")),
    ];
    let pairs = same_model_pairs(&es);
    assert_eq!(pairs, vec![(0, 2), (0, 4), (1, 6), (2, 4)]);
}

#[test]
fn same_model_pairs_never_pairs_unknown_models() {
    let es = vec![with_model(0, None), with_model(1, None)];
    assert!(same_model_pairs(&es).is_empty());
    assert!(same_model_pairs(&vec![]).is_empty());
}

fn ev(secs: i64, nanos: u32, located: bool) -> CoEventPoint {
    CoEventPoint { at: Timestamp { secs, nanos }, located }
}

#[test]
fn witness_frame_counts_locates_and_spans() {
    let events = vec![ev(50, 0, true), ev(10, 5, false), ev(90, 1, true), ev(10, 4, true), ev(90, 0, false)];
    let f = witness_frame(&events);
    assert_eq!(f.event_count, 5);
    assert_eq!(f.located, vec![0, 2, 3]);
    assert_eq!(f.window, Some((Timestamp { secs: 10, nanos: 4 }, Timestamp { secs: 90, nanos: 1 })));
    assert_eq!(f.sample_len, 5);
}

#[test]
fn witness_frame_inlines_at_most_fifty_events() {
    let events: Vec<CoEventPoint> = (0..120).map(|i| ev(i, 0, i % 2 == 0)).collect();
    let f = witness_frame(&events);
    assert_eq!(f.event_count, 120);
    assert_eq!(f.sample_len, 50);
    assert_eq!(f.located.len(), 60);
}

#[test]
fn witness_frame_of_no_events_has_no_window() {
    let f = witness_frame(&vec![]);
    assert_eq!(f.event_count, 0);
    assert!(f.located.is_empty());
    assert_eq!(f.window, None);
    assert_eq!(f.sample_len, 0);
}
