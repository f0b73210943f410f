use chrono::Utc;
use fluxfang::rf_diff::{diff_windows, try_diff_windows, window_deltas_fit, RfEmitter, WindowEmitter};
use fluxfang::timestamp::Timestamp;
use uuid::Uuid;

fn now() -> Timestamp {
    let now = Utc::now();
    Timestamp { secs: now.timestamp(), nanos: now.timestamp_subsec_nanos() }
}

fn we(name: &str, count: i64) -> WindowEmitter {
    let now = now();
    WindowEmitter {
        emitter_id: Uuid::new_v4().as_u128(),
        name: name.into(),
        emitter_type: None,
        emission_count: count,
        first_seen: now,
        last_seen: now,
        min_dbm: None,
        max_dbm: None,
        avg_dbm: None,
    }
}

fn with_id(id: u128, name: &str, count: i64) -> WindowEmitter {
    let mut w = we(name, count);
    w.emitter_id = id;
    w
}

#[test]
fn diff_partitions_appeared_disappeared_persistent() {
    let stays = we("stays", 3);
    let mut stays_later = stays.clone();
    stays_later.emission_count = 7; // +4 delta

    let gone = we("gone", 2); // baseline only
    let new = we("new", 5); // compare only

    let baseline = vec![stays.clone(), gone.clone()];
    let compare = vec![stays_later.clone(), new.clone()];

    let d = diff_windows(baseline, compare);

    assert_eq!(d.appeared.len(), 1);
    assert_eq!(d.appeared[0].emitter_id, new.emitter_id);

    assert_eq!(d.disappeared.len(), 1);
    assert_eq!(d.disappeared[0].emitter_id, gone.emitter_id);

    assert_eq!(d.persistent.len(), 1);
    assert_eq!(d.persistent[0].emitter_id, stays.emitter_id);
    assert_eq!(d.persistent[0].count_delta, 4);
}

#[test]
fn empty_windows_diff_to_nothing() {
    let d = diff_windows(vec![], vec![]);
    assert!(d.appeared.is_empty() && d.disappeared.is_empty() && d.persistent.is_empty());
}

#[test]
fn each_list_comes_out_in_name_order() {
    let baseline = vec![we("zulu", 1), we("alpha", 1), we("Mike", 1), we("mike", 1)];
    let compare = vec![we("delta", 1), we("Bravo", 1), we("charlie", 1)];
    let d = diff_windows(baseline, compare);
    let gone: Vec<&str> = d.disappeared.iter().map(|e| e.name.as_str()).collect();
    let new: Vec<&str> = d.appeared.iter().map(|e| e.name.as_str()).collect();
    assert_eq!(gone, vec!["Mike", "alpha", "mike", "zulu"]);
    assert_eq!(new, vec!["Bravo", "charlie", "delta"]);
}

#[test]
fn persistent_takes_name_and_type_from_compare_window() {
    let mut base = with_id(9, "old-name", 10);
    base.emitter_type = Some("wifi".into());
    base.avg_dbm = Some((-70.5f64).to_bits());
    let mut later = with_id(9, "new-name", 4);
    later.emitter_type = Some("ble".into());
    later.avg_dbm = Some((-60.25f64).to_bits());
    let d = diff_windows(vec![base], vec![later]);
    assert_eq!(d.persistent.len(), 1);
    let p = &d.persistent[0];
    assert_eq!(p.name, "new-name");
    assert_eq!(p.emitter_type.as_deref(), Some("ble"));
    assert_eq!(p.baseline_count, 10);
    assert_eq!(p.compare_count, 4);
    assert_eq!(p.count_delta, -6);
    assert_eq!(p.baseline_avg_dbm.map(f64::from_bits), Some(-70.5));
    assert_eq!(p.compare_avg_dbm.map(f64::from_bits), Some(-60.25));
}

#[test]
fn repeated_id_counts_its_last_entry() {
    let baseline = vec![with_id(1, "first", 1), with_id(1, "second", 2)];
    let compare = vec![with_id(2, "x", 1), with_id(2, "y", 8)];
    let d = diff_windows(baseline, compare);
    assert_eq!(d.disappeared.len(), 1);
    assert_eq!(d.disappeared[0].name, "second");
    assert_eq!(d.disappeared[0].emission_count, 2);
    assert_eq!(d.appeared.len(), 1);
    assert_eq!(d.appeared[0].name, "y");
    assert_eq!(d.appeared[0].emission_count, 8);
    assert!(d.persistent.is_empty());
}

#[test]
fn reversed_diff_swaps_lists_and_negates_deltas() {
    let baseline = vec![with_id(1, "a", 3), with_id(2, "b", 5)];
    let compare = vec![with_id(2, "b", 9), with_id(3, "c", 1)];
    let fwd = diff_windows(baseline.clone(), compare.clone());
    let back = diff_windows(compare, baseline);
    assert_eq!(fwd.appeared, back.disappeared);
    assert_eq!(fwd.disappeared, back.appeared);
    assert_eq!(fwd.persistent.len(), 1);
    assert_eq!(back.persistent.len(), 1);
    assert_eq!(fwd.persistent[0].count_delta, 4);
    assert_eq!(back.persistent[0].count_delta, -4);
    assert_eq!(fwd.persistent[0].baseline_count, back.persistent[0].compare_count);
}

#[test]
fn window_against_itself_only_persists() {
    let w = vec![with_id(1, "a", 3), with_id(2, "b", 5), with_id(3, "c", 0)];
    let d = diff_windows(w.clone(), w);
    assert!(d.appeared.is_empty());
    assert!(d.disappeared.is_empty());
    assert_eq!(d.persistent.len(), 3);
    assert!(d.persistent.iter().all(|p| p.count_delta == 0));
}

#[test]
fn delta_that_overflows_is_refused() {
    let baseline = vec![with_id(1, "a", i64::MIN)];
    let compare = vec![with_id(1, "a", 1)];
    assert!(!window_deltas_fit(&baseline, &compare));
    assert!(try_diff_windows(baseline, compare).is_none());

    let baseline = vec![with_id(1, "a", -1)];
    let compare = vec![with_id(1, "a", i64::MAX)];
    assert!(!window_deltas_fit(&baseline, &compare));

    let baseline = vec![with_id(1, "a", 0)];
    let compare = vec![with_id(1, "a", i64::MAX)];
    assert!(window_deltas_fit(&baseline, &compare));
    let d = try_diff_windows(baseline, compare).unwrap();
    assert_eq!(d.persistent[0].count_delta, i64::MAX);
}

#[test]
fn overflow_only_matters_for_emitters_in_both_windows() {
    let baseline = vec![with_id(1, "a", i64::MIN), with_id(1, "a", 0)];
    let compare = vec![with_id(1, "a", i64::MAX), with_id(2, "b", i64::MIN)];
    assert!(window_deltas_fit(&baseline, &compare));
    let d = try_diff_windows(baseline, compare).unwrap();
    assert_eq!(d.persistent[0].count_delta, i64::MAX);
}

#[test]
fn from_window_emitter_keeps_fields() {
    let mut w = with_id(7, "tpms-1", 12);
    w.emitter_type = Some("tpms_sensor".into());
    w.first_seen = Timestamp { secs: 100, nanos: 5 };
    w.last_seen = Timestamp { secs: 200, nanos: 6 };
    let r: RfEmitter = w.into();
    assert_eq!(r.emitter_id, 7);
    assert_eq!(r.name, "tpms-1");
    assert_eq!(r.emitter_type.as_deref(), Some("tpms_sensor"));
    assert_eq!(r.emission_count, 12);
    assert_eq!(r.first_seen, Timestamp { secs: 100, nanos: 5 });
    assert_eq!(r.last_seen, Timestamp { secs: 200, nanos: 6 });
}
