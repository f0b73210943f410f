use fluxfang::lexical::bytes_le_exec;
use fluxfang::timestamp::Timestamp;

#[test]
fn byte_order_matches_string_order() {
    let words = ["", "a", "ab", "b", "B", "é", "e\u{301}", "zz", "\u{10348}"];
    for x in words {
        for y in words {
            assert_eq!(bytes_le_exec(x.as_bytes(), y.as_bytes()), x <= y, "{x:?} vs {y:?}");
        }
    }
}

#[test]
fn timestamps_order_by_seconds_then_nanos() {
    let a = Timestamp { secs: 5, nanos: 999 };
    let b = Timestamp { secs: 6, nanos: 0 };
    let c = Timestamp { secs: 6, nanos: 1_500_000_000 };
    assert!(a.at_or_before(&b));
    assert!(!b.at_or_before(&a));
    assert!(b.at_or_before(&c));
    assert!(a.at_or_before(&a));
    assert!(Timestamp { secs: -3, nanos: 0 }.at_or_before(&a));
}
