//! The decisions of the periodic TPMS correlation pass: which pairs of
//! candidate emitters share a model and are worth correlating, and the
//! bounded frame of the co-occurrence witness frozen when a link is added.

use vstd::prelude::*;

use crate::timestamp::{ts_le, Timestamp};

verus! {

/// A JSON value as an emitter's free-form attributes hold it. Numbers keep
/// their decimal text; an object keeps its entries in order.
pub enum JsonValue {
    Null,
    Bool(bool),
    Number(String),
    Str(String),
    Array(Vec<JsonValue>),
    Object(Vec<(String, JsonValue)>),
}

/// A candidate emitter of the correlation pass.
pub struct Emitter {
    pub id: u128,
    pub attributes: JsonValue,
}

/// The value of the first entry of `entries` named `key`.
pub open spec fn object_field(entries: Seq<(String, JsonValue)>, key: Seq<char>) -> Option<
    JsonValue,
>
    decreases entries.len(),
{
    if entries.len() == 0 {
        None
    } else if entries[0].0@ == key {
        Some(entries[0].1)
    } else {
        object_field(entries.drop_first(), key)
    }
}

/// The member `key` of `v`, when `v` is an object that has one.
pub open spec fn json_get(v: JsonValue, key: Seq<char>) -> Option<JsonValue> {
    match v {
        JsonValue::Object(entries) => object_field(entries@, key),
        _ => None,
    }
}

/// The text of `v`, when `v` is a string.
pub open spec fn json_as_str(v: JsonValue) -> Option<Seq<char>> {
    match v {
        JsonValue::Str(s) => Some(s@),
        _ => None,
    }
}

/// The attribute name that carries an emitter's model.
pub open spec fn model_key() -> Seq<char> {
    seq!['m', 'o', 'd', 'e', 'l']
}

/// The emitter's model: its `model` attribute, when that is a string.
pub open spec fn emitter_model(e: Emitter) -> Option<Seq<char>> {
    match json_get(e.attributes, model_key()) {
        Some(v) => json_as_str(v),
        None => None,
    }
}

/// The text of an optional string.
pub open spec fn opt_text(s: Option<String>) -> Option<Seq<char>> {
    match s {
        Some(t) => Some(t@),
        None => None,
    }
}

/// The model of an emitter, read from its `model` attribute when that is a string.
pub fn model_of(e: &Emitter) -> (r: Option<String>)
    ensures
        opt_text(r) == emitter_model(*e),
{
    match &e.attributes {
        JsonValue::Object(entries) => {
            let key: String = "model".to_owned();
            proof {
                reveal_strlit("model");
                assert(key@ =~= model_key());
                assert(entries@.skip(0) =~= entries@);
            }
            let mut k: usize = 0;
            while k < entries.len()
                invariant
                    k <= entries@.len(),
                    e.attributes == JsonValue::Object(*entries),
                    key@ == model_key(),
                    object_field(entries@, model_key()) == object_field(
                        entries@.skip(k as int),
                        model_key(),
                    ),
                decreases entries@.len() - k,
            {
                assert(entries@.skip(k as int)[0] == entries@[k as int]);
                if entries[k].0 == key {
                    assert(object_field(entries@.skip(k as int), model_key()) == Some(
                        entries@[k as int].1,
                    ));
                    let v = &entries[k].1;
                    assert(json_get(e.attributes, model_key()) == Some(*v));
                    return match v {
                        JsonValue::Str(s) => Some(s.clone()),
                        _ => None,
                    };
                }
                assert(entries@.skip(k as int).drop_first() =~= entries@.skip(k + 1));
                k = k + 1;
            }
            assert(entries@.skip(k as int).len() == 0);
            None
        },
        _ => None,
    }
}

proof fn lemma_object_field_first_match(entries: Seq<(String, JsonValue)>, key: Seq<char>, k: int)
    requires
        0 <= k < entries.len(),
        entries[k].0@ == key,
        forall|i: int| 0 <= i < k ==> (#[trigger] entries[i]).0@ != key,
    ensures
        object_field(entries, key) == Some(entries[k].1),
    decreases k,
{
    if k > 0 {
        let rest = entries.drop_first();
        assert forall|i: int| 0 <= i < k - 1 implies (#[trigger] rest[i]).0@ != key by {
            assert(rest[i] == entries[i + 1]);
        }
        assert(entries[0].0@ != key);
        lemma_object_field_first_match(rest, key, k - 1);
    }
}

proof fn lemma_object_field_absent(entries: Seq<(String, JsonValue)>, key: Seq<char>)
    requires
        forall|i: int| 0 <= i < entries.len() ==> (#[trigger] entries[i]).0@ != key,
    ensures
        object_field(entries, key) is None,
    decreases entries.len(),
{
    if entries.len() > 0 {
        let rest = entries.drop_first();
        assert forall|i: int| 0 <= i < rest.len() implies (#[trigger] rest[i]).0@ != key by {
            assert(rest[i] == entries[i + 1]);
        }
        assert(entries[0].0@ != key);
        lemma_object_field_absent(rest, key);
    }
}

/// An emitter's model is the text of the first attribute named `model`,
/// wherever that attribute stands among the others, provided it is a string.
pub proof fn lemma_model_is_model_member(e: Emitter, entries: Vec<(String, JsonValue)>, k: int)
    requires
        e.attributes == JsonValue::Object(entries),
        0 <= k < entries@.len(),
        entries@[k].0@ == seq!['m', 'o', 'd', 'e', 'l'],
        forall|i: int| 0 <= i < k ==> (#[trigger] entries@[i]).0@ != seq!['m', 'o', 'd', 'e', 'l'],
    ensures
        emitter_model(e) == match entries@[k].1 {
            JsonValue::Str(s) => Some(s@),
            _ => None::<Seq<char>>,
        },
{
    assert(model_key() =~= seq!['m', 'o', 'd', 'e', 'l']);
    lemma_object_field_first_match(entries@, model_key(), k);
}

/// An emitter whose attributes are not an object, or have no member named
/// `model`, has no model.
pub proof fn lemma_no_model_member_no_model(e: Emitter)
    requires
        match e.attributes {
            JsonValue::Object(entries) => forall|i: int|
                0 <= i < entries@.len() ==> (#[trigger] entries@[i]).0@ != seq![
                    'm',
                    'o',
                    'd',
                    'e',
                    'l',
                ],
            _ => true,
        },
    ensures
        emitter_model(e) is None,
{
    assert(model_key() =~= seq!['m', 'o', 'd', 'e', 'l']);
    match e.attributes {
        JsonValue::Object(entries) => {
            lemma_object_field_absent(entries@, model_key());
        },
        _ => {},
    }
}

/// Both emitters have a model, and it is the same one.
pub open spec fn same_model(models: Seq<Option<Seq<char>>>, i: int, j: int) -> bool {
    models[i] is Some && models[i] == models[j]
}

/// The models of a list of emitters, position by position.
pub open spec fn emitter_models(es: Seq<Emitter>) -> Seq<Option<Seq<char>>> {
    Seq::new(es.len(), |i: int| emitter_model(es[i]))
}

/// `p` comes before `q` in lexicographic order.
pub open spec fn pair_before(p: (usize, usize), q: (usize, usize)) -> bool {
    p.0 < q.0 || (p.0 == q.0 && p.1 < q.1)
}

fn same_some(a: &Option<String>, b: &Option<String>) -> (r: bool)
    ensures
        r == (opt_text(*a) is Some && opt_text(*a) == opt_text(*b)),
{
    match (a, b) {
        (Some(x), Some(y)) => *x == *y,
        _ => false,
    }
}

/// The pairs `(i, j)`, `i < j`, of candidates that share a model, in
/// lexicographic order: the pairs the correlation pass examines.
pub fn same_model_pairs(emitters: &Vec<Emitter>) -> (pairs: Vec<(usize, usize)>)
    ensures
        forall|k: int|
            0 <= k < pairs@.len() ==> (#[trigger] pairs@[k]).0 < pairs@[k].1 < emitters@.len()
                && same_model(emitter_models(emitters@), pairs@[k].0 as int, pairs@[k].1 as int),
        forall|k1: int, k2: int|
            0 <= k1 < k2 < pairs@.len() ==> pair_before(#[trigger] pairs@[k1], #[trigger] pairs@[k2]),
        forall|i: int, j: int|
            0 <= i < j < emitters@.len() && #[trigger] same_model(emitter_models(emitters@), i, j)
                ==> pairs@.contains((i as usize, j as usize)),
{
    let n = emitters.len();
    let ghost ms = emitter_models(emitters@);
    let mut models: Vec<Option<String>> = Vec::new();
    let mut m: usize = 0;
    while m < n
        invariant
            n == emitters@.len(),
            ms == emitter_models(emitters@),
            m <= n,
            models@.len() == m,
            forall|k: int| 0 <= k < m ==> opt_text(#[trigger] models@[k]) == ms[k],
        decreases n - m,
    {
        models.push(model_of(&emitters[m]));
        m = m + 1;
    }

    let mut pairs: Vec<(usize, usize)> = Vec::new();
    let mut i: usize = 0;
    while i < n
        invariant
            n == emitters@.len(),
            ms == emitter_models(emitters@),
            i <= n,
            models@.len() == n,
            forall|k: int| 0 <= k < n ==> opt_text(#[trigger] models@[k]) == ms[k],
            forall|k: int|
                0 <= k < pairs@.len() ==> (#[trigger] pairs@[k]).0 < pairs@[k].1 < n
                    && pairs@[k].0 < i && same_model(ms, pairs@[k].0 as int, pairs@[k].1 as int),
            forall|k1: int, k2: int|
                0 <= k1 < k2 < pairs@.len() ==> pair_before(
                    #[trigger] pairs@[k1],
                    #[trigger] pairs@[k2],
                ),
            forall|a: int, b: int|
                0 <= a < b < n && a < i && #[trigger] same_model(ms, a, b) ==> pairs@.contains(
                    (a as usize, b as usize),
                ),
        decreases n - i,
    {
        let mut j: usize = i + 1;
        while j < n
            invariant
                n == emitters@.len(),
                ms == emitter_models(emitters@),
                i < n,
                i + 1 <= j <= n,
                models@.len() == n,
                forall|k: int| 0 <= k < n ==> opt_text(#[trigger] models@[k]) == ms[k],
                forall|k: int|
                    0 <= k < pairs@.len() ==> (#[trigger] pairs@[k]).0 < pairs@[k].1 < n
                        && pair_before(pairs@[k], (i, j)) && same_model(
                        ms,
                        pairs@[k].0 as int,
                        pairs@[k].1 as int,
                    ),
                forall|k1: int, k2: int|
                    0 <= k1 < k2 < pairs@.len() ==> pair_before(
                        #[trigger] pairs@[k1],
                        #[trigger] pairs@[k2],
                    ),
                forall|a: int, b: int|
                    0 <= a < b < n && (a < i || (a == i && b < j)) && #[trigger] same_model(
                        ms,
                        a,
                        b,
                    ) ==> pairs@.contains((a as usize, b as usize)),
            decreases n - j,
        {
            let ghost before = pairs@;
            if same_some(&models[i], &models[j]) {
                pairs.push((i, j));
                assert(pairs@[pairs@.len() - 1] == (i, j));
                assert forall|a: int, b: int|
                    0 <= a < b < n && (a < i || (a == i && b < j + 1)) && #[trigger] same_model(
                        ms,
                        a,
                        b,
                    ) implies pairs@.contains((a as usize, b as usize)) by {
                    if a == i && b == j {
                        assert(pairs@[pairs@.len() - 1] == (a as usize, b as usize));
                    } else {
                        let k = choose|k: int|
                            0 <= k < before.len() && before[k] == (a as usize, b as usize);
                        assert(pairs@[k] == before[k]);
                    }
                }
            } else {
                assert forall|a: int, b: int|
                    0 <= a < b < n && (a < i || (a == i && b < j + 1)) && #[trigger] same_model(
                        ms,
                        a,
                        b,
                    ) implies pairs@.contains((a as usize, b as usize)) by {
                    if a == i && b == j {
                        assert(opt_text(models@[a]) == ms[a]);
                        assert(opt_text(models@[b]) == ms[b]);
                    }
                }
            }
            j = j + 1;
        }
        i = i + 1;
    }
    pairs
}

/// The pairs examined are exactly those whose two emitters both have a model,
/// the same one, listed first by the first emitter and then by the second.
pub proof fn lemma_pairs_share_a_known_model(es: Seq<Emitter>, i: int, j: int, p: (usize, usize), q: (usize, usize))
    requires
        0 <= i < es.len(),
        0 <= j < es.len(),
    ensures
        same_model(emitter_models(es), i, j) <==> (emitter_model(es[i]) is Some && emitter_model(
            es[i],
        ) == emitter_model(es[j])),
        pair_before(p, q) <==> (p.0 < q.0 || (p.0 == q.0 && p.1 < q.1)),
{
}

/// How many co-occurrence events a witness inlines at most.
pub const WITNESS_SAMPLE_LIMIT: usize = 50;

/// A co-occurrence event as the witness frame reads it: when it happened,
/// and whether both emitters' readings carried a position.
#[derive(Debug, Clone, Copy, PartialEq)]
pub struct CoEventPoint {
    pub at: Timestamp,
    pub located: bool,
}

/// The bounded frame of a co-occurrence witness.
#[derive(Debug, Clone, PartialEq)]
pub struct WitnessFrame {
    /// Number of events behind the decision.
    pub event_count: usize,
    /// Positions of the located events, in order.
    pub located: Vec<usize>,
    /// Earliest and latest event time, if there is any event.
    pub window: Option<(Timestamp, Timestamp)>,
    /// How many leading events the witness inlines.
    pub sample_len: usize,
}

/// `t` is the time of some event and no event is earlier.
pub open spec fn is_earliest(events: Seq<CoEventPoint>, t: Timestamp) -> bool {
    &&& exists|k: int| 0 <= k < events.len() && #[trigger] events[k].at == t
    &&& forall|k: int| 0 <= k < events.len() ==> ts_le(t, #[trigger] events[k].at)
}

/// `t` is the time of some event and no event is later.
pub open spec fn is_latest(events: Seq<CoEventPoint>, t: Timestamp) -> bool {
    &&& exists|k: int| 0 <= k < events.len() && #[trigger] events[k].at == t
    &&& forall|k: int| 0 <= k < events.len() ==> ts_le(#[trigger] events[k].at, t)
}

/// `located` lists, in increasing order, exactly the positions of the located events.
pub open spec fn lists_located(events: Seq<CoEventPoint>, located: Seq<usize>) -> bool {
    &&& forall|k: int|
        0 <= k < located.len() ==> #[trigger] located[k] < events.len()
            && events[located[k] as int].located
    &&& forall|k1: int, k2: int|
        0 <= k1 < k2 < located.len() ==> #[trigger] located[k1] < #[trigger] located[k2]
    &&& forall|i: int|
        0 <= i < events.len() && #[trigger] events[i].located ==> located.contains(i as usize)
}

/// The window of a witness frame spans the events: its start is the time of
/// an event at or before every event, its end the time of an event at or
/// after every event (seconds first, then nanoseconds), and start <= end.
pub proof fn lemma_window_spans_events(events: Seq<CoEventPoint>, lo: Timestamp, hi: Timestamp)
    requires
        is_earliest(events, lo),
        is_latest(events, hi),
    ensures
        exists|k: int| 0 <= k < events.len() && #[trigger] events[k].at == lo,
        exists|k: int| 0 <= k < events.len() && #[trigger] events[k].at == hi,
        forall|k: int|
            0 <= k < events.len() ==> lo.secs < (#[trigger] events[k]).at.secs || (lo.secs
                == events[k].at.secs && lo.nanos <= events[k].at.nanos),
        forall|k: int|
            0 <= k < events.len() ==> (#[trigger] events[k]).at.secs < hi.secs || (hi.secs
                == events[k].at.secs && events[k].at.nanos <= hi.nanos),
        lo.secs < hi.secs || (lo.secs == hi.secs && lo.nanos <= hi.nanos),
{
    assert forall|k: int| 0 <= k < events.len() implies lo.secs < (#[trigger] events[k]).at.secs
        || (lo.secs == events[k].at.secs && lo.nanos <= events[k].at.nanos) by {
        assert(ts_le(lo, events[k].at));
    }
    assert forall|k: int| 0 <= k < events.len() implies (#[trigger] events[k]).at.secs < hi.secs
        || (hi.secs == events[k].at.secs && events[k].at.nanos <= hi.nanos) by {
        assert(ts_le(events[k].at, hi));
    }
    let k = choose|k: int| 0 <= k < events.len() && #[trigger] events[k].at == lo;
    assert(ts_le(events[k].at, hi));
}

/// Frames the co-occurrence basis behind an auto-association: the event
/// count, the located events, the time window they span, and how many
/// leading events are inlined (at most `WITNESS_SAMPLE_LIMIT`).
pub fn witness_frame(events: &Vec<CoEventPoint>) -> (f: WitnessFrame)
    ensures
        f.event_count == events@.len(),
        lists_located(events@, f.located@),
        f.window is None <==> events@.len() == 0,
        f.window matches Some((lo, hi)) ==> is_earliest(events@, lo) && is_latest(events@, hi),
        f.sample_len == if events@.len() < WITNESS_SAMPLE_LIMIT {
            events@.len()
        } else {
            WITNESS_SAMPLE_LIMIT as nat
        },
{
    let n = events.len();
    let mut located: Vec<usize> = Vec::new();
    let mut window: Option<(Timestamp, Timestamp)> = None;
    let mut i: usize = 0;
    while i < n
        invariant
            n == events@.len(),
            i <= n,
            forall|k: int|
                0 <= k < located@.len() ==> #[trigger] located@[k] < i
                    && events@[located@[k] as int].located,
            forall|k1: int, k2: int|
                0 <= k1 < k2 < located@.len() ==> #[trigger] located@[k1] < #[trigger] located@[k2],
            forall|a: int| 0 <= a < i && #[trigger] events@[a].located ==> located@.contains(a as usize),
            window is None <==> i == 0,
            window matches Some((lo, hi)) ==> {
                &&& exists|k: int| 0 <= k < i && #[trigger] events@[k].at == lo
                &&& exists|k: int| 0 <= k < i && #[trigger] events@[k].at == hi
                &&& forall|k: int| 0 <= k < i ==> ts_le(lo, #[trigger] events@[k].at)
                &&& forall|k: int| 0 <= k < i ==> ts_le(#[trigger] events@[k].at, hi)
            },
        decreases n - i,
    {
        let e = events[i];
        if e.located {
            let ghost before = located@;
            located.push(i);
            assert forall|a: int| 0 <= a < i + 1 && #[trigger] events@[a].located implies located@.contains(
                a as usize,
            ) by {
                if a == i {
                    assert(located@[located@.len() - 1] == i);
                } else {
                    let k = choose|k: int| 0 <= k < before.len() && before[k] == a as usize;
                    assert(located@[k] == before[k]);
                }
            }
        }
        window = match window {
            None => Some((e.at, e.at)),
            Some((lo, hi)) => {
                let new_lo = if e.at.at_or_before(&lo) {
                    e.at
                } else {
                    lo
                };
                let new_hi = if hi.at_or_before(&e.at) {
                    e.at
                } else {
                    hi
                };
                Some((new_lo, new_hi))
            },
        };
        assert(events@[i as int].at == e.at);
        i = i + 1;
    }
    let sample_len = if n < WITNESS_SAMPLE_LIMIT {
        n
    } else {
        WITNESS_SAMPLE_LIMIT
    };
    WitnessFrame { event_count: n, located, window, sample_len }
}

} // verus!
