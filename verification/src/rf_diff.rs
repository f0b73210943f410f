//! RF-picture window diff: compare the set of emitters observed in two time
//! windows and report what appeared, went dark, or persisted (with deltas).
//!
//! Emitter ids are the 128-bit value of their UUID; signal levels in dBm are
//! carried as the IEEE-754 bit pattern of the measured `f64`, untouched.

use std::collections::HashMap;
use vstd::prelude::*;
use vstd::utf8::encode_utf8;

use crate::lexical::{bytes_le, bytes_le_exec, lemma_bytes_le_total, lemma_bytes_le_transitive};
use crate::timestamp::Timestamp;

verus! {

broadcast use vstd::std_specs::hash::group_hash_axioms;

/// One emitter's aggregate over a time window.
#[derive(Debug, Clone, PartialEq)]
pub struct WindowEmitter {
    pub emitter_id: u128,
    pub name: String,
    pub emitter_type: Option<String>,
    pub emission_count: i64,
    pub first_seen: Timestamp,
    pub last_seen: Timestamp,
    /// Bit pattern of the weakest reading (dBm), if any.
    pub min_dbm: Option<u64>,
    /// Bit pattern of the strongest reading (dBm), if any.
    pub max_dbm: Option<u64>,
    /// Bit pattern of the mean reading (dBm), if any.
    pub avg_dbm: Option<u64>,
}

/// An emitter present in only one window (newly appeared, or gone dark).
#[derive(Debug, Clone, PartialEq)]
pub struct RfEmitter {
    pub emitter_id: u128,
    pub name: String,
    pub emitter_type: Option<String>,
    pub emission_count: i64,
    pub first_seen: Timestamp,
    pub last_seen: Timestamp,
}

/// An emitter present in both windows, with the change between them.
#[derive(Debug, Clone, PartialEq)]
pub struct RfPersistent {
    pub emitter_id: u128,
    pub name: String,
    pub emitter_type: Option<String>,
    pub baseline_count: i64,
    pub compare_count: i64,
    pub count_delta: i64,
    /// Bit pattern of the baseline window's mean reading (dBm), if any.
    pub baseline_avg_dbm: Option<u64>,
    /// Bit pattern of the compare window's mean reading (dBm), if any.
    pub compare_avg_dbm: Option<u64>,
}

/// The diff of two RF pictures. `appeared`/`disappeared` are the
/// counter-surveillance signal; `persistent` carries the steady-state set with
/// per-emitter deltas.
#[derive(Debug, Clone, PartialEq)]
pub struct RfDiff {
    pub appeared: Vec<RfEmitter>,
    pub disappeared: Vec<RfEmitter>,
    pub persistent: Vec<RfPersistent>,
}

/// A diff entry: it names one emitter and sorts by that emitter's name.
pub trait RfRecord: Sized {
    /// The emitter the entry is about.
    spec fn record_id(&self) -> u128;

    /// The UTF-8 bytes of the entry's name, the key the diff sorts by.
    spec fn sort_key(&self) -> Seq<u8>;

    fn name_bytes(&self) -> (r: &[u8])
        ensures
            r@ == self.sort_key(),
    ;
}

impl RfRecord for RfEmitter {
    open spec fn record_id(&self) -> u128 {
        self.emitter_id
    }

    open spec fn sort_key(&self) -> Seq<u8> {
        encode_utf8(self.name@)
    }

    fn name_bytes(&self) -> (r: &[u8]) {
        self.name.as_str().as_bytes()
    }
}

impl RfRecord for RfPersistent {
    open spec fn record_id(&self) -> u128 {
        self.emitter_id
    }

    open spec fn sort_key(&self) -> Seq<u8> {
        encode_utf8(self.name@)
    }

    fn name_bytes(&self) -> (r: &[u8]) {
        self.name.as_str().as_bytes()
    }
}

/// The entries come in name order (byte-wise, as Rust orders strings).
pub open spec fn sorted_by_name<T: RfRecord>(s: Seq<T>) -> bool {
    forall|i: int, j: int|
        0 <= i < j < s.len() ==> bytes_le(#[trigger] s[i].sort_key(), #[trigger] s[j].sort_key())
}

/// Some entry of `s` is about emitter `id`.
pub open spec fn lists_id<T: RfRecord>(s: Seq<T>, id: u128) -> bool {
    exists|k: int| 0 <= k < s.len() && #[trigger] s[k].record_id() == id
}

/// `s` holds exactly one entry for each emitter in `ids` and no other, and
/// the entry for emitter `id` is `entry(id)`.
pub open spec fn lists_exactly<T: RfRecord>(
    s: Seq<T>,
    ids: Set<u128>,
    entry: spec_fn(u128) -> T,
) -> bool {
    &&& forall|i: int, j: int|
        0 <= i < j < s.len() ==> #[trigger] s[i].record_id() != #[trigger] s[j].record_id()
    &&& forall|k: int|
        0 <= k < s.len() ==> ids.contains((#[trigger] s[k]).record_id()) && s[k] == entry(
            s[k].record_id(),
        )
    &&& forall|id: u128| #[trigger] ids.contains(id) ==> lists_id(s, id)
}

/// The ids of a window summary, in order.
pub open spec fn window_ids(w: Seq<WindowEmitter>) -> Seq<u128> {
    Seq::new(w.len(), |i: int| w[i].emitter_id)
}

/// For each id in `ids`, the position of its last occurrence.
pub open spec fn latest_index(ids: Seq<u128>) -> Map<u128, int>
    decreases ids.len(),
{
    if ids.len() == 0 {
        Map::empty()
    } else {
        latest_index(ids.drop_last()).insert(ids.last(), ids.len() - 1)
    }
}

/// A window summary keyed by emitter id. Where an id occurs more than once,
/// the last entry wins, as when the summary is collected into a hash map.
pub open spec fn summary_by_id(w: Seq<WindowEmitter>) -> Map<u128, WindowEmitter> {
    Map::new(
        |id: u128| latest_index(window_ids(w)).contains_key(id),
        |id: u128| w[latest_index(window_ids(w))[id]],
    )
}

/// The one-window entry for an emitter.
pub open spec fn as_rf_emitter(w: WindowEmitter) -> RfEmitter {
    RfEmitter {
        emitter_id: w.emitter_id,
        name: w.name,
        emitter_type: w.emitter_type,
        emission_count: w.emission_count,
        first_seen: w.first_seen,
        last_seen: w.last_seen,
    }
}

/// The two-window entry for an emitter seen as `base` and then as `comp`: the
/// name and type come from the compare window, and the delta is
/// `comp.emission_count - base.emission_count`.
pub open spec fn as_rf_persistent(base: WindowEmitter, comp: WindowEmitter) -> RfPersistent {
    RfPersistent {
        emitter_id: comp.emitter_id,
        name: comp.name,
        emitter_type: comp.emitter_type,
        baseline_count: base.emission_count,
        compare_count: comp.emission_count,
        count_delta: (comp.emission_count - base.emission_count) as i64,
        baseline_avg_dbm: base.avg_dbm,
        compare_avg_dbm: comp.avg_dbm,
    }
}

/// The entry for `id` among emitters found in one window only.
pub open spec fn single_window_entry(w: Map<u128, WindowEmitter>) -> spec_fn(u128) -> RfEmitter {
    |id: u128| as_rf_emitter(w[id])
}

/// The entry for `id` among emitters found in both windows.
pub open spec fn both_windows_entry(
    base: Map<u128, WindowEmitter>,
    comp: Map<u128, WindowEmitter>,
) -> spec_fn(u128) -> RfPersistent {
    |id: u128| as_rf_persistent(base[id], comp[id])
}

/// For every emitter in both windows, the change in its emission count fits an `i64`.
pub open spec fn deltas_fit(baseline: Seq<WindowEmitter>, compare: Seq<WindowEmitter>) -> bool {
    let b = summary_by_id(baseline);
    let c = summary_by_id(compare);
    forall|id: u128|
        #![trigger b.contains_key(id), c.contains_key(id)]
        b.contains_key(id) && c.contains_key(id) ==> i64::MIN <= c[id].emission_count
            - b[id].emission_count <= i64::MAX
}

/// `d` is the diff of `baseline` against `compare`: `appeared` lists the
/// emitters of `compare` only, `disappeared` those of `baseline` only,
/// `persistent` those of both, each list once per emitter and in name order.
pub open spec fn is_window_diff(
    baseline: Seq<WindowEmitter>,
    compare: Seq<WindowEmitter>,
    d: RfDiff,
) -> bool {
    let b = summary_by_id(baseline);
    let c = summary_by_id(compare);
    &&& sorted_by_name(d.appeared@)
    &&& sorted_by_name(d.disappeared@)
    &&& sorted_by_name(d.persistent@)
    &&& lists_exactly(d.appeared@, c.dom().difference(b.dom()), single_window_entry(c))
    &&& lists_exactly(d.disappeared@, b.dom().difference(c.dom()), single_window_entry(b))
    &&& lists_exactly(d.persistent@, b.dom().intersect(c.dom()), both_windows_entry(b, c))
}

proof fn lemma_latest_index(ids: Seq<u128>)
    ensures
        forall|id: u128| #[trigger]
            latest_index(ids).contains_key(id) ==> 0 <= latest_index(ids)[id] < ids.len()
                && ids[latest_index(ids)[id]] == id,
        forall|i: int| 0 <= i < ids.len() ==> #[trigger] latest_index(ids).contains_key(ids[i]),
    decreases ids.len(),
{
    if ids.len() > 0 {
        let prev = ids.drop_last();
        lemma_latest_index(prev);
        let lp = latest_index(prev);
        let l = latest_index(ids);
        assert(l == lp.insert(ids.last(), ids.len() - 1));
        assert forall|id: u128| #[trigger] l.contains_key(id) implies 0 <= l[id] < ids.len()
            && ids[l[id]] == id by {
            if id != ids.last() {
                assert(lp.contains_key(id));
                assert(prev[lp[id]] == ids[lp[id]]);
            }
        }
        assert forall|i: int| 0 <= i < ids.len() implies #[trigger] l.contains_key(ids[i]) by {
            if i < ids.len() - 1 {
                assert(prev[i] == ids[i]);
                assert(lp.contains_key(prev[i]));
            }
        }
    }
}

proof fn lemma_latest_index_is_last(ids: Seq<u128>)
    ensures
        forall|id: u128, k: int|
            #![trigger latest_index(ids).contains_key(id), ids[k]]
            latest_index(ids).contains_key(id) && latest_index(ids)[id] < k < ids.len()
                ==> ids[k] != id,
    decreases ids.len(),
{
    if ids.len() > 0 {
        let prev = ids.drop_last();
        lemma_latest_index_is_last(prev);
        lemma_latest_index(prev);
        let lp = latest_index(prev);
        let l = latest_index(ids);
        assert(l == lp.insert(ids.last(), ids.len() - 1));
        assert forall|id: u128, k: int|
            l.contains_key(id) && l[id] < k < ids.len() implies ids[k] != id by {
            if id != ids.last() {
                assert(lp.contains_key(id));
                if k < ids.len() - 1 {
                    assert(prev[k] == ids[k]);
                }
            }
        }
    }
}

/// The summary of a window knows exactly the ids that occur in it, and for
/// each id holds the last entry with that id.
pub proof fn lemma_summary_holds_last_entry(w: Seq<WindowEmitter>)
    ensures
        forall|id: u128|
            summary_by_id(w).contains_key(id) <==> exists|i: int|
                0 <= i < w.len() && #[trigger] w[i].emitter_id == id,
        forall|i: int|
            0 <= i < w.len() && (forall|k: int|
                i < k < w.len() ==> (#[trigger] w[k]).emitter_id != w[i].emitter_id) ==> {
                &&& summary_by_id(w).contains_key(#[trigger] w[i].emitter_id)
                &&& summary_by_id(w)[w[i].emitter_id] == w[i]
            },
{
    let ids = window_ids(w);
    lemma_latest_index(ids);
    lemma_latest_index_is_last(ids);
    let l = latest_index(ids);
    assert forall|id: u128|
        summary_by_id(w).contains_key(id) <==> exists|i: int|
            0 <= i < w.len() && #[trigger] w[i].emitter_id == id by {
        if summary_by_id(w).contains_key(id) {
            assert(w[l[id]].emitter_id == ids[l[id]]);
        }
        if exists|i: int| 0 <= i < w.len() && #[trigger] w[i].emitter_id == id {
            let i = choose|i: int| 0 <= i < w.len() && #[trigger] w[i].emitter_id == id;
            assert(ids[i] == id);
        }
    }
    assert forall|i: int|
        0 <= i < w.len() && (forall|k: int|
            i < k < w.len() ==> (#[trigger] w[k]).emitter_id != w[i].emitter_id) implies {
        &&& summary_by_id(w).contains_key(#[trigger] w[i].emitter_id)
        &&& summary_by_id(w)[w[i].emitter_id] == w[i]
    } by {
        let id = w[i].emitter_id;
        assert(ids[i] == id);
        assert(l.contains_key(id));
        let p = l[id];
        assert(ids[p] == id);
        if p < i {
            assert(ids[i] == id);
        } else if p > i {
            assert(w[p].emitter_id == ids[p]);
        }
    }
}

/// The count deltas fit exactly when, for every emitter in both windows, the
/// compare window's last count minus the baseline window's last count lies in
/// the `i64` range, whatever its sign; in particular they fit whenever every
/// pair of entries with a common id has such a difference.
pub proof fn lemma_deltas_fit_means_in_range(baseline: Seq<WindowEmitter>, compare: Seq<WindowEmitter>)
    ensures
        (forall|i: int, j: int|
            0 <= i < baseline.len() && 0 <= j < compare.len() && #[trigger] baseline[i].emitter_id
                == #[trigger] compare[j].emitter_id ==> i64::MIN <= compare[j].emission_count
                - baseline[i].emission_count <= i64::MAX) ==> deltas_fit(baseline, compare),
        deltas_fit(baseline, compare) ==> forall|i: int, j: int|
            0 <= i < baseline.len() && 0 <= j < compare.len() && #[trigger] baseline[i].emitter_id
                == #[trigger] compare[j].emitter_id && (forall|k: int|
                i < k < baseline.len() ==> baseline[k].emitter_id != baseline[i].emitter_id) && (
            forall|k: int| j < k < compare.len() ==> compare[k].emitter_id != compare[j].emitter_id)
                ==> i64::MIN <= compare[j].emission_count - baseline[i].emission_count <= i64::MAX,
{
    lemma_summary_holds_last_entry(baseline);
    lemma_summary_holds_last_entry(compare);
    let b = summary_by_id(baseline);
    let c = summary_by_id(compare);
    let lb = latest_index(window_ids(baseline));
    let lc = latest_index(window_ids(compare));
    lemma_latest_index(window_ids(baseline));
    lemma_latest_index(window_ids(compare));
    if forall|i: int, j: int|
        0 <= i < baseline.len() && 0 <= j < compare.len() && #[trigger] baseline[i].emitter_id
            == #[trigger] compare[j].emitter_id ==> i64::MIN <= compare[j].emission_count
            - baseline[i].emission_count <= i64::MAX {
        assert forall|id: u128|
            #![trigger b.contains_key(id), c.contains_key(id)]
            b.contains_key(id) && c.contains_key(id) implies i64::MIN <= c[id].emission_count
            - b[id].emission_count <= i64::MAX by {
            let i = lb[id];
            let j = lc[id];
            assert(window_ids(baseline)[i] == baseline[i].emitter_id);
            assert(window_ids(compare)[j] == compare[j].emitter_id);
            assert(baseline[i].emitter_id == compare[j].emitter_id);
        }
    }
    if deltas_fit(baseline, compare) {
        assert forall|i: int, j: int|
            0 <= i < baseline.len() && 0 <= j < compare.len() && #[trigger] baseline[i].emitter_id
                == #[trigger] compare[j].emitter_id && (forall|k: int|
                i < k < baseline.len() ==> baseline[k].emitter_id != baseline[i].emitter_id) && (
            forall|k: int| j < k < compare.len() ==> compare[k].emitter_id != compare[j].emitter_id)
            implies i64::MIN <= compare[j].emission_count - baseline[i].emission_count
            <= i64::MAX by {
            assert forall|k: int| i < k < baseline.len() implies (#[trigger] baseline[k]).emitter_id
                != baseline[i].emitter_id by {}
            assert forall|k: int| j < k < compare.len() implies (#[trigger] compare[k]).emitter_id
                != compare[j].emitter_id by {}
            let id = baseline[i].emitter_id;
            assert(b.contains_key(id) && b[id] == baseline[i]);
            assert(c.contains_key(compare[j].emitter_id) && c[id] == compare[j]);
        }
    }
}

/// Where the summary's entry for `id` stands: the last entry with that id.
proof fn summary_position(w: Seq<WindowEmitter>, id: u128) -> (j: int)
    requires
        summary_by_id(w).contains_key(id),
    ensures
        0 <= j < w.len(),
        w[j].emitter_id == id,
        summary_by_id(w)[id] == w[j],
        forall|m: int| j < m < w.len() ==> (#[trigger] w[m]).emitter_id != id,
{
    let ids = window_ids(w);
    lemma_latest_index(ids);
    lemma_latest_index_is_last(ids);
    let j = latest_index(ids)[id];
    assert(ids[j] == w[j].emitter_id);
    assert forall|m: int| j < m < w.len() implies (#[trigger] w[m]).emitter_id != id by {
        assert(ids[m] == w[m].emitter_id);
    }
    j
}

/// An id the summary does not know occurs nowhere in the window.
proof fn lemma_summary_absent(w: Seq<WindowEmitter>, id: u128)
    requires
        !summary_by_id(w).contains_key(id),
    ensures
        forall|i: int| 0 <= i < w.len() ==> (#[trigger] w[i]).emitter_id != id,
{
    let ids = window_ids(w);
    lemma_latest_index(ids);
    assert forall|i: int| 0 <= i < w.len() implies (#[trigger] w[i]).emitter_id != id by {
        assert(ids[i] == w[i].emitter_id);
    }
}

/// An id that occurs in the window is known to its summary.
proof fn lemma_summary_present(w: Seq<WindowEmitter>, i: int)
    requires
        0 <= i < w.len(),
    ensures
        summary_by_id(w).contains_key(w[i].emitter_id),
{
    let ids = window_ids(w);
    lemma_latest_index(ids);
    assert(ids[i] == w[i].emitter_id);
}

/// Each newly appeared entry copies, field by field, the last entry of an
/// emitter of the compare window that the baseline window never mentions.
pub proof fn lemma_appeared_come_from_compare_only(
    baseline: Seq<WindowEmitter>,
    compare: Seq<WindowEmitter>,
    d: RfDiff,
    k: int,
) -> (j: int)
    requires
        is_window_diff(baseline, compare, d),
        0 <= k < d.appeared@.len(),
    ensures
        0 <= j < compare.len(),
        forall|m: int| j < m < compare.len() ==> (#[trigger] compare[m]).emitter_id
            != compare[j].emitter_id,
        forall|i: int| 0 <= i < baseline.len() ==> (#[trigger] baseline[i]).emitter_id
            != compare[j].emitter_id,
        d.appeared@[k].emitter_id == compare[j].emitter_id,
        d.appeared@[k].name == compare[j].name,
        d.appeared@[k].emitter_type == compare[j].emitter_type,
        d.appeared@[k].emission_count == compare[j].emission_count,
        d.appeared@[k].first_seen == compare[j].first_seen,
        d.appeared@[k].last_seen == compare[j].last_seen,
{
    let s = d.appeared@;
    let id = s[k].record_id();
    assert(summary_by_id(compare).dom().difference(summary_by_id(baseline).dom()).contains(id));
    let j = summary_position(compare, id);
    lemma_summary_absent(baseline, id);
    j
}

/// Each entry gone dark copies, field by field, the last entry of an emitter
/// of the baseline window that the compare window never mentions.
pub proof fn lemma_disappeared_come_from_baseline_only(
    baseline: Seq<WindowEmitter>,
    compare: Seq<WindowEmitter>,
    d: RfDiff,
    k: int,
) -> (i: int)
    requires
        is_window_diff(baseline, compare, d),
        0 <= k < d.disappeared@.len(),
    ensures
        0 <= i < baseline.len(),
        forall|m: int| i < m < baseline.len() ==> (#[trigger] baseline[m]).emitter_id
            != baseline[i].emitter_id,
        forall|j: int| 0 <= j < compare.len() ==> (#[trigger] compare[j]).emitter_id
            != baseline[i].emitter_id,
        d.disappeared@[k].emitter_id == baseline[i].emitter_id,
        d.disappeared@[k].name == baseline[i].name,
        d.disappeared@[k].emitter_type == baseline[i].emitter_type,
        d.disappeared@[k].emission_count == baseline[i].emission_count,
        d.disappeared@[k].first_seen == baseline[i].first_seen,
        d.disappeared@[k].last_seen == baseline[i].last_seen,
{
    let s = d.disappeared@;
    let id = s[k].record_id();
    assert(summary_by_id(baseline).dom().difference(summary_by_id(compare).dom()).contains(id));
    let i = summary_position(baseline, id);
    lemma_summary_absent(compare, id);
    i
}

/// Each persistent entry joins the last baseline entry and the last compare
/// entry of one emitter: name and type from the compare window, both counts,
/// the delta `compare - baseline` (of either sign) and both mean readings.
pub proof fn lemma_persistent_join_both_windows(
    baseline: Seq<WindowEmitter>,
    compare: Seq<WindowEmitter>,
    d: RfDiff,
    k: int,
) -> (ij: (int, int))
    requires
        deltas_fit(baseline, compare),
        is_window_diff(baseline, compare, d),
        0 <= k < d.persistent@.len(),
    ensures
        0 <= ij.0 < baseline.len(),
        0 <= ij.1 < compare.len(),
        forall|m: int| ij.0 < m < baseline.len() ==> (#[trigger] baseline[m]).emitter_id
            != baseline[ij.0].emitter_id,
        forall|m: int| ij.1 < m < compare.len() ==> (#[trigger] compare[m]).emitter_id
            != compare[ij.1].emitter_id,
        d.persistent@[k].emitter_id == baseline[ij.0].emitter_id,
        d.persistent@[k].emitter_id == compare[ij.1].emitter_id,
        d.persistent@[k].name == compare[ij.1].name,
        d.persistent@[k].emitter_type == compare[ij.1].emitter_type,
        d.persistent@[k].baseline_count == baseline[ij.0].emission_count,
        d.persistent@[k].compare_count == compare[ij.1].emission_count,
        d.persistent@[k].count_delta as int == compare[ij.1].emission_count
            - baseline[ij.0].emission_count,
        d.persistent@[k].baseline_avg_dbm == baseline[ij.0].avg_dbm,
        d.persistent@[k].compare_avg_dbm == compare[ij.1].avg_dbm,
{
    let s = d.persistent@;
    let id = s[k].record_id();
    let b = summary_by_id(baseline);
    let c = summary_by_id(compare);
    assert(b.dom().intersect(c.dom()).contains(id));
    let i = summary_position(baseline, id);
    let j = summary_position(compare, id);
    assert(b.contains_key(id) && c.contains_key(id));
    (i, j)
}

/// Every emitter of the compare window that the baseline never mentions is
/// listed as appeared; every emitter of the baseline that the compare window
/// never mentions is listed as gone dark; every emitter of both is listed as
/// persistent; and no list names an emitter twice.
pub proof fn lemma_diff_lists_every_emitter_once(
    baseline: Seq<WindowEmitter>,
    compare: Seq<WindowEmitter>,
    d: RfDiff,
)
    requires
        is_window_diff(baseline, compare, d),
    ensures
        forall|j: int|
            0 <= j < compare.len() && (forall|i: int|
                0 <= i < baseline.len() ==> (#[trigger] baseline[i]).emitter_id
                    != compare[j].emitter_id) ==> exists|k: int|
                0 <= k < d.appeared@.len() && (#[trigger] d.appeared@[k]).emitter_id
                    == (#[trigger] compare[j]).emitter_id,
        forall|i: int|
            0 <= i < baseline.len() && (forall|j: int|
                0 <= j < compare.len() ==> (#[trigger] compare[j]).emitter_id
                    != baseline[i].emitter_id) ==> exists|k: int|
                0 <= k < d.disappeared@.len() && (#[trigger] d.disappeared@[k]).emitter_id
                    == (#[trigger] baseline[i]).emitter_id,
        forall|i: int, j: int|
            0 <= i < baseline.len() && 0 <= j < compare.len() && (#[trigger] baseline[i]).emitter_id
                == (#[trigger] compare[j]).emitter_id ==> exists|k: int|
                0 <= k < d.persistent@.len() && (#[trigger] d.persistent@[k]).emitter_id
                    == baseline[i].emitter_id,
        forall|k1: int, k2: int|
            0 <= k1 < k2 < d.appeared@.len() ==> (#[trigger] d.appeared@[k1]).emitter_id
                != (#[trigger] d.appeared@[k2]).emitter_id,
        forall|k1: int, k2: int|
            0 <= k1 < k2 < d.disappeared@.len() ==> (#[trigger] d.disappeared@[k1]).emitter_id
                != (#[trigger] d.disappeared@[k2]).emitter_id,
        forall|k1: int, k2: int|
            0 <= k1 < k2 < d.persistent@.len() ==> (#[trigger] d.persistent@[k1]).emitter_id
                != (#[trigger] d.persistent@[k2]).emitter_id,
{
    let b = summary_by_id(baseline);
    let c = summary_by_id(compare);
    assert forall|j: int|
        0 <= j < compare.len() && (forall|i: int|
            0 <= i < baseline.len() ==> (#[trigger] baseline[i]).emitter_id
                != compare[j].emitter_id) implies exists|k: int|
        0 <= k < d.appeared@.len() && (#[trigger] d.appeared@[k]).emitter_id
            == (#[trigger] compare[j]).emitter_id by {
        let id = compare[j].emitter_id;
        lemma_summary_present(compare, j);
        if b.contains_key(id) {
            let i = summary_position(baseline, id);
            assert(baseline[i].emitter_id == id);
        }
        assert(c.dom().difference(b.dom()).contains(id));
        let k = choose|k: int| 0 <= k < d.appeared@.len() && #[trigger] d.appeared@[k].record_id() == id;
        assert(d.appeared@[k].emitter_id == id);
    }
    assert forall|i: int|
        0 <= i < baseline.len() && (forall|j: int|
            0 <= j < compare.len() ==> (#[trigger] compare[j]).emitter_id
                != baseline[i].emitter_id) implies exists|k: int|
        0 <= k < d.disappeared@.len() && (#[trigger] d.disappeared@[k]).emitter_id
            == (#[trigger] baseline[i]).emitter_id by {
        let id = baseline[i].emitter_id;
        lemma_summary_present(baseline, i);
        if c.contains_key(id) {
            let j = summary_position(compare, id);
            assert(compare[j].emitter_id == id);
        }
        assert(b.dom().difference(c.dom()).contains(id));
        let k = choose|k: int| 0 <= k < d.disappeared@.len() && #[trigger] d.disappeared@[k].record_id() == id;
        assert(d.disappeared@[k].emitter_id == id);
    }
    assert forall|i: int, j: int|
        0 <= i < baseline.len() && 0 <= j < compare.len() && (#[trigger] baseline[i]).emitter_id
            == (#[trigger] compare[j]).emitter_id implies exists|k: int|
        0 <= k < d.persistent@.len() && (#[trigger] d.persistent@[k]).emitter_id
            == baseline[i].emitter_id by {
        let id = baseline[i].emitter_id;
        lemma_summary_present(baseline, i);
        lemma_summary_present(compare, j);
        assert(b.dom().intersect(c.dom()).contains(id));
        let k = choose|k: int| 0 <= k < d.persistent@.len() && #[trigger] d.persistent@[k].record_id() == id;
        assert(d.persistent@[k].emitter_id == id);
    }
    assert forall|k1: int, k2: int| 0 <= k1 < k2 < d.appeared@.len() implies (#[trigger] d.appeared@[k1]).emitter_id
        != (#[trigger] d.appeared@[k2]).emitter_id by {
        assert(d.appeared@[k1].record_id() != d.appeared@[k2].record_id());
    }
    assert forall|k1: int, k2: int| 0 <= k1 < k2 < d.disappeared@.len() implies (#[trigger] d.disappeared@[k1]).emitter_id
        != (#[trigger] d.disappeared@[k2]).emitter_id by {
        assert(d.disappeared@[k1].record_id() != d.disappeared@[k2].record_id());
    }
    assert forall|k1: int, k2: int| 0 <= k1 < k2 < d.persistent@.len() implies (#[trigger] d.persistent@[k1]).emitter_id
        != (#[trigger] d.persistent@[k2]).emitter_id by {
        assert(d.persistent@[k1].record_id() != d.persistent@[k2].record_id());
    }
}

/// A diff entry is about the emitter it names, and sorts by the UTF-8 bytes of its name.
pub proof fn lemma_entries_sort_by_name(e: RfEmitter, p: RfPersistent)
    ensures
        e.record_id() == e.emitter_id,
        e.sort_key() == encode_utf8(e.name@),
        p.record_id() == p.emitter_id,
        p.sort_key() == encode_utf8(p.name@),
{
}

/// Each list of a diff is in the byte order of the UTF-8 names, the order in
/// which Rust compares strings.
pub proof fn lemma_diff_lists_in_name_order(
    baseline: Seq<WindowEmitter>,
    compare: Seq<WindowEmitter>,
    d: RfDiff,
)
    requires
        is_window_diff(baseline, compare, d),
    ensures
        forall|i: int, j: int|
            0 <= i < j < d.appeared@.len() ==> bytes_le(
                encode_utf8((#[trigger] d.appeared@[i]).name@),
                encode_utf8((#[trigger] d.appeared@[j]).name@),
            ),
        forall|i: int, j: int|
            0 <= i < j < d.disappeared@.len() ==> bytes_le(
                encode_utf8((#[trigger] d.disappeared@[i]).name@),
                encode_utf8((#[trigger] d.disappeared@[j]).name@),
            ),
        forall|i: int, j: int|
            0 <= i < j < d.persistent@.len() ==> bytes_le(
                encode_utf8((#[trigger] d.persistent@[i]).name@),
                encode_utf8((#[trigger] d.persistent@[j]).name@),
            ),
{
    assert forall|i: int, j: int| 0 <= i < j < d.appeared@.len() implies bytes_le(
        encode_utf8((#[trigger] d.appeared@[i]).name@),
        encode_utf8((#[trigger] d.appeared@[j]).name@),
    ) by {
        assert(bytes_le(d.appeared@[i].sort_key(), d.appeared@[j].sort_key()));
    }
    assert forall|i: int, j: int| 0 <= i < j < d.disappeared@.len() implies bytes_le(
        encode_utf8((#[trigger] d.disappeared@[i]).name@),
        encode_utf8((#[trigger] d.disappeared@[j]).name@),
    ) by {
        assert(bytes_le(d.disappeared@[i].sort_key(), d.disappeared@[j].sort_key()));
    }
    assert forall|i: int, j: int| 0 <= i < j < d.persistent@.len() implies bytes_le(
        encode_utf8((#[trigger] d.persistent@[i]).name@),
        encode_utf8((#[trigger] d.persistent@[j]).name@),
    ) by {
        assert(bytes_le(d.persistent@[i].sort_key(), d.persistent@[j].sort_key()));
    }
}

proof fn lemma_lists_exactly_insert<T: RfRecord>(
    s: Seq<T>,
    ids: Set<u128>,
    entry: spec_fn(u128) -> T,
    pos: int,
    x: T,
)
    requires
        lists_exactly(s, ids, entry),
        0 <= pos <= s.len(),
        !ids.contains(x.record_id()),
        x == entry(x.record_id()),
    ensures
        lists_exactly(s.insert(pos, x), ids.insert(x.record_id()), entry),
{
    let t = s.insert(pos, x);
    let ids2 = ids.insert(x.record_id());
    assert forall|k: int| 0 <= k < t.len() implies ids2.contains(#[trigger] t[k].record_id())
        && t[k] == entry(t[k].record_id()) by {
        if k > pos {
            assert(t[k] == s[k - 1]);
        }
    }
    assert forall|i: int, j: int| 0 <= i < j < t.len() implies #[trigger] t[i].record_id()
        != #[trigger] t[j].record_id() by {
        if i < pos && j > pos {
            assert(t[j] == s[j - 1]);
        } else if i > pos {
            assert(t[i] == s[i - 1]);
            assert(t[j] == s[j - 1]);
        } else if i == pos {
            assert(t[j] == s[j - 1]);
            assert(ids.contains(s[j - 1].record_id()));
        } else if j == pos {
            assert(ids.contains(s[i].record_id()));
        }
    }
    assert forall|id: u128| #[trigger] ids2.contains(id) implies lists_id(t, id) by {
        if id == x.record_id() {
            assert(t[pos].record_id() == id);
        } else {
            let k = choose|k: int| 0 <= k < s.len() && #[trigger] s[k].record_id() == id;
            if k < pos {
                assert(t[k].record_id() == id);
            } else {
                assert(t[k + 1].record_id() == id);
            }
        }
    }
}

/// Inserts `x` into the name-ordered `v` at a place that keeps it in order,
/// and returns that place.
fn insert_by_name<T: RfRecord>(v: &mut Vec<T>, x: T) -> (pos: usize)
    requires
        sorted_by_name(old(v)@),
    ensures
        pos <= old(v)@.len(),
        final(v)@ == old(v)@.insert(pos as int, x),
        sorted_by_name(final(v)@),
{
    let mut pos: usize = 0;
    while pos < v.len() && bytes_le_exec(v[pos].name_bytes(), x.name_bytes())
        invariant
            pos <= v@.len(),
            v@ == old(v)@,
            sorted_by_name(v@),
            forall|k: int| 0 <= k < pos ==> bytes_le(#[trigger] v@[k].sort_key(), x.sort_key()),
        decreases v@.len() - pos,
    {
        pos = pos + 1;
    }
    proof {
        if pos < v@.len() {
            lemma_bytes_le_total(v@[pos as int].sort_key(), x.sort_key());
        }
        assert forall|k: int| pos <= k < v@.len() implies bytes_le(
            x.sort_key(),
            #[trigger] v@[k].sort_key(),
        ) by {
            if k > pos {
                lemma_bytes_le_transitive(
                    x.sort_key(),
                    v@[pos as int].sort_key(),
                    v@[k].sort_key(),
                );
            }
        }
    }
    let ghost before = v@;
    v.insert(pos, x);
    proof {
        let after = v@;
        assert forall|i: int, j: int| 0 <= i < j < after.len() implies bytes_le(
            #[trigger] after[i].sort_key(),
            #[trigger] after[j].sort_key(),
        ) by {
            let p = pos as int;
            if j < p {
            } else if j == p {
                assert(after[i] == before[i]);
            } else if i < p {
                assert(after[i] == before[i]);
                assert(after[j] == before[j - 1]);
                lemma_bytes_le_transitive(
                    before[i].sort_key(),
                    x.sort_key(),
                    before[j - 1].sort_key(),
                );
            } else if i == p {
                assert(after[j] == before[j - 1]);
            } else {
                assert(after[i] == before[i - 1]);
                assert(after[j] == before[j - 1]);
            }
        }
    }
    pos
}

fn clone_name(s: &Option<String>) -> (r: Option<String>)
    ensures
        r == *s,
{
    match s {
        Some(t) => Some(t.clone()),
        None => None,
    }
}

/// The one-window entry for `w`.
fn rf_emitter_of(w: &WindowEmitter) -> (r: RfEmitter)
    ensures
        r == as_rf_emitter(*w),
{
    RfEmitter {
        emitter_id: w.emitter_id,
        name: w.name.clone(),
        emitter_type: clone_name(&w.emitter_type),
        emission_count: w.emission_count,
        first_seen: w.first_seen,
        last_seen: w.last_seen,
    }
}

/// The two-window entry for an emitter seen as `base` and then as `comp`.
fn rf_persistent_of(base: &WindowEmitter, comp: &WindowEmitter) -> (r: RfPersistent)
    requires
        i64::MIN <= comp.emission_count - base.emission_count <= i64::MAX,
    ensures
        r == as_rf_persistent(*base, *comp),
{
    RfPersistent {
        emitter_id: comp.emitter_id,
        name: comp.name.clone(),
        emitter_type: clone_name(&comp.emitter_type),
        baseline_count: base.emission_count,
        compare_count: comp.emission_count,
        count_delta: comp.emission_count - base.emission_count,
        baseline_avg_dbm: base.avg_dbm,
        compare_avg_dbm: comp.avg_dbm,
    }
}

/// Maps each id of the summary to the position of its last entry.
fn latest_positions(w: &Vec<WindowEmitter>) -> (m: HashMap<u128, usize>)
    ensures
        forall|id: u128| #[trigger]
            m@.contains_key(id) == latest_index(window_ids(w@)).contains_key(id),
        forall|id: u128| #[trigger]
            m@.contains_key(id) ==> m@[id] as int == latest_index(window_ids(w@))[id],
{
    let mut m: HashMap<u128, usize> = HashMap::new();
    let mut i: usize = 0;
    while i < w.len()
        invariant
            i <= w@.len(),
            forall|id: u128| #[trigger]
                m@.contains_key(id) == latest_index(window_ids(w@).take(i as int)).contains_key(
                    id,
                ),
            forall|id: u128| #[trigger]
                m@.contains_key(id) ==> m@[id] as int == latest_index(
                    window_ids(w@).take(i as int),
                )[id],
        decreases w@.len() - i,
    {
        m.insert(w[i].emitter_id, i);
        assert(window_ids(w@).take(i + 1).drop_last() =~= window_ids(w@).take(i as int));
        i = i + 1;
    }
    assert(window_ids(w@).take(w@.len() as int) =~= window_ids(w@));
    m
}

/// The emitters whose last entry in the summary stands before position `i`.
spec fn settled_before(last: Map<u128, int>, i: int) -> Set<u128> {
    Set::new(|id: u128| last.contains_key(id) && last[id] < i)
}

/// Pure set-diff of two window summaries, keyed by emitter id. Where an id
/// occurs more than once in a summary, its last entry counts. Each list comes
/// out in name order.
pub fn diff_windows(baseline: Vec<WindowEmitter>, compare: Vec<WindowEmitter>) -> (d: RfDiff)
    requires
        deltas_fit(baseline@, compare@),
    ensures
        is_window_diff(baseline@, compare@, d),
{
    let base_last = latest_positions(&baseline);
    let compare_last = latest_positions(&compare);
    let ghost b = summary_by_id(baseline@);
    let ghost c = summary_by_id(compare@);
    let ghost lb = latest_index(window_ids(baseline@));
    let ghost lc = latest_index(window_ids(compare@));
    proof {
        lemma_latest_index(window_ids(baseline@));
        lemma_latest_index(window_ids(compare@));
    }

    let mut appeared: Vec<RfEmitter> = Vec::new();
    let mut disappeared: Vec<RfEmitter> = Vec::new();
    let mut persistent: Vec<RfPersistent> = Vec::new();

    let mut i: usize = 0;
    while i < baseline.len()
        invariant
            i <= baseline@.len(),
            b == summary_by_id(baseline@),
            c == summary_by_id(compare@),
            lb == latest_index(window_ids(baseline@)),
            lc == latest_index(window_ids(compare@)),
            deltas_fit(baseline@, compare@),
            forall|id: u128| #[trigger]
                base_last@.contains_key(id) == lb.contains_key(id),
            forall|id: u128| #[trigger]
                base_last@.contains_key(id) ==> base_last@[id] as int == lb[id],
            forall|id: u128| #[trigger]
                compare_last@.contains_key(id) == lc.contains_key(id),
            forall|id: u128| #[trigger]
                compare_last@.contains_key(id) ==> compare_last@[id] as int == lc[id],
            forall|id: u128| #[trigger]
                lb.contains_key(id) ==> 0 <= lb[id] < baseline@.len() && window_ids(
                    baseline@,
                )[lb[id]] == id,
            forall|k: int|
                0 <= k < baseline@.len() ==> #[trigger] lb.contains_key(
                    window_ids(baseline@)[k],
                ),
            forall|id: u128| #[trigger]
                lc.contains_key(id) ==> 0 <= lc[id] < compare@.len() && window_ids(
                    compare@,
                )[lc[id]] == id,
            sorted_by_name(disappeared@),
            sorted_by_name(persistent@),
            lists_exactly(
                disappeared@,
                settled_before(lb, i as int).difference(c.dom()),
                single_window_entry(b),
            ),
            lists_exactly(
                persistent@,
                settled_before(lb, i as int).intersect(c.dom()),
                both_windows_entry(b, c),
            ),
        decreases baseline@.len() - i,
    {
        let id = baseline[i].emitter_id;
        assert(window_ids(baseline@)[i as int] == id);
        let is_latest = match base_last.get(&id) {
            Some(p) => *p == i,
            None => false,
        };
        let ghost old_dis = disappeared@;
        let ghost old_per = persistent@;
        if is_latest {
            assert(b.contains_key(id) && b[id] == baseline@[i as int]);
            match compare_last.get(&id) {
                Some(j) => {
                    let j = *j;
                    assert(c.contains_key(id) && c[id] == compare@[j as int]);
                    let item = rf_persistent_of(&baseline[i], &compare[j]);
                    let pos = insert_by_name(&mut persistent, item);
                    proof {
                        lemma_lists_exactly_insert(
                            old_per,
                            settled_before(lb, i as int).intersect(c.dom()),
                            both_windows_entry(b, c),
                            pos as int,
                            item,
                        );
                        assert(settled_before(lb, i + 1).intersect(c.dom()) =~= settled_before(
                            lb,
                            i as int,
                        ).intersect(c.dom()).insert(id));
                        assert(settled_before(lb, i + 1).difference(c.dom()) =~= settled_before(
                            lb,
                            i as int,
                        ).difference(c.dom()));
                    }
                },
                None => {
                    assert(!c.contains_key(id));
                    let item = rf_emitter_of(&baseline[i]);
                    let pos = insert_by_name(&mut disappeared, item);
                    proof {
                        lemma_lists_exactly_insert(
                            old_dis,
                            settled_before(lb, i as int).difference(c.dom()),
                            single_window_entry(b),
                            pos as int,
                            item,
                        );
                        assert(settled_before(lb, i + 1).difference(c.dom()) =~= settled_before(
                            lb,
                            i as int,
                        ).difference(c.dom()).insert(id));
                        assert(settled_before(lb, i + 1).intersect(c.dom()) =~= settled_before(
                            lb,
                            i as int,
                        ).intersect(c.dom()));
                    }
                },
            }
        } else {
            proof {
                assert(settled_before(lb, i + 1) =~= settled_before(lb, i as int));
            }
        }
        i = i + 1;
    }
    proof {
        assert(settled_before(lb, baseline@.len() as int) =~= b.dom());
    }

    let mut j: usize = 0;
    while j < compare.len()
        invariant
            j <= compare@.len(),
            b == summary_by_id(baseline@),
            c == summary_by_id(compare@),
            lb == latest_index(window_ids(baseline@)),
            lc == latest_index(window_ids(compare@)),
            forall|id: u128| #[trigger]
                base_last@.contains_key(id) == lb.contains_key(id),
            forall|id: u128| #[trigger]
                compare_last@.contains_key(id) == lc.contains_key(id),
            forall|id: u128| #[trigger]
                compare_last@.contains_key(id) ==> compare_last@[id] as int == lc[id],
            forall|k: int|
                0 <= k < compare@.len() ==> #[trigger] lc.contains_key(window_ids(compare@)[k]),
            forall|id: u128| #[trigger]
                lc.contains_key(id) ==> 0 <= lc[id] < compare@.len() && window_ids(
                    compare@,
                )[lc[id]] == id,
            sorted_by_name(appeared@),
            lists_exactly(
                appeared@,
                settled_before(lc, j as int).difference(b.dom()),
                single_window_entry(c),
            ),
        decreases compare@.len() - j,
    {
        let id = compare[j].emitter_id;
        assert(window_ids(compare@)[j as int] == id);
        let is_latest = match compare_last.get(&id) {
            Some(p) => *p == j,
            None => false,
        };
        let ghost old_app = appeared@;
        if is_latest && !base_last.contains_key(&id) {
            assert(c.contains_key(id) && c[id] == compare@[j as int]);
            let item = rf_emitter_of(&compare[j]);
            let pos = insert_by_name(&mut appeared, item);
            proof {
                lemma_lists_exactly_insert(
                    old_app,
                    settled_before(lc, j as int).difference(b.dom()),
                    single_window_entry(c),
                    pos as int,
                    item,
                );
                assert(settled_before(lc, j + 1).difference(b.dom()) =~= settled_before(
                    lc,
                    j as int,
                ).difference(b.dom()).insert(id));
            }
        } else {
            proof {
                assert(settled_before(lc, j + 1).difference(b.dom()) =~= settled_before(
                    lc,
                    j as int,
                ).difference(b.dom()));
            }
        }
        j = j + 1;
    }
    proof {
        assert(settled_before(lc, compare@.len() as int) =~= c.dom());
    }

    RfDiff { appeared, disappeared, persistent }
}

/// Whether every emitter found in both windows has a count delta that fits an `i64`.
pub fn window_deltas_fit(baseline: &Vec<WindowEmitter>, compare: &Vec<WindowEmitter>) -> (r: bool)
    ensures
        r == deltas_fit(baseline@, compare@),
{
    let base_last = latest_positions(baseline);
    let compare_last = latest_positions(compare);
    let ghost b = summary_by_id(baseline@);
    let ghost c = summary_by_id(compare@);
    let ghost lb = latest_index(window_ids(baseline@));
    let ghost lc = latest_index(window_ids(compare@));
    proof {
        lemma_latest_index(window_ids(baseline@));
        lemma_latest_index(window_ids(compare@));
    }
    let mut i: usize = 0;
    while i < baseline.len()
        invariant
            i <= baseline@.len(),
            b == summary_by_id(baseline@),
            c == summary_by_id(compare@),
            lb == latest_index(window_ids(baseline@)),
            lc == latest_index(window_ids(compare@)),
            forall|id: u128| #[trigger]
                base_last@.contains_key(id) == lb.contains_key(id),
            forall|id: u128| #[trigger]
                base_last@.contains_key(id) ==> base_last@[id] as int == lb[id],
            forall|id: u128| #[trigger]
                compare_last@.contains_key(id) == lc.contains_key(id),
            forall|id: u128| #[trigger]
                compare_last@.contains_key(id) ==> compare_last@[id] as int == lc[id],
            forall|id: u128| #[trigger]
                lb.contains_key(id) ==> 0 <= lb[id] < baseline@.len() && window_ids(
                    baseline@,
                )[lb[id]] == id,
            forall|k: int|
                0 <= k < baseline@.len() ==> #[trigger] lb.contains_key(
                    window_ids(baseline@)[k],
                ),
            forall|id: u128| #[trigger]
                lc.contains_key(id) ==> 0 <= lc[id] < compare@.len() && window_ids(
                    compare@,
                )[lc[id]] == id,
            forall|id: u128|
                #![trigger b.contains_key(id), c.contains_key(id)]
                b.contains_key(id) && lb[id] < i && c.contains_key(id) ==> i64::MIN
                    <= c[id].emission_count - b[id].emission_count <= i64::MAX,
        decreases baseline@.len() - i,
    {
        let id = baseline[i].emitter_id;
        assert(window_ids(baseline@)[i as int] == id);
        let is_latest = match base_last.get(&id) {
            Some(p) => *p == i,
            None => false,
        };
        if is_latest {
            assert(b.contains_key(id) && b[id] == baseline@[i as int]);
            match compare_last.get(&id) {
                Some(j) => {
                    let j = *j;
                    assert(c.contains_key(id) && c[id] == compare@[j as int]);
                    if compare[j].emission_count.checked_sub(baseline[i].emission_count).is_none() {
                        return false;
                    }
                },
                None => {},
            }
        }
        i = i + 1;
    }
    true
}

/// The diff of the two windows, or `None` when some emitter found in both
/// has a count delta that does not fit an `i64`.
pub fn try_diff_windows(baseline: Vec<WindowEmitter>, compare: Vec<WindowEmitter>) -> (r: Option<
    RfDiff,
>)
    ensures
        r is Some <==> deltas_fit(baseline@, compare@),
        r matches Some(d) ==> is_window_diff(baseline@, compare@, d),
{
    if window_deltas_fit(&baseline, &compare) {
        Some(diff_windows(baseline, compare))
    } else {
        None
    }
}

impl From<WindowEmitter> for RfEmitter {
    fn from(w: WindowEmitter) -> (r: RfEmitter) {
        RfEmitter {
            emitter_id: w.emitter_id,
            name: w.name,
            emitter_type: w.emitter_type,
            emission_count: w.emission_count,
            first_seen: w.first_seen,
            last_seen: w.last_seen,
        }
    }
}

impl vstd::std_specs::convert::FromSpecImpl<WindowEmitter> for RfEmitter {
    open spec fn obeys_from_spec() -> bool {
        true
    }

    open spec fn from_spec(w: WindowEmitter) -> RfEmitter {
        as_rf_emitter(w)
    }
}

proof fn lemma_lists_exactly_ids<T: RfRecord>(s: Seq<T>, ids: Set<u128>, entry: spec_fn(u128) -> T)
    requires
        lists_exactly(s, ids, entry),
    ensures
        forall|id: u128| #[trigger] lists_id(s, id) <==> ids.contains(id),
{
    assert forall|id: u128| #[trigger] lists_id(s, id) implies ids.contains(id) by {
        let k = choose|k: int| 0 <= k < s.len() && #[trigger] s[k].record_id() == id;
    }
}

/// Every emitter of the baseline window is reported exactly once, as gone
/// dark or as persistent; every emitter of the compare window exactly once,
/// as newly appeared or as persistent; and no emitter is reported in two lists.
pub proof fn lemma_diff_partitions_windows(
    baseline: Seq<WindowEmitter>,
    compare: Seq<WindowEmitter>,
    d: RfDiff,
)
    requires
        is_window_diff(baseline, compare, d),
    ensures
        forall|id: u128|
            summary_by_id(baseline).contains_key(id) <==> (#[trigger] lists_id(d.disappeared@, id)
                || #[trigger] lists_id(d.persistent@, id)),
        forall|id: u128|
            summary_by_id(compare).contains_key(id) <==> (#[trigger] lists_id(d.appeared@, id)
                || #[trigger] lists_id(d.persistent@, id)),
        forall|id: u128|
            !(#[trigger] lists_id(d.appeared@, id) && #[trigger] lists_id(d.disappeared@, id)),
        forall|id: u128|
            !(#[trigger] lists_id(d.appeared@, id) && #[trigger] lists_id(d.persistent@, id)),
        forall|id: u128|
            !(#[trigger] lists_id(d.disappeared@, id) && #[trigger] lists_id(d.persistent@, id)),
{
    let b = summary_by_id(baseline);
    let c = summary_by_id(compare);
    lemma_lists_exactly_ids(d.appeared@, c.dom().difference(b.dom()), single_window_entry(c));
    lemma_lists_exactly_ids(d.disappeared@, b.dom().difference(c.dom()), single_window_entry(b));
    lemma_lists_exactly_ids(d.persistent@, b.dom().intersect(c.dom()), both_windows_entry(b, c));
}

/// Diffing the windows the other way round swaps `appeared` and
/// `disappeared` entry for entry, keeps the same persistent emitters, swaps
/// their two counts and negates their deltas.
pub proof fn lemma_diff_reversed(
    baseline: Seq<WindowEmitter>,
    compare: Seq<WindowEmitter>,
    forward: RfDiff,
    backward: RfDiff,
)
    requires
        deltas_fit(baseline, compare),
        deltas_fit(compare, baseline),
        is_window_diff(baseline, compare, forward),
        is_window_diff(compare, baseline, backward),
    ensures
        forall|id: u128|
            #[trigger] lists_id(forward.appeared@, id) <==> #[trigger] lists_id(
                backward.disappeared@,
                id,
            ),
        forall|id: u128|
            #[trigger] lists_id(forward.disappeared@, id) <==> #[trigger] lists_id(
                backward.appeared@,
                id,
            ),
        forall|id: u128|
            #[trigger] lists_id(forward.persistent@, id) <==> #[trigger] lists_id(
                backward.persistent@,
                id,
            ),
        forall|k1: int, k2: int|
            0 <= k1 < forward.appeared@.len() && 0 <= k2 < backward.disappeared@.len()
                && #[trigger] forward.appeared@[k1].emitter_id
                == #[trigger] backward.disappeared@[k2].emitter_id ==> forward.appeared@[k1]
                == backward.disappeared@[k2],
        forall|k1: int, k2: int|
            0 <= k1 < forward.disappeared@.len() && 0 <= k2 < backward.appeared@.len()
                && #[trigger] forward.disappeared@[k1].emitter_id
                == #[trigger] backward.appeared@[k2].emitter_id ==> forward.disappeared@[k1]
                == backward.appeared@[k2],
        forall|k1: int, k2: int|
            0 <= k1 < forward.persistent@.len() && 0 <= k2 < backward.persistent@.len()
                && #[trigger] forward.persistent@[k1].emitter_id
                == #[trigger] backward.persistent@[k2].emitter_id ==> {
                &&& forward.persistent@[k1].baseline_count == backward.persistent@[k2].compare_count
                &&& forward.persistent@[k1].compare_count == backward.persistent@[k2].baseline_count
                &&& forward.persistent@[k1].count_delta == -backward.persistent@[k2].count_delta
                &&& forward.persistent@[k1].baseline_avg_dbm
                    == backward.persistent@[k2].compare_avg_dbm
                &&& forward.persistent@[k1].compare_avg_dbm
                    == backward.persistent@[k2].baseline_avg_dbm
            },
{
    let b = summary_by_id(baseline);
    let c = summary_by_id(compare);
    lemma_lists_exactly_ids(forward.appeared@, c.dom().difference(b.dom()), single_window_entry(c));
    lemma_lists_exactly_ids(
        forward.disappeared@,
        b.dom().difference(c.dom()),
        single_window_entry(b),
    );
    lemma_lists_exactly_ids(
        forward.persistent@,
        b.dom().intersect(c.dom()),
        both_windows_entry(b, c),
    );
    lemma_lists_exactly_ids(
        backward.appeared@,
        b.dom().difference(c.dom()),
        single_window_entry(b),
    );
    lemma_lists_exactly_ids(
        backward.disappeared@,
        c.dom().difference(b.dom()),
        single_window_entry(c),
    );
    lemma_lists_exactly_ids(
        backward.persistent@,
        c.dom().intersect(b.dom()),
        both_windows_entry(c, b),
    );
    assert(b.dom().intersect(c.dom()) =~= c.dom().intersect(b.dom()));
    assert forall|k1: int, k2: int|
        0 <= k1 < forward.appeared@.len() && 0 <= k2 < backward.disappeared@.len()
            && #[trigger] forward.appeared@[k1].emitter_id
            == #[trigger] backward.disappeared@[k2].emitter_id implies forward.appeared@[k1]
        == backward.disappeared@[k2] by {
        assert(forward.appeared@[k1].record_id() == forward.appeared@[k1].emitter_id);
        assert(backward.disappeared@[k2].record_id() == backward.disappeared@[k2].emitter_id);
    }
    assert forall|k1: int, k2: int|
        0 <= k1 < forward.disappeared@.len() && 0 <= k2 < backward.appeared@.len()
            && #[trigger] forward.disappeared@[k1].emitter_id
            == #[trigger] backward.appeared@[k2].emitter_id implies forward.disappeared@[k1]
        == backward.appeared@[k2] by {
        assert(forward.disappeared@[k1].record_id() == forward.disappeared@[k1].emitter_id);
        assert(backward.appeared@[k2].record_id() == backward.appeared@[k2].emitter_id);
    }
    assert forall|k1: int, k2: int|
        0 <= k1 < forward.persistent@.len() && 0 <= k2 < backward.persistent@.len()
            && #[trigger] forward.persistent@[k1].emitter_id
            == #[trigger] backward.persistent@[k2].emitter_id implies {
        &&& forward.persistent@[k1].baseline_count == backward.persistent@[k2].compare_count
        &&& forward.persistent@[k1].compare_count == backward.persistent@[k2].baseline_count
        &&& forward.persistent@[k1].count_delta == -backward.persistent@[k2].count_delta
        &&& forward.persistent@[k1].baseline_avg_dbm == backward.persistent@[k2].compare_avg_dbm
        &&& forward.persistent@[k1].compare_avg_dbm == backward.persistent@[k2].baseline_avg_dbm
    } by {
        let id = forward.persistent@[k1].emitter_id;
        assert(forward.persistent@[k1].record_id() == id);
        assert(backward.persistent@[k2].record_id() == id);
        assert(b.contains_key(id) && c.contains_key(id));
    }
}

/// A window diffed against itself reports nothing appeared and nothing gone
/// dark; every emitter persists with equal counts and a zero delta.
pub proof fn lemma_diff_with_itself(window: Seq<WindowEmitter>, d: RfDiff)
    requires
        is_window_diff(window, window, d),
    ensures
        d.appeared@.len() == 0,
        d.disappeared@.len() == 0,
        forall|id: u128|
            summary_by_id(window).contains_key(id) <==> #[trigger] lists_id(d.persistent@, id),
        forall|k: int|
            0 <= k < d.persistent@.len() ==> (#[trigger] d.persistent@[k]).count_delta == 0
                && d.persistent@[k].baseline_count == d.persistent@[k].compare_count,
{
    let w = summary_by_id(window);
    lemma_lists_exactly_ids(d.persistent@, w.dom().intersect(w.dom()), both_windows_entry(w, w));
    if d.appeared@.len() > 0 {
        assert(d.appeared@[0].record_id() == d.appeared@[0].emitter_id);
    }
    if d.disappeared@.len() > 0 {
        assert(d.disappeared@[0].record_id() == d.disappeared@[0].emitter_id);
    }
    assert forall|k: int| 0 <= k < d.persistent@.len() implies (#[trigger] d.persistent@[
        k
    ]).count_delta == 0 && d.persistent@[k].baseline_count == d.persistent@[k].compare_count by {
        assert(d.persistent@[k].record_id() == d.persistent@[k].emitter_id);
    }
}

} // verus!
