//! Judging districts: a district fails when its convex hull is more than
//! 1.4 times as large as the district itself.

use vstd::prelude::*;
use std::collections::BTreeMap;
use crate::area::{Area, area, doubled_area, lemma_shoelace_bound};
use crate::point::Point;
use crate::queue::{queue_contents, queue_items, queue_new, queue_push};
use crate::quickhull::{hull_of, quick_hull};
use crate::wide::Wide;

verus! {

/// The threshold 1.4 as the fraction `THRESHOLD_NUM / THRESHOLD_DEN`.
pub const THRESHOLD_NUM: u128 = 7;

pub const THRESHOLD_DEN: u128 = 5;

/// A district: a number that stands for its name, and the ring of its boundary.
pub struct District {
    pub id: u64,
    pub ring: Vec<Point>,
}

/// The two areas by which a district is judged.
#[derive(Clone, Copy, Debug, PartialEq, Eq, Structural)]
pub struct Measure {
    /// The area of the district.
    pub area: Area,
    /// The area of its convex hull.
    pub hull_area: Area,
}

/// The outcome of an analysis.
pub struct Analysis {
    /// The areas of each district, by its number.
    pub measures: BTreeMap<u64, Measure>,
    /// The districts that fail, each once, in no particular order.
    pub failed: Vec<u64>,
    /// The districts that pass, each once, in no particular order.
    pub passed: Vec<u64>,
}

/// The areas of the ring and of its hull.
pub open spec fn measure_of(ring: Seq<Point>) -> Measure {
    Measure {
        area: Area { doubled: doubled_area(ring) as u128 },
        hull_area: Area { doubled: doubled_area(hull_of(ring)) as u128 },
    }
}

/// The hull is more than 1.4 times as large as the district. A district
/// without area fails as soon as its hull has any.
pub open spec fn fails(m: Measure) -> bool {
    THRESHOLD_DEN * m.hull_area.doubled > THRESHOLD_NUM * m.area.doubled
}

/// The measures of the districts by number; of several districts with one
/// number the last counts.
pub open spec fn measured(districts: Seq<District>) -> Map<u64, Measure>
    decreases districts.len(),
{
    if districts.len() == 0 {
        Map::empty()
    } else {
        measured(districts.drop_last()).insert(
            districts.last().id,
            measure_of(districts.last().ring@),
        )
    }
}

/// The district with this number was measured, and fails or passes as `failing` says.
pub open spec fn judged(measures: Map<u64, Measure>, id: u64, failing: bool) -> bool {
    measures.contains_key(id) && fails(measures[id]) == failing
}

/// Measures a district: the area of its ring and the area of the ring's hull.
pub fn measure(ring: &[Point]) -> (m: Measure)
    ensures
        m == measure_of(ring@),
{
    let hull: Vec<Point> = quick_hull(ring);
    proof {
        lemma_shoelace_bound(ring@);
        lemma_shoelace_bound(hull@);
    }
    Measure { area: area(ring), hull_area: area(hull.as_slice()) }
}

/// Tells whether a district fails: whether its hull is more than 1.4 times
/// as large as the district.
pub fn exceeds_threshold(m: &Measure) -> (failing: bool)
    ensures
        failing == fails(*m),
{
    let district: Wide = Wide::product(m.area.doubled, THRESHOLD_NUM);
    let hull: Wide = Wide::product(m.hull_area.doubled, THRESHOLD_DEN);
    district.less_than(&hull)
}

/// Measures every district and sorts the districts into those that fail
/// and those that pass.
pub fn analyze(districts: &[District]) -> (outcome: Analysis)
    ensures
        outcome.measures@ == measured(districts@),
        outcome.failed@.no_duplicates(),
        outcome.passed@.no_duplicates(),
        forall|id: u64| outcome.failed@.contains(id) <==> judged(measured(districts@), id, true),
        forall|id: u64| outcome.passed@.contains(id) <==> judged(measured(districts@), id, false),
{
    broadcast use vstd::std_specs::btree::group_btree_axioms;

    let n: usize = districts.len();
    let mut measures: BTreeMap<u64, Measure> = BTreeMap::new();
    let mut order: Vec<u64> = Vec::new();
    let mut i: usize = 0;
    assert(districts@.take(0).len() == 0);
    while i < n
        invariant
            i <= n,
            n == districts.len(),
            measures@ == measured(districts@.take(i as int)),
            order@.no_duplicates(),
            forall|id: u64| order@.contains(id) <==> measures@.contains_key(id),
        decreases n - i,
    {
        let m: Measure = measure(districts[i].ring.as_slice());
        let id: u64 = districts[i].id;
        let ghost before = order@;
        proof {
            assert(districts@.take(i + 1).drop_last() =~= districts@.take(i as int));
        }
        let prev: Option<Measure> = measures.insert(id, m);
        if prev.is_none() {
            order.push(id);
            proof {
                assert(!before.contains(id));
                assert forall|a: int, b: int|
                    0 <= a < order@.len() && 0 <= b < order@.len() && a != b implies order@[a]
                    != order@[b] by {
                    if a < before.len() && b < before.len() {
                        assert(before[a] != before[b]);
                    } else if a < before.len() {
                        assert(before.contains(before[a]));
                    } else {
                        assert(before.contains(before[b]));
                    }
                }
                assert forall|other: u64| order@.contains(other) <==> measures@.contains_key(
                    other,
                ) by {
                    if before.contains(other) {
                        let k = choose|k: int| 0 <= k < before.len() && before[k] == other;
                        assert(order@[k] == other);
                    }
                    if other == id {
                        assert(order@[before.len() as int] == id);
                    }
                }
            }
        }
        i = i + 1;
    }
    assert(districts@.take(n as int) =~= districts@);
    let mut failed_queue = queue_new();
    let mut passed_queue = queue_new();
    let mut j: usize = 0;
    while j < order.len()
        invariant
            j <= order.len(),
            measures@ == measured(districts@),
            order@.no_duplicates(),
            forall|id: u64| order@.contains(id) <==> measures@.contains_key(id),
            forall|id: u64|
                queue_contents(failed_queue).contains_key(id) <==> order@.take(j as int).contains(
                    id,
                ) && judged(measures@, id, true),
            forall|id: u64|
                queue_contents(passed_queue).contains_key(id) <==> order@.take(j as int).contains(
                    id,
                ) && judged(measures@, id, false),
        decreases order.len() - j,
    {
        let id: u64 = order[j];
        assert(order@.contains(id));
        let found: Option<&Measure> = measures.get(&id);
        let m: Measure = *found.unwrap();
        proof {
            assert(order@.take(j + 1) =~= order@.take(j as int).push(id));
            assert forall|other: u64|
                order@.take(j + 1).contains(other) <==> order@.take(j as int).contains(other)
                    || other == id by {
                if order@.take(j as int).contains(other) {
                    let k = choose|k: int|
                        0 <= k < order@.take(j as int).len() && order@.take(j as int)[k] == other;
                    assert(order@.take(j + 1)[k] == other);
                }
                if other == id {
                    assert(order@.take(j + 1)[j as int] == id);
                }
            }
        }
        if exceeds_threshold(&m) {
            queue_push(&mut failed_queue, id, id);
        } else {
            queue_push(&mut passed_queue, id, id);
        }
        j = j + 1;
    }
    assert(order@.take(j as int) =~= order@);
    let failed: Vec<u64> = queue_items(&failed_queue);
    let passed: Vec<u64> = queue_items(&passed_queue);
    proof {
        assert forall|id: u64| failed@.contains(id) <==> judged(measures@, id, true) by {
            assert(failed@.contains(id) <==> failed@.to_set().contains(id));
        }
        assert forall|id: u64| passed@.contains(id) <==> judged(measures@, id, false) by {
            assert(passed@.contains(id) <==> passed@.to_set().contains(id));
        }
    }
    Analysis { measures, failed, passed }
}

} // verus!
