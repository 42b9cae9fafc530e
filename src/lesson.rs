//! Recorded lessons of a course.

use crate::aggregate::{map_sort_by_key, sorted_by_key, with_key};
use vstd::prelude::*;

verus! {

/// One recorded lesson: when it started and its live broadcast id.
#[derive(Clone, Copy, Debug, PartialEq, Eq)]
pub struct Lesson {
    pub start_time: i64,
    pub id: i64,
}

impl Lesson {
    pub fn new(start_time: i64, id: i64) -> (r: Lesson)
        ensures
            r.start_time == start_time,
            r.id == id,
    {
        Lesson { start_time, id }
    }

    pub fn get_start_time(&self) -> (r: i64)
        ensures
            r == self.start_time,
    {
        self.start_time
    }

    pub fn get_live_id(&self) -> (r: i64)
        ensures
            r == self.id,
    {
        self.id
    }

    /// The broadcast ids of a course's lessons, earliest lesson first;
    /// lessons that started at the same time keep their listed order.
    pub fn ids_by_start_time(lessons: Vec<Lesson>) -> (r: Vec<i64>)
        ensures
            exists|s: Seq<(i64, i64)>|
                sorted_by_key(s) && (forall|t: i64|
                    #[trigger] with_key(s, t) == with_key(
                        lessons@.map_values(|l: Lesson| (l.start_time, l.id)),
                        t,
                    )) && s.to_multiset() == lessons@.map_values(
                    |l: Lesson| (l.start_time, l.id),
                ).to_multiset() && r@ == s.map_values(|p: (i64, i64)| p.1),
    {
        let mut pairs: Vec<(i64, i64)> = Vec::new();
        let mut i: usize = 0;
        while i < lessons.len()
            invariant
                i <= lessons@.len(),
                pairs@ == lessons@.subrange(0, i as int).map_values(
                    |l: Lesson| (l.start_time, l.id),
                ),
            decreases lessons@.len() - i,
        {
            pairs.push((lessons[i].start_time, lessons[i].id));
            i = i + 1;
            proof {
                assert(pairs@ =~= lessons@.subrange(0, i as int).map_values(
                    |l: Lesson| (l.start_time, l.id),
                ));
            }
        }
        assert(lessons@.subrange(0, lessons@.len() as int) == lessons@);
        let sorted = map_sort_by_key(pairs);
        let mut ids: Vec<i64> = Vec::new();
        let mut j: usize = 0;
        while j < sorted.len()
            invariant
                j <= sorted@.len(),
                ids@ == sorted@.subrange(0, j as int).map_values(|p: (i64, i64)| p.1),
            decreases sorted@.len() - j,
        {
            ids.push(sorted[j].1);
            j = j + 1;
            proof {
                assert(ids@ =~= sorted@.subrange(0, j as int).map_values(|p: (i64, i64)| p.1));
            }
        }
        assert(sorted@.subrange(0, sorted@.len() as int) == sorted@);
        ids
    }
}

} // verus!
