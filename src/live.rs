//! Scheduled classroom live broadcasts and the choice of the one running.

use crate::aggregate::{keys_unique, upsert, upsert_spec};
use vstd::prelude::*;

verus! {

/// One scheduled classroom broadcast.
#[derive(Clone, Debug)]
pub struct Live {
    pub place: String,
    pub id: i64,
    /// Day of the week, Monday = 1 to Sunday = 7.
    pub week_day: u32,
    /// The period the broadcast starts in.
    pub jie: i32,
}

impl Live {
    pub fn new(place: String, id: i64, week_day: u32, jie: i32) -> (r: Live)
        ensures
            r.place == place,
            r.id == id,
            r.week_day == week_day,
            r.jie == jie,
    {
        Live { place, id, week_day, jie }
    }

    pub fn get_id(&self) -> (r: i64)
        ensures
            r == self.id,
    {
        self.id
    }

    pub fn get_week_day(&self) -> (r: u32)
        ensures
            r == self.week_day,
    {
        self.week_day
    }

    pub fn get_jie(&self) -> (r: i32)
        ensures
            r == self.jie,
    {
        self.jie
    }

    pub fn place(&self) -> (r: &str)
        ensures
            r@ == self.place@,
    {
        self.place.as_str()
    }

    /// A field-by-field copy.
    pub fn copied(&self) -> (r: Live)
        ensures
            r == *self,
    {
        Live { place: self.place.clone(), id: self.id, week_day: self.week_day, jie: self.jie }
    }
}

/// `l` is on `week_day` and starts in period `jie` or later.
pub open spec fn qualifies(l: Live, week_day: u32, jie: i32) -> bool {
    l.week_day == week_day && l.jie >= jie
}

/// `k` is the first of the qualifying broadcasts with the earliest period.
pub open spec fn is_selected(lives: Seq<Live>, week_day: u32, jie: i32, k: int) -> bool {
    &&& 0 <= k < lives.len()
    &&& qualifies(lives[k], week_day, jie)
    &&& forall|m: int|
        0 <= m < lives.len() && qualifies(#[trigger] lives[m], week_day, jie) ==> lives[m].jie
            >= lives[k].jie
    &&& forall|m: int|
        0 <= m < k && qualifies(#[trigger] lives[m], week_day, jie) ==> lives[m].jie
            > lives[k].jie
}

/// Some broadcast qualifies.
pub open spec fn any_qualifies(lives: Seq<Live>, week_day: u32, jie: i32) -> bool {
    exists|m: int| 0 <= m < lives.len() && qualifies(#[trigger] lives[m], week_day, jie)
}

/// The position of the broadcast that runs on `week_day` from period `jie`
/// on: among those on that day starting in period `jie` or later, the one
/// with the earliest period, the first listed on a tie. `None` when no
/// class is scheduled.
pub fn select_live_index(lives: &Vec<Live>, week_day: u32, jie: i32) -> (r: Option<usize>)
    ensures
        r is None <==> !any_qualifies(lives@, week_day, jie),
        r matches Some(k) ==> is_selected(lives@, week_day, jie, k as int),
{
    let mut best: Option<usize> = None;
    let mut i: usize = 0;
    while i < lives.len()
        invariant
            i <= lives@.len(),
            best is None <==> !any_qualifies(lives@.subrange(0, i as int), week_day, jie),
            best matches Some(k) ==> is_selected(lives@.subrange(0, i as int), week_day, jie, k as int),
            best matches Some(k) ==> k < i,
        decreases lives@.len() - i,
    {
        let ghost pre = lives@.subrange(0, i as int);
        let ghost next = lives@.subrange(0, i + 1);
        assert forall|m: int| 0 <= m < i implies next[m] == pre[m] by {}
        assert(next[i as int] == lives@[i as int]);
        let l = &lives[i];
        if l.week_day == week_day && l.jie >= jie {
            let better = match best {
                None => true,
                Some(k) => l.jie < lives[k].jie,
            };
            if better {
                proof {
                    assert forall|m: int|
                        0 <= m < i + 1 && qualifies(#[trigger] next[m], week_day, jie) implies next[m].jie
                        >= next[i as int].jie by {
                        if m < i {
                            assert(any_qualifies(pre, week_day, jie));
                        }
                    }
                }
                best = Some(i);
            } else {
                proof {
                    let k = best->0;
                    assert(pre[k as int] == next[k as int]);
                }
            }
        } else {
            proof {
                if best is None {
                    assert forall|m: int| 0 <= m < next.len() implies !qualifies(
                        #[trigger] next[m],
                        week_day,
                        jie,
                    ) by {
                        if m < i {
                            assert(!qualifies(pre[m], week_day, jie));
                        }
                    }
                } else {
                    let k = best->0;
                    assert(pre[k as int] == next[k as int]);
                }
            }
        }
        i = i + 1;
    }
    assert(lives@.subrange(0, lives@.len() as int) == lives@);
    best
}

/// The broadcast that runs on `week_day` from period `jie` on, as
/// `select_live_index` picks it.
pub fn select_live(lives: &Vec<Live>, week_day: u32, jie: i32) -> (r: Option<Live>)
    ensures
        r is None <==> !any_qualifies(lives@, week_day, jie),
        r matches Some(l) ==> exists|k: int|
            is_selected(lives@, week_day, jie, k) && #[trigger] lives@[k] == l,
{
    match select_live_index(lives, week_day, jie) {
        Some(k) => Some(lives[k].copied()),
        None => None,
    }
}

/// Each place with the id of the last broadcast listed there, places in
/// order of first mention.
pub open spec fn place_ids_of(lives: Seq<Live>) -> Seq<(String, i64)>
    decreases lives.len(),
{
    if lives.len() == 0 {
        Seq::empty()
    } else {
        upsert_spec(place_ids_of(lives.drop_last()), lives.last().place, lives.last().id)
    }
}

impl Live {
    /// The place-to-id table of a week's broadcasts.
    pub fn place_ids(lives: &Vec<Live>) -> (r: Vec<(String, i64)>)
        ensures
            keys_unique(r@),
            r@ == place_ids_of(lives@),
    {
        let mut r: Vec<(String, i64)> = Vec::new();
        let mut i: usize = 0;
        while i < lives.len()
            invariant
                i <= lives@.len(),
                keys_unique(r@),
                r@ == place_ids_of(lives@.subrange(0, i as int)),
            decreases lives@.len() - i,
        {
            assert(lives@.subrange(0, i + 1).drop_last() == lives@.subrange(0, i as int));
            upsert(&mut r, lives[i].place.clone(), lives[i].id);
            i = i + 1;
        }
        assert(lives@.subrange(0, lives@.len() as int) == lives@);
        r
    }
}

} // verus!
