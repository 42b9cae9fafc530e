//! Deduplicated enrichment and the joining of its results with the
//! sessions that asked for them.

use crate::room::Room;
use crate::text::trimmed;
use crate::video::VideoPath;
use vstd::multiset::Multiset;
use vstd::prelude::*;

verus! {

broadcast use vstd::seq_lib::group_to_multiset_ensures;

/// The keys never decrease along `s`.
pub open spec fn sorted_by_key<V>(s: Seq<(i64, V)>) -> bool {
    forall|i: int, j: int| 0 <= i < j < s.len() ==> (#[trigger] s[i]).0 <= (#[trigger] s[j]).0
}

/// The entries of `s` with key `key`, in their order in `s`.
pub open spec fn with_key<V>(s: Seq<(i64, V)>, key: i64) -> Seq<(i64, V)> {
    s.filter(|e: (i64, V)| e.0 == key)
}

proof fn lemma_with_key_one<V>(e: (i64, V), key: i64)
    ensures
        with_key(seq![e], key) == (if e.0 == key { seq![e] } else { Seq::empty() }),
{
    reveal_with_fuel(Seq::filter, 2);
    assert(seq![e].drop_last() =~= Seq::<(i64, V)>::empty());
}

proof fn lemma_with_key_none<V>(a: Seq<(i64, V)>, key: i64)
    requires
        forall|i: int| 0 <= i < a.len() ==> (#[trigger] a[i]).0 != key,
    ensures
        with_key(a, key) == Seq::<(i64, V)>::empty(),
    decreases a.len(),
{
    reveal(Seq::filter);
    if a.len() > 0 {
        lemma_with_key_none(a.drop_last(), key);
    }
}

proof fn lemma_stable_step<V>(prev: Seq<(i64, V)>, before: Seq<(i64, V)>, m: int, entries: Seq<(i64, V)>)
    requires
        0 <= m < before.len(),
        forall|k: int| 0 <= k < m ==> before[m].0 < (#[trigger] before[k]).0,
        forall|key: i64| #[trigger] with_key(prev, key) + with_key(before, key) == with_key(entries, key),
    ensures
        forall|key: i64| #[trigger] with_key(prev.push(before[m]), key) + with_key(before.remove(m), key) == with_key(entries, key),
{
    let e = before[m];
    let a = before.subrange(0, m as int);
    let b = before.subrange(m + 1, before.len() as int);
    assert(before =~= a + seq![e] + b);
    assert(before.remove(m) =~= a + b);
    assert(prev.push(e) =~= prev + seq![e]);
    assert forall|key: i64| #[trigger] with_key(prev.push(e), key) + with_key(before.remove(m), key) == with_key(
        entries,
        key,
    ) by {
        let p = |x: (i64, V)| x.0 == key;
        Seq::filter_distributes_over_add(a + seq![e], b, p);
        Seq::filter_distributes_over_add(a, seq![e], p);
        Seq::filter_distributes_over_add(a, b, p);
        Seq::filter_distributes_over_add(prev, seq![e], p);
        lemma_with_key_one(e, key);
        assert(with_key(before, key) == with_key(a, key) + with_key(seq![e], key) + with_key(b, key));
        if e.0 == key {
            assert forall|i: int| 0 <= i < a.len() implies (#[trigger] a[i]).0 != key by {
                assert(a[i] == before[i]);
            }
            lemma_with_key_none(a, key);
            assert(with_key(a, key) + with_key(seq![e], key) + with_key(b, key) =~= seq![e] + with_key(b, key));
            assert(with_key(a, key) + with_key(b, key) =~= with_key(b, key));
            assert(with_key(prev, key) + seq![e] + with_key(b, key) =~= with_key(prev, key) + (seq![e] + with_key(b, key)));
        } else {
            assert(with_key(a, key) + with_key(seq![e], key) + with_key(b, key) =~= with_key(a, key) + with_key(b, key));
            assert(with_key(prev, key) + Seq::<(i64, V)>::empty() =~= with_key(prev, key));
        }
        assert(with_key(prev, key) + with_key(before, key) == with_key(entries, key));
    }
}

/// The entries of `entries`, reordered so that their keys never decrease;
/// entries with equal keys keep their order.
pub fn map_sort_by_key<V>(entries: Vec<(i64, V)>) -> (r: Vec<(i64, V)>)
    ensures
        sorted_by_key(r@),
        forall|key: i64| #[trigger] with_key(r@, key) == with_key(entries@, key),
        r@.to_multiset() == entries@.to_multiset(),
{
    let mut rest = entries;
    let mut out: Vec<(i64, V)> = Vec::new();
    while rest.len() > 0
        invariant
            sorted_by_key(out@),
            out@.to_multiset().add(rest@.to_multiset()) == entries@.to_multiset(),
            forall|key: i64| #[trigger] with_key(out@, key) + with_key(rest@, key) == with_key(entries@, key),
            forall|i: int, k: int|
                0 <= i < out@.len() && 0 <= k < rest@.len() ==> (#[trigger] out@[i]).0 <= (
                #[trigger] rest@[k]).0,
        decreases rest@.len(),
    {
        let mut m: usize = 0;
        let mut j: usize = 1;
        while j < rest.len()
            invariant
                1 <= j <= rest@.len(),
                m < j,
                forall|k: int| 0 <= k < j ==> rest@[m as int].0 <= (#[trigger] rest@[k]).0,
                forall|k: int| 0 <= k < m ==> rest@[m as int].0 < (#[trigger] rest@[k]).0,
            decreases rest@.len() - j,
        {
            if rest[j].0 < rest[m].0 {
                m = j;
            }
            j = j + 1;
        }
        let ghost before = rest@;
        let e = rest.remove(m);
        proof {
            assert forall|k: int| 0 <= k < rest@.len() implies e.0 <= (#[trigger] rest@[k]).0 by {
                if k < m {
                    assert(rest@[k] == before[k]);
                } else {
                    assert(rest@[k] == before[k + 1]);
                }
            }
            assert forall|i: int, k: int|
                0 <= i < out@.len() && 0 <= k < rest@.len() implies (#[trigger] out@[i]).0 <= (
                #[trigger] rest@[k]).0 by {
                if k < m {
                    assert(rest@[k] == before[k]);
                } else {
                    assert(rest@[k] == before[k + 1]);
                }
            }
            assert(out@.push(e).to_multiset() == out@.to_multiset().insert(e));
            assert(before.remove(m as int).to_multiset() == before.to_multiset().remove(e));
        }
        let ghost prev = out@;
        out.push(e);
        proof {
            lemma_stable_step(prev, before, m as int, entries@);
            assert(out@ == prev.push(e));
            assert(out@.to_multiset().add(rest@.to_multiset()) =~= entries@.to_multiset());
            assert forall|i: int, k: int|
                0 <= i < out@.len() && 0 <= k < rest@.len() implies (#[trigger] out@[i]).0 <= (
                #[trigger] rest@[k]).0 by {
                if i < prev.len() {
                    assert(out@[i] == prev[i]);
                }
            }
            assert forall|i: int, j: int| 0 <= i < j < out@.len() implies (#[trigger] out@[i]).0
                <= (#[trigger] out@[j]).0 by {
                if j < prev.len() {
                    assert(out@[i] == prev[i] && out@[j] == prev[j]);
                } else {
                    assert(out@[i] == prev[i]);
                    assert(before.contains(e));
                }
            }
        }
    }
    proof {
        assert forall|key: i64| #[trigger] with_key(out@, key) == with_key(entries@, key) by {
            lemma_with_key_none(rest@, key);
            assert(with_key(out@, key) + Seq::<(i64, V)>::empty() =~= with_key(out@, key));
        }
        assert(rest@.to_multiset() =~= Multiset::empty());
        assert(out@.to_multiset().add(Multiset::empty()) =~= out@.to_multiset());
    }
    out
}

/// The distinct live ids that the sessions' candidates reference.
pub open spec fn live_id_set(cands: Seq<Option<i64>>) -> Set<i64> {
    Set::new(|id: i64| exists|k: int| 0 <= k < cands.len() && cands[k] == Some(id))
}

/// The distinct live ids among `cands`, each once, in order of first
/// mention: one room and stream lookup is owed for each.
pub fn distinct_live_ids(cands: &Vec<Option<i64>>) -> (r: Vec<i64>)
    ensures
        r@.no_duplicates(),
        r@.to_set() == live_id_set(cands@),
        r@.len() == live_id_set(cands@).len(),
{
    let mut r: Vec<i64> = Vec::new();
    let mut i: usize = 0;
    while i < cands.len()
        invariant
            i <= cands@.len(),
            r@.no_duplicates(),
            r@.to_set() == live_id_set(cands@.subrange(0, i as int)),
        decreases cands@.len() - i,
    {
        let ghost pre = cands@.subrange(0, i as int);
        let ghost next = cands@.subrange(0, i + 1);
        if let Some(id) = cands[i] {
            let mut seen = false;
            let mut j: usize = 0;
            while j < r.len()
                invariant
                    j <= r@.len(),
                    seen <==> exists|m: int| 0 <= m < j && r@[m] == id,
                decreases r@.len() - j,
            {
                if r[j] == id {
                    seen = true;
                }
                j = j + 1;
            }
            let ghost old_r = r@;
            if !seen {
                r.push(id);
                proof {
                    assert forall|a: int, b: int| 0 <= a < b < r@.len() implies r@[a] != r@[b] by {
                        if b == old_r.len() {
                            assert(r@[a] == old_r[a]);
                        }
                    }
                }
            }
            proof {
                assert(r@.to_set() =~= live_id_set(next)) by {
                    assert forall|x: i64| live_id_set(next).contains(x) implies r@.to_set().contains(x) by {
                        let k = choose|k: int| 0 <= k < next.len() && next[k] == Some(x);
                        if k < i {
                            assert(pre[k] == next[k]);
                            assert(live_id_set(pre).contains(x));
                            assert(old_r.to_set().contains(x));
                            assert(old_r.contains(x));
                            let m = choose|m: int| 0 <= m < old_r.len() && old_r[m] == x;
                            assert(r@[m] == x);
                        } else {
                            if seen {
                                let m = choose|m: int| 0 <= m < j && r@[m] == id;
                                assert(r@.contains(x));
                            } else {
                                assert(r@[r@.len() - 1] == x);
                                assert(r@.contains(x));
                            }
                        }
                    }
                    assert forall|x: i64| r@.to_set().contains(x) implies live_id_set(next).contains(x) by {
                        assert(r@.contains(x));
                        let m = choose|m: int| 0 <= m < r@.len() && r@[m] == x;
                        if m < old_r.len() {
                            assert(old_r[m] == x);
                            assert(old_r.to_set().contains(x));
                            assert(live_id_set(pre).contains(x));
                            let k = choose|k: int| 0 <= k < pre.len() && pre[k] == Some(x);
                            assert(next[k] == pre[k]);
                        } else {
                            assert(next[i as int] == Some(x));
                        }
                    }
                }
            }
        } else {
            proof {
                assert(r@.to_set() =~= live_id_set(next)) by {
                    assert forall|x: i64| live_id_set(next).contains(x) implies live_id_set(pre).contains(x) by {
                        let k = choose|k: int| 0 <= k < next.len() && next[k] == Some(x);
                        assert(pre[k] == next[k]);
                    }
                    assert forall|x: i64| live_id_set(pre).contains(x) implies live_id_set(next).contains(x) by {
                        let k = choose|k: int| 0 <= k < pre.len() && pre[k] == Some(x);
                        assert(pre[k] == next[k]);
                    }
                }
            }
        }
        i = i + 1;
    }
    assert(cands@.subrange(0, cands@.len() as int) == cands@);
    proof {
        r@.unique_seq_to_set();
    }
    r
}

/// Deduplication: however many sessions reference the same live ids, the
/// lookups owed number exactly the distinct ids, and so fewer than the
/// sessions whenever some id is shared.
pub proof fn lemma_dedup_lookups(cands: Seq<Option<i64>>, lookups: Seq<i64>)
    requires
        lookups.no_duplicates(),
        lookups.to_set() == live_id_set(cands),
    ensures
        lookups.len() == live_id_set(cands).len(),
        live_id_set(cands).len() < cands.len() ==> lookups.len() < cands.len(),
{
    lookups.unique_seq_to_set();
}

/// The first position of `cache` that holds `id`, if any.
pub open spec fn first_with_id(cache: Seq<Enrichment>, id: i64) -> Option<int>
    decreases cache.len(),
{
    if cache.len() == 0 {
        None
    } else {
        match first_with_id(cache.drop_last(), id) {
            Some(k) => Some(k),
            None => if cache.last().id == id {
                Some(cache.len() - 1)
            } else {
                None
            },
        }
    }
}

/// What resolution found for one session: its account, the account's
/// display name, and the live id of the class it attends, if any.
#[derive(Clone, Debug)]
pub struct SessionCandidate {
    pub uid: i64,
    pub name: String,
    pub live_id: Option<i64>,
}

/// The room and stream found for one live id.
#[derive(Clone, Debug)]
pub struct Enrichment {
    pub id: i64,
    pub room: Room,
    pub video: VideoPath,
}

impl Enrichment {
    /// The room is the one of live `id`, its name trimmed.
    pub open spec fn wf(&self) -> bool {
        &&& self.room.id == self.id
        &&& trimmed(self.room.name@) == self.room.name@
    }

    /// The enrichment of the live that `room` belongs to, with its stream.
    pub fn from_lookup(room: Room, video: VideoPath) -> (r: Enrichment)
        ensures
            r.wf(),
            r.id == room.id,
            r.room.name@ == trimmed(room.name@),
            r.room.device_code == room.device_code,
            r.room.room_id == room.room_id,
            r.video == video,
    {
        let room = room.trim();
        Enrichment { id: room.id, room, video }
    }
}

/// One line of the final result: the account's display name, its room and
/// the room's stream.
#[derive(Clone, Debug)]
pub struct LiveEntry {
    pub name: String,
    pub room: Room,
    pub video: VideoPath,
}

/// The entries owed to `sessions`, in session order: a session with a
/// candidate whose id was enriched gets the enrichment; the others are
/// left out.
pub open spec fn joined(sessions: Seq<SessionCandidate>, cache: Seq<Enrichment>) -> Seq<
    (i64, LiveEntry),
>
    decreases sessions.len(),
{
    if sessions.len() == 0 {
        Seq::empty()
    } else {
        let prev = joined(sessions.drop_last(), cache);
        let c = sessions.last();
        match c.live_id {
            Some(id) => match first_with_id(cache, id) {
                Some(k) => prev.push(
                    (c.uid, LiveEntry { name: c.name, room: cache[k].room, video: cache[k].video }),
                ),
                None => prev,
            },
            None => prev,
        }
    }
}

fn find_enrichment(cache: &Vec<Enrichment>, id: i64) -> (r: Option<usize>)
    ensures
        r matches Some(k) ==> first_with_id(cache@, id) == Some(k as int) && k < cache@.len(),
        r is None ==> first_with_id(cache@, id) is None,
{
    let mut i: usize = 0;
    while i < cache.len()
        invariant
            i <= cache@.len(),
            first_with_id(cache@.subrange(0, i as int), id) is None,
        decreases cache@.len() - i,
    {
        assert(cache@.subrange(0, i + 1).drop_last() == cache@.subrange(0, i as int));
        if cache[i].id == id {
            proof {
                lemma_first_with_id_prefix(cache@, id, i + 1);
            }
            return Some(i);
        }
        i = i + 1;
    }
    assert(cache@.subrange(0, cache@.len() as int) == cache@);
    None
}

proof fn lemma_first_with_id_prefix(cache: Seq<Enrichment>, id: i64, n: int)
    requires
        0 < n <= cache.len(),
        first_with_id(cache.subrange(0, n), id) is Some,
    ensures
        first_with_id(cache, id) == first_with_id(cache.subrange(0, n), id),
    decreases cache.len() - n,
{
    if n < cache.len() {
        assert(cache.subrange(0, n + 1).drop_last() == cache.subrange(0, n));
        lemma_first_with_id_prefix(cache, id, n + 1);
    } else {
        assert(cache.subrange(0, n) == cache);
    }
}

/// Joins each session's candidate with the enrichment of its live id.
pub fn join_results(sessions: &Vec<SessionCandidate>, cache: &Vec<Enrichment>) -> (r: Vec<
    (i64, LiveEntry),
>)
    ensures
        r@ == joined(sessions@, cache@),
{
    let mut r: Vec<(i64, LiveEntry)> = Vec::new();
    let mut i: usize = 0;
    while i < sessions.len()
        invariant
            i <= sessions@.len(),
            r@ == joined(sessions@.subrange(0, i as int), cache@),
        decreases sessions@.len() - i,
    {
        assert(sessions@.subrange(0, i + 1).drop_last() == sessions@.subrange(0, i as int));
        let c = &sessions[i];
        if let Some(id) = c.live_id {
            if let Some(k) = find_enrichment(cache, id) {
                let e = &cache[k];
                let entry = LiveEntry {
                    name: c.name.clone(),
                    room: e.room.copied(),
                    video: e.video.copied(),
                };
                r.push((c.uid, entry));
            }
        }
        i = i + 1;
    }
    assert(sessions@.subrange(0, sessions@.len() as int) == sessions@);
    r
}

/// The final result: the joined entries ordered by account id.
pub fn aggregate(sessions: &Vec<SessionCandidate>, cache: &Vec<Enrichment>) -> (r: Vec<
    (i64, LiveEntry),
>)
    ensures
        sorted_by_key(r@),
        r@.to_multiset() == joined(sessions@, cache@).to_multiset(),
        forall|k: int| 0 <= k < r@.len() ==> joined(sessions@, cache@).contains(#[trigger] r@[k]),
{
    let r = map_sort_by_key(join_results(sessions, cache));
    proof {
        assert forall|k: int| 0 <= k < r@.len() implies joined(sessions@, cache@).contains(
            #[trigger] r@[k],
        ) by {
            assert(r@.contains(r@[k]));
            assert(r@.to_multiset().count(r@[k]) > 0);
        }
    }
    r
}

proof fn lemma_first_with_id(cache: Seq<Enrichment>, id: i64)
    ensures
        first_with_id(cache, id) matches Some(k) ==> 0 <= k < cache.len() && cache[k].id == id,
    decreases cache.len(),
{
    if cache.len() > 0 {
        lemma_first_with_id(cache.drop_last(), id);
    }
}

/// Entry `e` of the result comes from a session of `sessions` with the same
/// account and name, whose live is the room's, and from the enrichment of
/// that live.
pub open spec fn entry_traces(
    sessions: Seq<SessionCandidate>,
    cache: Seq<Enrichment>,
    e: (i64, LiveEntry),
) -> bool {
    &&& exists|i: int|
        0 <= i < sessions.len() && (#[trigger] sessions[i]).uid == e.0 && sessions[i].name
            == e.1.name && sessions[i].live_id == Some(e.1.room.id)
    &&& first_with_id(cache, e.1.room.id) is Some
    &&& cache[first_with_id(cache, e.1.room.id)->0].room == e.1.room
    &&& cache[first_with_id(cache, e.1.room.id)->0].video == e.1.video
    &&& trimmed(e.1.room.name@) == e.1.room.name@
}

/// Every entry of the result belongs to a session and carries the room of
/// that session's live, its name trimmed, with that live's stream; sessions
/// with the same live get the same room and stream.
pub proof fn lemma_joined_entries(sessions: Seq<SessionCandidate>, cache: Seq<Enrichment>)
    requires
        forall|j: int| 0 <= j < cache.len() ==> (#[trigger] cache[j]).wf(),
    ensures
        forall|k: int|
            0 <= k < joined(sessions, cache).len() ==> entry_traces(
                sessions,
                cache,
                #[trigger] joined(sessions, cache)[k],
            ),
        forall|k1: int, k2: int|
            0 <= k1 < joined(sessions, cache).len() && 0 <= k2 < joined(sessions, cache).len()
                && (#[trigger] joined(sessions, cache)[k1]).1.room.id == (#[trigger] joined(
                sessions,
                cache,
            )[k2]).1.room.id ==> joined(sessions, cache)[k1].1.room == joined(sessions, cache)[k2].1.room
                && joined(sessions, cache)[k1].1.video == joined(sessions, cache)[k2].1.video,
    decreases sessions.len(),
{
    if sessions.len() > 0 {
        let pre = sessions.drop_last();
        lemma_joined_entries(pre, cache);
        let prev = joined(pre, cache);
        let c = sessions.last();
        let cur = joined(sessions, cache);
        assert forall|k: int| 0 <= k < prev.len() implies entry_traces(sessions, cache, prev[k]) by {
            assert(entry_traces(pre, cache, prev[k]));
            let i = choose|i: int|
                0 <= i < pre.len() && (#[trigger] pre[i]).uid == prev[k].0 && pre[i].name
                    == prev[k].1.name && pre[i].live_id == Some(prev[k].1.room.id);
            assert(sessions[i] == pre[i]);
        }
        if let Some(id) = c.live_id {
            lemma_first_with_id(cache, id);
            if let Some(j) = first_with_id(cache, id) {
                let e = (c.uid, LiveEntry { name: c.name, room: cache[j].room, video: cache[j].video });
                assert(cur == prev.push(e));
                assert(cache[j].wf());
                assert(sessions[sessions.len() - 1] == c);
                assert(entry_traces(sessions, cache, e));
                assert forall|k: int| 0 <= k < cur.len() implies entry_traces(sessions, cache, #[trigger] cur[k]) by {
                    if k < prev.len() {
                        assert(cur[k] == prev[k]);
                    }
                }
                assert forall|k1: int, k2: int|
                    0 <= k1 < cur.len() && 0 <= k2 < cur.len() && (#[trigger] cur[k1]).1.room.id
                        == (#[trigger] cur[k2]).1.room.id implies cur[k1].1.room == cur[k2].1.room
                        && cur[k1].1.video == cur[k2].1.video by {
                    assert(entry_traces(sessions, cache, cur[k1]));
                    assert(entry_traces(sessions, cache, cur[k2]));
                }
            }
        }
    }
}

/// The position of `key` in the keyed list `entries`, if any.
pub open spec fn key_index<V>(entries: Seq<(String, V)>, key: Seq<char>) -> Option<int> {
    if exists|k: int| 0 <= k < entries.len() && (#[trigger] entries[k]).0@ == key {
        Some(choose|k: int| 0 <= k < entries.len() && (#[trigger] entries[k]).0@ == key)
    } else {
        None
    }
}

/// No two entries share a key.
pub open spec fn keys_unique<V>(entries: Seq<(String, V)>) -> bool {
    forall|i: int, j: int|
        0 <= i < j < entries.len() ==> (#[trigger] entries[i]).0@ != (#[trigger] entries[j]).0@
}

/// The list after setting `key` to `value`.
pub open spec fn upsert_spec<V>(entries: Seq<(String, V)>, key: String, value: V) -> Seq<
    (String, V),
> {
    match key_index(entries, key@) {
        Some(k) => entries.update(k, (key, value)),
        None => entries.push((key, value)),
    }
}

/// Sets `key` to `value` in a list of entries with distinct text keys: an
/// entry with that key is overwritten in place, else one is appended.
pub fn upsert<V>(entries: &mut Vec<(String, V)>, key: String, value: V)
    requires
        keys_unique(old(entries)@),
    ensures
        keys_unique(final(entries)@),
        final(entries)@ == upsert_spec(old(entries)@, key, value),
{
    let mut i: usize = 0;
    while i < entries.len()
        invariant
            i <= entries@.len(),
            entries@ == old(entries)@,
            keys_unique(old(entries)@),
            forall|m: int| 0 <= m < i ==> (#[trigger] entries@[m]).0@ != key@,
        decreases entries@.len() - i,
    {
        if entries[i].0 == key {
            proof {
                let o = old(entries)@;
                assert(o[i as int].0@ == key@);
                assert(exists|k: int| 0 <= k < o.len() && (#[trigger] o[k]).0@ == key@);
                let k = key_index(o, key@)->0;
                assert(o[k].0@ == key@);
                assert(k == i) by {
                    if k < i {
                        assert(o[k].0@ != o[i as int].0@);
                    } else if k > i {
                        assert(o[i as int].0@ != o[k].0@);
                    }
                }
            }
            let ghost before = entries@;
            entries.set(i, (key, value));
            proof {
                assert forall|a: int, b: int| 0 <= a < b < entries@.len() implies (
                #[trigger] entries@[a]).0@ != (#[trigger] entries@[b]).0@ by {
                    assert(entries@[a].0@ == before[a].0@);
                    assert(entries@[b].0@ == before[b].0@);
                }
            }
            return;
        }
        i = i + 1;
    }
    entries.push((key, value));
    proof {
        assert forall|a: int, b: int| 0 <= a < b < entries@.len() implies (
        #[trigger] entries@[a]).0@ != (#[trigger] entries@[b]).0@ by {
            if b == old(entries)@.len() {
                assert(entries@[a] == old(entries)@[a]);
            } else {
                assert(entries@[a] == old(entries)@[a] && entries@[b] == old(entries)@[b]);
            }
        }
    }
}

/// A list of key-value pairs, kept in the order given.
#[derive(Clone, Debug)]
pub struct PairVec<K, V> {
    pub vec: Vec<(K, V)>,
}

impl<K, V> PairVec<K, V> {
    pub fn new(vec: Vec<(K, V)>) -> (r: Self)
        ensures
            r.vec == vec,
    {
        PairVec { vec }
    }
}

} // verus!
