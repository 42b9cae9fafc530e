use xdlinks::aggregate::{
    aggregate, distinct_live_ids, join_results, map_sort_by_key, upsert, Enrichment,
    SessionCandidate,
};
use xdlinks::lesson::Lesson;
use xdlinks::live::{select_live, select_live_index, Live};
use xdlinks::progress::Dispatcher;
use xdlinks::room::Room;
use xdlinks::video::{info_payload, info_segment_of, VideoPath};

fn live(place: &str, id: i64, week_day: u32, jie: i32) -> Live {
    Live::new(place.to_string(), id, week_day, jie)
}

fn room(name: &str, code: &str, id: i64) -> Room {
    Room::new(name.to_string(), code.to_string(), 7, id)
}

#[test]
fn selects_earliest_qualifying_live() {
    let lives = vec![
        live("B202", 1, 3, 7),
        live("A101", 2, 3, 5),
        live("C303", 3, 2, 5),
        live("D404", 4, 3, 1),
        live("E505", 5, 3, 5),
    ];
    assert_eq!(select_live_index(&lives, 3, 3), Some(1));
    let l = select_live(&lives, 3, 3).unwrap();
    assert_eq!(l.get_id(), 2);
    assert_eq!(l.place(), "A101");
    assert_eq!(l.get_week_day(), 3);
    assert_eq!(l.get_jie(), 5);
    assert_eq!(select_live_index(&lives, 3, 6), Some(0));
    assert!(select_live(&lives, 3, 9).is_none());
    assert!(select_live(&lives, 5, 1).is_none());
    assert!(select_live(&Vec::new(), 3, 1).is_none());
}

#[test]
fn place_table_keeps_last_id() {
    let lives = vec![live("A101", 1, 1, 1), live("B202", 2, 1, 3), live("A101", 3, 2, 1)];
    let t = Live::place_ids(&lives);
    assert_eq!(t, vec![("A101".to_string(), 3), ("B202".to_string(), 2)]);
}

#[test]
fn picks_and_trims_room() {
    let entries = vec![room("x", "d0", 1), room("  A101 \n", "dev-1", 501), room("y", "d2", 501)];
    let r = Room::pick_room(entries, 501).unwrap();
    assert_eq!(r.name(), "A101");
    assert_eq!(r.device_code(), "dev-1");
    assert!(Room::pick_room(vec![room("x", "d0", 1)], 2).is_none());
    let t = room("\u{3000}B1 ", "c", 1).trim();
    assert_eq!(t.name(), "B1");
}

#[test]
fn video_path_emptiness() {
    let v = VideoPath::default();
    assert!(v.is_default());
    assert!(VideoPath::unavailable().is_default());
    assert_eq!(v.ppt_video(), "");
    let w = VideoPath { teacher_track: Some("t".to_string()), ..VideoPath::default() };
    assert!(!w.is_default());
    assert_eq!(w.teacher_track(), "t");
    assert_eq!(w.teacher_full(), "");
    assert_eq!(w.student_full(), "");
}

#[test]
fn info_is_cut_and_decoded() {
    let url = "http://host/player?info=%7B%22videoPath%22%3A%7B%7D%7D";
    assert_eq!(info_segment_of(url).unwrap(), "%7B%22videoPath%22%3A%7B%7D%7D");
    assert_eq!(info_payload(url).unwrap(), "{\"videoPath\":{}}");
    assert_eq!(info_payload("a?info=x%20y?info=z").unwrap(), "x y");
    assert_eq!(info_payload("a?info=").unwrap(), "");
    assert!(info_payload("http://host/player").is_none());
    assert_eq!(info_payload("?info=%FF").unwrap(), "");
}

#[test]
fn dedup_owes_one_lookup_per_id() {
    let cands = vec![Some(501), Some(501), None, Some(502), Some(501)];
    assert_eq!(distinct_live_ids(&cands), vec![501, 502]);
    assert!(distinct_live_ids(&vec![None, None]).is_empty());
}

fn session(uid: i64, name: &str, live_id: Option<i64>) -> SessionCandidate {
    SessionCandidate { uid, name: name.to_string(), live_id }
}

#[test]
fn three_sessions_two_rooms() {
    let lives = vec![live("A101", 501, 3, 3), live("B202", 502, 3, 5)];
    let picked: Vec<Option<i64>> = [3, 3, 5]
        .iter()
        .map(|&j| select_live(&vec![lives[if j == 3 { 0 } else { 1 }].clone()], 3, j).map(|l| l.get_id()))
        .collect();
    assert_eq!(picked, vec![Some(501), Some(501), Some(502)]);
    let sessions = vec![
        session(30, "C", picked[2]),
        session(10, "A", picked[0]),
        session(20, "B", picked[1]),
    ];
    let ids = distinct_live_ids(&sessions.iter().map(|s| s.live_id).collect());
    assert_eq!(ids.len(), 2);
    let cache: Vec<Enrichment> = ids
        .iter()
        .map(|&id| {
            Enrichment::from_lookup(
                room(if id == 501 { " A101 " } else { "B202" }, "dev", id),
                VideoPath { teacher_full: Some(format!("u{id}")), ..VideoPath::default() },
            )
        })
        .collect();
    let a101 = cache.iter().find(|e| e.id == 501).unwrap();
    assert_eq!(a101.room.id, 501);
    assert_eq!(a101.room.name(), "A101");
    let out = aggregate(&sessions, &cache);
    assert_eq!(out.len(), 3);
    assert_eq!(out.iter().map(|e| e.0).collect::<Vec<_>>(), vec![10, 20, 30]);
    assert_eq!(out[0].1.name, "A");
    assert_eq!(out[0].1.room.name(), "A101");
    assert_eq!(out[1].1.room.name(), "A101");
    assert_eq!(out[0].1.video.teacher_full(), out[1].1.video.teacher_full());
    assert_eq!(out[2].1.room.name(), "B202");
    assert_eq!(out[2].1.video.teacher_full(), "u502");
}

#[test]
fn failed_enrichment_drops_session() {
    let sessions = vec![session(1, "A", Some(7)), session(2, "B", Some(8)), session(3, "C", None)];
    let cache = vec![Enrichment::from_lookup(room("R", "d", 8), VideoPath::default())];
    let out = join_results(&sessions, &cache);
    assert_eq!(out.len(), 1);
    assert_eq!(out[0].0, 2);
    assert!(out[0].1.video.is_default());
    assert!(aggregate(&Vec::new(), &cache).is_empty());
}

#[test]
fn sorts_by_key() {
    let r = map_sort_by_key(vec![(3, "c"), (1, "a"), (2, "b"), (1, "z")]);
    assert_eq!(r, vec![(1, "a"), (1, "z"), (2, "b"), (3, "c")]);
    let s = map_sort_by_key(vec![(2, "x"), (1, "b"), (2, "a"), (1, "a"), (2, "m")]);
    assert_eq!(s, vec![(1, "b"), (1, "a"), (2, "x"), (2, "a"), (2, "m")]);
    assert!(map_sort_by_key(Vec::<(i64, u8)>::new()).is_empty());
}

#[test]
fn upsert_overwrites_in_place() {
    let mut m: Vec<(String, String)> = Vec::new();
    upsert(&mut m, "A101".to_string(), "d1".to_string());
    upsert(&mut m, "B202".to_string(), "d2".to_string());
    upsert(&mut m, "A101".to_string(), "d3".to_string());
    assert_eq!(m.len(), 2);
    assert_eq!(m[0], ("A101".to_string(), "d3".to_string()));
}

#[test]
fn lessons_by_start_time() {
    let ids = Lesson::ids_by_start_time(vec![Lesson::new(30, 3), Lesson::new(10, 1), Lesson::new(20, 2)]);
    assert_eq!(Lesson::ids_by_start_time(vec![Lesson::new(5, 7), Lesson::new(1, 2), Lesson::new(5, 4), Lesson::new(5, 1)]), vec![2, 7, 4, 1]);
    assert_eq!(ids, vec![1, 2, 3]);
    let l = Lesson::new(5, 9);
    assert_eq!(l.get_start_time(), 5);
    assert_eq!(l.get_live_id(), 9);
}

#[test]
fn cancellation_stops_dispatch() {
    let mut d = Dispatcher::new(5);
    assert_eq!(d.next_unit(true), Some(0));
    assert_eq!(d.next_unit(true), Some(1));
    assert_eq!(d.next_unit(false), None);
    assert_eq!(d.next_unit(true), None);
    assert_eq!(d.next_unit(true), None);
    assert_eq!(d.dispatched, 2);
    d.complete();
    d.complete();
    assert_eq!(d.completed, 2);
    let mut e = Dispatcher::new(2);
    assert_eq!(e.next_unit(true), Some(0));
    assert_eq!(e.next_unit(true), Some(1));
    assert_eq!(e.next_unit(true), None);
    assert!(!e.stopped);
}
