use xdlinks::partition::partition;
use xdlinks::period::{current_jie, jie_at, jie_for, now_to_jie, previous_jie};
use xdlinks::semester::{
    choose_term, date_count_to_year_term_week, known_term_start, date_number, parse_date_number, term_week,
    week_between, year_to_semester_id, TermChoice, TermWeek,
};
use xdlinks::clock::LocalMoment;
use xdlinks::text::parse_u32;

#[test]
fn test_year_to_semester_id() {
    let data_time = chrono::DateTime::<chrono::Local>::from(std::time::SystemTime::now());
    let year = chrono::Datelike::year(&data_time);
    let month = 2;
    let day = 26;
    let s = year_to_semester_id(2023, 2);
    println!("year_to_semester_id: {}", s);
    assert_eq!(s, 13);
    let term_begin_data_time = <chrono::DateTime<chrono::Local> as std::str::FromStr>::from_str(
        &format!("{year}-{month}-{day}T00:00:00.0+08:00"),
    )
    .unwrap();
    let week = data_time.signed_duration_since(term_begin_data_time).num_weeks() + 1;
    println!("week: {}", week);
}

#[test]
fn semester_ids_of_special_years() {
    assert_eq!(year_to_semester_id(2018, 1), 1);
    assert_eq!(year_to_semester_id(2018, 2), 2);
    assert_eq!(year_to_semester_id(2019, 1), 4);
    assert_eq!(year_to_semester_id(2000, 1), 1);
    assert_eq!(year_to_semester_id(2024, 1), 14);
}

#[test]
fn partition_of_130_over_64() {
    let r = partition(130, 64);
    assert_eq!(r.len(), 64);
    assert_eq!(r.iter().filter(|p| p.1 - p.0 == 3).count(), 2);
    assert_eq!(r.iter().filter(|p| p.1 - p.0 == 2).count(), 62);
    assert_eq!(r[0], (0, 3));
    assert_eq!(r[1], (3, 6));
    assert_eq!(r[2], (6, 8));
    assert_eq!(r[63], (128, 130));
}

#[test]
fn partition_covers_every_index_once() {
    for (n, b) in [(0usize, 1usize), (7, 3), (5, 64), (64, 64), (1000, 7)] {
        let r = partition(n, b);
        let mut seen = vec![0u32; n];
        for &(lo, hi) in &r {
            assert!(lo < hi);
            for i in lo..hi {
                seen[i] += 1;
            }
        }
        assert!(seen.iter().all(|&c| c == 1));
        let sizes: Vec<usize> = r.iter().map(|p| p.1 - p.0).collect();
        if let (Some(mx), Some(mn)) = (sizes.iter().max(), sizes.iter().min()) {
            assert!(mx - mn <= 1);
        }
    }
}

#[test]
fn partition_skips_empty_ranges() {
    assert!(partition(0, 64).is_empty());
    let r = partition(3, 64);
    assert_eq!(r, vec![(0, 1), (1, 2), (2, 3)]);
}

#[test]
fn periods_follow_the_bell_schedule() {
    assert_eq!(jie_at(0, 0), 1);
    assert_eq!(jie_at(10, 4), 1);
    assert_eq!(jie_at(10, 5), 3);
    assert_eq!(jie_at(11, 59), 3);
    assert_eq!(jie_at(12, 0), 5);
    assert_eq!(jie_at(15, 35), 7);
    assert_eq!(jie_at(17, 30), 9);
    assert_eq!(jie_at(20, 34), 9);
    assert_eq!(jie_at(20, 35), 11);
    assert_eq!(jie_at(23, 59), 11);
}

#[test]
fn every_minute_maps_to_a_period_monotonically() {
    let mut last = 0;
    for h in 0..24u32 {
        for m in 0..60u32 {
            let j = jie_at(h, m);
            assert!([1, 3, 5, 7, 9, 11].contains(&j));
            assert!(j >= last);
            last = j;
        }
    }
}

#[test]
fn previous_and_current_periods() {
    assert_eq!(previous_jie(1), 1);
    assert_eq!(previous_jie(3), 1);
    assert_eq!(previous_jie(11), 9);
    assert_eq!(current_jie(11), 9);
    assert_eq!(current_jie(7), 7);
    assert_eq!(jie_for(21, 0, false), 9);
    assert_eq!(jie_for(21, 0, true), 9);
    assert_eq!(jie_for(8, 0, true), 1);
    assert_eq!(jie_for(13, 0, true), 3);
    let j = now_to_jie(false);
    assert!([1, 3, 5, 7, 9].contains(&j));
}

#[test]
fn probes_walk_terms_and_weeks() {
    assert_eq!(date_count_to_year_term_week(2024, 0), (2018, 2, 1));
    assert_eq!(date_count_to_year_term_week(2024, 29), (2018, 2, 30));
    assert_eq!(date_count_to_year_term_week(2024, 30), (2019, 1, 1));
    assert_eq!(date_count_to_year_term_week(2024, 60), (2019, 2, 1));
    assert_eq!(date_count_to_year_term_week(2024, 359), (2024, 1, 30));
    assert_eq!(date_count_to_year_term_week(2024, -31), (2017, 3, 0));
}

#[test]
fn date_numbers_are_read() {
    assert_eq!(date_number(2, 26), 226);
    assert_eq!(parse_date_number("02-26"), Some(226));
    assert_eq!(parse_date_number(" 8 - 26 "), Some(826));
    assert_eq!(parse_date_number("08-26-extra"), Some(826));
    assert_eq!(parse_date_number("0826"), None);
    assert_eq!(parse_date_number("ab-01"), None);
    assert_eq!(parse_date_number("-01"), None);
    assert_eq!(parse_u32("+42"), Some(42));
    assert_eq!(parse_u32("4294967295"), Some(u32::MAX));
    assert_eq!(parse_u32("4294967296"), None);
    assert_eq!(parse_u32(""), None);
    assert_eq!(parse_u32("+"), None);
}

#[test]
fn terms_are_chosen_from_boundaries() {
    assert_eq!(choose_term(401, 226, Some(826)), TermChoice::PreviousSecondHalf);
    assert_eq!(choose_term(226, 226, Some(826)), TermChoice::PreviousSecondHalf);
    assert_eq!(choose_term(826, 226, Some(826)), TermChoice::CurrentFirstHalf);
    assert_eq!(choose_term(1225, 226, Some(826)), TermChoice::CurrentFirstHalf);
    assert_eq!(choose_term(115, 226, Some(826)), TermChoice::BeforeSpring);
    assert_eq!(choose_term(1225, 226, None), TermChoice::PreviousSecondHalf);
}

#[test]
fn term_start_known_or_asked_for() {
    assert_eq!(known_term_start(TermChoice::PreviousSecondHalf, 226, Some(826)), Some(226));
    assert_eq!(known_term_start(TermChoice::CurrentFirstHalf, 226, Some(826)), Some(826));
    assert_eq!(known_term_start(TermChoice::BeforeSpring, 226, Some(826)), None);
}

#[test]
fn weeks_count_from_one() {
    assert_eq!(week_between(100, 100), 1);
    assert_eq!(week_between(106, 100), 1);
    assert_eq!(week_between(107, 100), 2);
    assert_eq!(week_between(99, 100), 0);
    assert_eq!(week_between(93, 100), 0);
    assert_eq!(week_between(92, 100), -1);
}

#[test]
fn term_week_from_dates() {
    let today = LocalMoment { year: 2024, month: 3, day: 11, weekday: 1, hour: 9, minute: 0 };
    assert_eq!(
        term_week(&today, TermChoice::PreviousSecondHalf, 226),
        Some(TermWeek { term_year: 2023, term: 2, week: 3 })
    );
    let winter = LocalMoment { year: 2024, month: 1, day: 10, weekday: 3, hour: 9, minute: 0 };
    assert_eq!(
        term_week(&winter, TermChoice::BeforeSpring, 828),
        Some(TermWeek { term_year: 2023, term: 1, week: 20 })
    );
    assert_eq!(term_week(&today, TermChoice::CurrentFirstHalf, 230), None);
    let leap = LocalMoment { year: 2024, month: 2, day: 29, weekday: 4, hour: 9, minute: 0 };
    assert_eq!(
        term_week(&leap, TermChoice::PreviousSecondHalf, 226),
        Some(TermWeek { term_year: 2023, term: 2, week: 1 })
    );
    let no_leap = LocalMoment { year: 2023, month: 2, day: 29, weekday: 3, hour: 9, minute: 0 };
    assert_eq!(term_week(&no_leap, TermChoice::PreviousSecondHalf, 226), None);
    let again = LocalMoment { minute: 1, ..today };
    assert_eq!(
        term_week(&today, TermChoice::PreviousSecondHalf, 226),
        term_week(&again, TermChoice::PreviousSecondHalf, 226)
    );
}
