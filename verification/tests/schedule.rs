use sgi_summer::group::group_by_name;
use sgi_summer::summer::parse_day;
use sgi_summer::text::{push_decimal, text_before};
use sgi_summer::{
    create_summer, get_weekday, make_faculty, try_create_summer, Date, Params, PlanError, SgiDay,
    Summer, Weekday,
};

fn faculty() -> Vec<Vec<&'static str>> {
    vec![
        vec!["BP", "JM", "HH", "EBH"],
        vec!["BP", "JM", "HH", "EBH"],
        vec!["BP", "JM", "HH", "EBH"],
        vec!["BP", "JM", "EBH"],
        vec!["BP", "JM", "EBH"],
        vec!["BP", "JM", "EBH"],
        vec!["BP", "JM", "EBH"],
        vec!["BP", "JM", "EBH"],
        vec!["BP", "JM", "EBH"],
        vec!["BP", "JM", "EBH"],
        vec!["BP", "JM", "EBH"],
    ]
}

fn summer_2025() -> Summer {
    let p = Params {
        faculty: faculty(),
        start_date: "2025-06-09",
        holidays: vec!["2025-06-19", "2025-07-04"],
    };
    create_summer(&p).unwrap()
}

fn ymd(d: &Date) -> (i16, i8, i8) {
    (d.year(), d.month(), d.day())
}

fn s(x: &str) -> String {
    x.to_string()
}

#[test]
fn test_get_seqs() {
    let start_date = "2025-06-09";
    let holidays = vec!["2025-06-19", "2025-07-04"];
    let faculty = faculty();

    let p = Params {
        faculty,
        start_date,
        holidays,
    };

    let s = create_summer(&p).unwrap();
    let seq = s.get_seqs(4);
    println!("seq: {seq:?}");
}

#[test]
fn summer_has_seventy_one_days_from_the_start() {
    let summer = summer_2025();
    assert_eq!(summer.days.len(), 71);
    assert_eq!(ymd(&summer.start_date), (2025, 6, 9));
    assert_eq!(ymd(&summer.days[0].date), (2025, 6, 9));
    assert_eq!(ymd(&summer.days[22].date), (2025, 7, 1));
    assert_eq!(ymd(&summer.days[70].date), (2025, 8, 18));
    assert_eq!(summer.holidays.len(), 2);
    assert_eq!(ymd(&summer.holidays[1]), (2025, 7, 4));
    assert_eq!(summer.faculty.len(), 11);
    assert_eq!(summer.faculty[3].faculty, vec![s("BP"), s("JM"), s("EBH")]);
}

#[test]
fn first_day_has_three_lectures() {
    let summer = summer_2025();
    let d = &summer.days[0];
    assert_eq!(d.week, 1);
    assert_eq!(d.day, 1);
    assert_eq!(d.day_one_lectures, Some(vec![s("BP"), s("JM"), s("HH")]));
    assert_eq!(d.exam, None);
    assert!(d.test.is_empty());
}

#[test]
fn second_day_rotates_the_roster() {
    let summer = summer_2025();
    let d = &summer.days[1];
    assert_eq!(d.day, 2);
    assert_eq!(d.exam, None);
    assert_eq!(d.morning_optional, None);
    assert_eq!(d.quiz_grader, Some(s("BP")));
    assert_eq!(d.drill1, vec![s("BP"), s("JM"), s("HH")]);
    assert_eq!(d.drill2, vec![s("HH"), s("EBH"), s("JM")]);
    assert_eq!(d.noon_optional1, Some(s("BP")));
    assert_eq!(d.noon_optional2, Some(s("EBH")));
    assert_eq!(d.noon_optional1_title, Some(s("Grammar")));
    assert_eq!(d.noon_optional2_title, Some(s("Sight")));
    assert_eq!(d.lecture, Some(s("JM")));
    assert_eq!(d.lecture_title, Some(s("Lecture on Unit 1")));
    assert_eq!(d.voc_notes, Some(s("HH")));
    assert!(d.friday_review1.is_empty());
    assert_eq!(d.test.len(), 1);
    assert_eq!(d.test[0].handouts, Some(vec![s("")]));
}

#[test]
fn weekends_and_holidays_are_days_off() {
    let summer = summer_2025();
    assert_eq!(summer.days[5].day, 0);
    assert_eq!(summer.days[5].other, Some(s("Rest and Study")));
    assert_eq!(summer.days[6].other, Some(s("Review")));
    assert_eq!(ymd(&summer.days[10].date), (2025, 6, 19));
    assert_eq!(summer.days[10].day, 0);
    assert_eq!(summer.days[10].other, Some(s("Holiday, rest and study")));
    assert_eq!(summer.days[25].other, Some(s("Holiday, rest and study")));
}

#[test]
fn friday_is_a_review_and_monday_an_exam() {
    let summer = summer_2025();
    let fri = &summer.days[4];
    assert_eq!(fri.day, 5);
    assert_eq!(fri.lecture, None);
    assert_eq!(fri.lecture_title, None);
    assert_eq!(fri.friday_review1, vec![s("JM"), s("BP")]);
    assert_eq!(fri.friday_review2, vec![s("EBH"), s("HH")]);
    let mon = &summer.days[7];
    assert_eq!(mon.week, 2);
    assert_eq!(mon.day, 6);
    assert_eq!(mon.exam, Some(s("JM")));
    assert!(mon.drill1.is_empty());
    assert_eq!(mon.quiz_grader, None);
    assert_eq!(mon.lecture, Some(s("EBH")));
    assert_eq!(mon.lecture_title, Some(s("Lecture on Unit 4")));
    let thu = &summer.days[24];
    assert_eq!(ymd(&thu.date), (2025, 7, 3));
    assert_eq!(thu.lecture, None);
    assert_eq!(thu.friday_review1.len(), 2);
    let tue_after = &summer.days[22];
    assert_eq!(tue_after.exam, None);
}

#[test]
fn weeks_follow_the_calendar() {
    let summer = summer_2025();
    for (k, d) in summer.days.iter().enumerate() {
        assert_eq!(d.week as usize, k / 7 + 1);
    }
}

#[test]
fn start_not_monday_gives_none() {
    let p = Params { faculty: faculty(), start_date: "2025-06-10", holidays: vec![] };
    assert!(create_summer(&p).is_none());
    assert!(matches!(try_create_summer(&p), Ok(None)));
}

#[test]
fn try_create_reports_errors() {
    let p = Params { faculty: faculty(), start_date: "June 9", holidays: vec![] };
    assert!(matches!(try_create_summer(&p), Err(PlanError::UnreadableStart)));
    let short = vec![vec!["BP", "JM"]; 3];
    let p = Params { faculty: short, start_date: "2025-06-09", holidays: vec![] };
    assert!(matches!(try_create_summer(&p), Err(PlanError::MissingRoster)));
    let p = Params { faculty: faculty(), start_date: "9999-12-27", holidays: vec![] };
    assert!(matches!(try_create_summer(&p), Err(PlanError::CalendarEnds)));
    let p = Params { faculty: faculty(), start_date: "2025-06-09", holidays: vec!["garbage", "2025-07-04"] };
    let summer = try_create_summer(&p).unwrap().unwrap();
    assert_eq!(summer.holidays.len(), 1);
}

#[test]
fn stats_count_each_duty() {
    let summer = summer_2025();
    let stats = summer.days[1].get_stats();
    assert_eq!(stats, vec![(s("BP"), 3), (s("EBH"), 2), (s("HH"), 3), (s("JM"), 3)]);
    assert_eq!(summer.days[1].get_drill1(), vec![s("BP"), s("JM"), s("HH")]);
    assert_eq!(summer.days[1].get_drill2(), vec![s("HH"), s("EBH"), s("JM")]);
    assert!(summer.days[1].validate());
    assert!(summer.days[5].get_stats().is_empty());
    let first = summer.days[0].get_stats();
    assert_eq!(first, vec![(s("BP"), 1), (s("HH"), 1), (s("JM"), 1)]);
}

#[test]
fn seqs_of_week_four_are_sorted() {
    let summer = summer_2025();
    let seqs = summer.get_seqs(4);
    let names: Vec<String> = seqs.iter().map(|(n, _)| n.clone()).collect();
    assert_eq!(names, vec![s("BP"), s("EBH"), s("JM")]);
    assert!(summer.checked_seqs(12).unwrap().is_empty());
    let week1 = summer.get_seqs(1);
    let bp = &week1.iter().find(|(n, _)| n == "BP").unwrap().1;
    assert_eq!(bp[0], s("E"));
    assert_eq!(bp[1], s("QUIZ"));
    let ebh = &week1.iter().find(|(n, _)| n == "EBH").unwrap().1;
    assert_eq!(ebh[0], s("OFF"));
}

#[test]
fn weekday_names() {
    assert_eq!(get_weekday(Weekday::Monday), "Monday");
    assert_eq!(get_weekday(Weekday::Sunday), "Sunday");
    let d = Date::new(1970, 1, 1).unwrap();
    assert_eq!(d.weekday(), Weekday::Thursday);
}

#[test]
fn dates_and_parsing() {
    assert!(Date::new(2023, 2, 29).is_none());
    assert!(Date::new(2024, 2, 29).is_some());
    assert!(Date::new(1900, 2, 29).is_none());
    assert!(Date::new(2000, 2, 29).is_some());
    let d = Date::new(2024, 2, 28).unwrap();
    assert_eq!(ymd(&d.tomorrow().unwrap()), (2024, 2, 29));
    assert_eq!(ymd(&Date::new(2023, 12, 31).unwrap().tomorrow().unwrap()), (2024, 1, 1));
    assert!(Date::new(9999, 12, 31).unwrap().tomorrow().is_none());
    assert_eq!(ymd(&parse_day("2025-06-09").unwrap()), (2025, 6, 9));
    assert!(parse_day("2025-13-01").is_none());
    assert!(parse_day("2025-06-09").unwrap().is_valid());
}

#[test]
fn text_helpers() {
    assert!(text_before("BP", "EBH"));
    assert!(!text_before("JM", "HH"));
    assert!(text_before("J", "JM"));
    assert!(!text_before("JM", "JM"));
    let mut t = String::from("Unit ");
    push_decimal(&mut t, 1207);
    assert_eq!(t, "Unit 1207");
    let ev = vec![(s("b"), s("1")), (s("a"), s("2")), (s("b"), s("3"))];
    let g = group_by_name(&ev);
    assert_eq!(g, vec![(s("a"), vec![s("2")]), (s("b"), vec![s("1"), s("3")])]);
}

#[test]
fn faculty_rosters_keep_order() {
    let f = make_faculty(vec![vec!["X", "A"], vec![]]);
    assert_eq!(f.len(), 2);
    assert_eq!(f[0].faculty, vec![s("X"), s("A")]);
    assert!(f[1].faculty.is_empty());
}

#[test]
fn teaching_days_are_numbered_in_order() {
    let summer = summer_2025();
    let mut next = 1;
    for d in summer.days.iter() {
        if d.day != 0 {
            assert_eq!(d.day, next);
            next += 1;
        } else {
            assert!(d.other.is_some());
        }
    }
    assert_eq!(next, 50);
}

#[test]
fn exam_days_have_no_drills() {
    let summer = summer_2025();
    let exams: Vec<usize> = (0..71).filter(|&k| summer.days[k].exam.is_some()).collect();
    assert_eq!(exams, vec![7, 14, 21, 28, 42, 56, 70]);
    for &k in &exams {
        let d = &summer.days[k];
        assert!(d.drill1.is_empty() && d.drill2.is_empty());
        assert_eq!(d.quiz_grader, None);
        assert_eq!(d.morning_optional, None);
    }
}

#[test]
fn duties_come_from_the_week_roster() {
    let summer = summer_2025();
    for d in summer.days.iter() {
        let roster = &summer.faculty[d.week as usize - 1].faculty;
        for (name, _) in d.get_stats() {
            assert!(roster.contains(&name) || Some(&name) == d.exam.as_ref());
        }
    }
}

#[test]
fn seqs_need_a_roster() {
    let mut summer = summer_2025();
    summer.faculty.clear();
    assert!(summer.checked_seqs(1).is_none());
    assert!(summer.checked_seqs(30).unwrap().is_empty());
}

#[test]
fn summer_dates_are_consecutive() {
    let summer = summer_2025();
    assert_eq!(ymd(&summer.days[0].date), ymd(&summer.start_date));
    for k in 0..70 {
        let next = summer.days[k].date.tomorrow().unwrap();
        assert_eq!(ymd(&next), ymd(&summer.days[k + 1].date));
    }
}

#[test]
fn tallies_count_every_duty_once() {
    let summer = summer_2025();
    let d = &summer.days[1];
    let total: u32 = d.get_stats().iter().map(|(_, c)| *c).sum();
    assert_eq!(total, 11);
    let ev = vec![(s("x"), s("1")), (s("y"), s("2")), (s("x"), s("3")), (s("z"), s("4"))];
    let g = group_by_name(&ev);
    let labels: usize = g.iter().map(|(_, l)| l.len()).sum();
    assert_eq!(labels, ev.len());
    let week4 = summer.get_seqs(4);
    assert!(week4.windows(2).all(|w| w[0].0 < w[1].0));
}

fn weekday_index(w: Weekday) -> u8 {
    match w {
        Weekday::Monday => 1,
        Weekday::Tuesday => 2,
        Weekday::Wednesday => 3,
        Weekday::Thursday => 4,
        Weekday::Friday => 5,
        Weekday::Saturday => 6,
        Weekday::Sunday => 7,
    }
}

#[test]
fn weekdays_of_known_dates() {
    assert_eq!(Date::new(1, 1, 1).unwrap().weekday(), Weekday::Monday);
    assert_eq!(Date::new(0, 12, 31).unwrap().weekday(), Weekday::Sunday);
    assert_eq!(Date::new(1600, 1, 1).unwrap().weekday(), Weekday::Saturday);
    assert_eq!(Date::new(2000, 2, 29).unwrap().weekday(), Weekday::Tuesday);
    assert_eq!(Date::new(2025, 6, 9).unwrap().weekday(), Weekday::Monday);
    assert_eq!(Date::new(9999, 12, 31).unwrap().weekday(), Weekday::Friday);
}

#[test]
fn consecutive_dates_have_consecutive_weekdays() {
    let mut d = Date::new(1899, 12, 25).unwrap();
    for _ in 0..800 {
        let t = d.tomorrow().unwrap();
        assert_eq!(weekday_index(t.weekday()), weekday_index(d.weekday()) % 7 + 1);
        d = t;
    }
}

#[test]
fn teaching_days_follow_the_roster_size() {
    let summer = summer_2025();
    for (i, d) in summer.days.iter().enumerate() {
        assert_eq!(d.week as usize, i / 7 + 1);
        assert!(d.exam.is_none() || d.exam == Some(s("JM")));
        if i > 0 && d.day != 0 && d.exam.is_none() {
            let size = if summer.faculty[i / 7].faculty.len() > 3 { 3 } else { 2 };
            assert_eq!(d.drill1.len(), size);
            assert_eq!(d.drill2.len(), size);
            assert_eq!(d.morning_optional.is_some(), d.day >= 6);
        }
    }
}

#[test]
fn exam_days_do_not_change_weekly_summaries() {
    let summer = summer_2025();
    let mut changed = summer.clone();
    for d in changed.days.iter_mut() {
        if d.exam.is_some() {
            d.drill1 = vec![s("ZZ")];
            d.quiz_grader = Some(s("ZZ"));
            d.day = 0;
        }
    }
    for week in 1..=11 {
        assert_eq!(summer.get_seqs(week), changed.get_seqs(week));
    }
}

#[test]
fn stats_do_not_depend_on_list_order() {
    let summer = summer_2025();
    let mut d = summer.days[1].clone();
    let before = d.get_stats();
    d.drill1.reverse();
    d.drill2.rotate_left(1);
    assert_eq!(d.get_stats(), before);
}
