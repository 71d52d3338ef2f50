//! The statistics: ranges of days, commits, charts and the page.

use svn_manager::charts::{
    bucket_span, bucketize, build_heat, busy_buckets, calendar_days, has_month, month_bounds, page_of, shift_month,
    turn_page, y_step, DayLimits, Granularity, HeatMode,
};
use svn_manager::date::{parse_date, Date};
use svn_manager::paint::scale_value;
use svn_manager::stats::{
    collect, resolve_range, reversed_hint, revspec, totals, ChartKind, RangePreset, ALL_DIRS,
};
use svn_manager::stats_page::{
    answered_line, busiest, cell_line, days_line, drill_line, legend_line, peak, user_line, Start, StatsPage,
};
use svn_manager::svn::{LogEntry, LogPath};

fn date(text: &str) -> Date {
    parse_date(text).expect("测试里的日期要合法")
}

fn entry(revision: &str, when: &str, paths: &[&str]) -> LogEntry {
    LogEntry {
        revision: revision.to_owned(),
        author: "zhangsan".to_owned(),
        date: when.to_owned(),
        message: String::new(),
        paths: paths
            .iter()
            .map(|path| LogPath {
                action: 'M',
                kind: "file".to_owned(),
                path: (*path).to_owned(),
            })
            .collect(),
    }
}

#[test]
fn same_commit_read_from_two_dirs_counts_once() {
    let shared = entry("10", "2026-09-07 10:00:00", &["/a/x.java", "/a/y.java"]);
    let all = vec![(0, vec![shared.clone()]), (1, vec![shared])];
    let (commits, skipped) = collect(&all, None);
    assert_eq!(skipped, 0);
    assert_eq!(commits.len(), 1, "同一个版本只能算一次提交");
    let totals = totals(&commits);
    assert_eq!(totals.files, 2, "重复读到的 path 不能翻倍");
    assert_eq!(totals.distinct_files, 2);
}

#[test]
fn widened_query_window_is_pruned_back_to_the_requested_span() {
    let all = vec![(
        0,
        vec![
            entry("8", "2026-08-30 18:00:00", &["/old"]),
            entry("9", "2026-09-01 00:30:00", &["/first"]),
            entry("10", "2026-09-07 23:30:00", &["/last"]),
            entry("11", "2026-09-09 09:00:00", &["/next"]),
        ],
    )];
    let (commits, _) = collect(&all, Some((date("2026-09-01"), date("2026-09-07"))));
    let revs: Vec<&str> = commits.iter().map(|c| c.rev.as_str()).collect();
    assert_eq!(revs, ["9", "10"], "两端各一天的余量不能混进统计");
}

#[test]
fn unparsable_dates_are_skipped_not_fatal() {
    let all = vec![(
        0,
        vec![
            entry("9", "", &["/a"]),
            entry("10", "昨天", &["/b"]),
            entry("11", "2026-09-07 09:00:00", &["/c"]),
        ],
    )];
    let (commits, skipped) = collect(&all, None);
    assert_eq!(skipped, 2);
    assert_eq!(commits.len(), 1);
}

#[test]
fn daily_buckets_keep_empty_days() {
    let all = vec![(0, vec![entry("9", "2026-09-02 09:00:00", &["/a", "/b"])])];
    let (commits, _) = collect(&all, None);
    let (buckets, gran) = bucketize(&commits, date("2026-09-01"), date("2026-09-03"));
    assert_eq!(gran, Granularity::Day);
    let files: Vec<usize> = buckets.iter().map(|b| b.files).collect();
    assert_eq!(files, vec![0, 2, 0], "空档那天也要留一格");
    assert_eq!(buckets[1].label, "09-02");
}

#[test]
fn single_day_splits_into_hours() {
    let all = vec![
        (0, vec![entry("9", "2026-09-07 09:12:00", &["/a"])]),
        (0, vec![entry("10", "2026-09-07 09:58:00", &["/b", "/c"])]),
    ];
    let (commits, _) = collect(&all, None);
    let (buckets, gran) = bucketize(&commits, date("2026-09-07"), date("2026-09-07"));
    assert_eq!(gran, Granularity::Hour);
    assert_eq!(buckets.len(), 24);
    assert_eq!(buckets[9].files, 3);
    assert_eq!(buckets[9].revs, 2);
    assert_eq!(buckets[9].label, "9时");
}

#[test]
fn long_spans_roll_up_to_months() {
    let all = vec![
        (0, vec![entry("9", "2026-03-07 09:00:00", &["/a"])]),
        (0, vec![entry("10", "2026-11-07 09:00:00", &["/b"])]),
    ];
    let (commits, _) = collect(&all, None);
    let (buckets, gran) = bucketize(&commits, date("2026-01-01"), date("2026-12-31"));
    assert_eq!(gran, Granularity::Month);
    assert_eq!(buckets.len(), 12);
    assert_eq!(buckets[2].label, "3月", "同一年内只显示月份就够");
    assert_eq!(buckets[2].files, 1);
    assert_eq!(buckets[10].files, 1);
    assert_eq!(buckets[0].files, 0);
}

#[test]
fn month_labels_carry_the_year_when_spanning_years() {
    let all = vec![(0, vec![entry("9", "2025-03-07 09:00:00", &["/a"])])];
    let (commits, _) = collect(&all, None);
    let (buckets, _) = bucketize(&commits, date("2025-11-01"), date("2026-02-01"));
    assert_eq!(buckets[0].label, "2025-11");
    assert_eq!(buckets.len(), 4);
}

#[test]
fn revspec_reverses_and_widens_the_day_range() {
    assert_eq!(revspec(None), "HEAD:1");
    assert_eq!(revspec(Some((date("2026-09-01"), date("2026-09-01")))), "{2026-09-03}:{2026-08-31}");
}

#[test]
fn presets_cover_the_expected_days() {
    let today = date("2026-09-07");
    let mut page = StatsPage::new();
    for (preset, from) in [
        (RangePreset::Today, "2026-09-07"),
        (RangePreset::Week, "2026-09-01"),
        (RangePreset::Month, "2026-08-09"),
        (RangePreset::Year, "2025-09-08"),
    ] {
        page.range = preset;
        let span = page.resolve(today).unwrap().expect("预设区间总有边界");
        assert_eq!((span.0, span.1), (date(from), today), "{:?}", preset.label());
    }
    page.range = RangePreset::All;
    assert_eq!(page.resolve(today).unwrap(), None);
}

#[test]
fn custom_range_reports_what_is_wrong() {
    let today = date("2026-09-07");
    let mut page = StatsPage::new();
    page.range = RangePreset::Custom;

    page.custom_from = "2026/09/01".to_owned();
    page.custom_to = String::new();
    assert!(page.resolve(today).unwrap_err().contains("起始日期"));

    page.custom_from = "2026-09-05".to_owned();
    page.custom_to = "2026-09-01".to_owned();
    assert!(page.resolve(today).unwrap_err().contains("早于起始日期"));

    page.custom_to = String::new();
    assert_eq!(page.resolve(today).unwrap(), Some((date("2026-09-05"), today)));
    page.custom_from = "2026-9-1".to_owned();
    assert_eq!(page.resolve(today).unwrap(), Some((date("2026-09-01"), today)));
}

#[test]
fn heatmap_grid_is_aligned_to_weeks_and_zero_filled() {
    let all = vec![(0, vec![entry("9", "2026-09-04 09:00:00", &["/a", "/b"])])];
    let (commits, _) = collect(&all, None);
    let heat = build_heat(&commits, date("2026-09-02"), date("2026-09-08"));
    assert_eq!(heat.mode, HeatMode::Day);
    assert_eq!(heat.rows, 7);
    assert_eq!(heat.cols, 2, "周三到次周周二跨两周");
    assert_eq!(heat.cells.len(), 7, "区间内每天都有格子，没提交的那天也要有");
    assert_eq!(heat.max, 2);
    let wed = heat.cells.iter().find(|c| c.title == "2026-09-02").unwrap();
    assert_eq!((wed.col, wed.row, wed.files), (0, 2, 0), "9-02 是周三，落在第三行");
    let fri = heat.cells.iter().find(|c| c.title == "2026-09-04").unwrap();
    assert_eq!((fri.col, fri.row, fri.files), (0, 4, 2), "9-04 是周五");
    assert_eq!(heat.row_labels[0], (0, "一".to_owned()));
}

#[test]
fn heatmap_degrades_to_months_before_it_gets_unreadable() {
    let all = vec![(0, vec![entry("9", "2024-05-04 09:00:00", &["/a"])])];
    let (commits, _) = collect(&all, None);
    let heat = build_heat(&commits, date("2023-01-01"), date("2025-12-31"));
    assert_eq!(heat.mode, HeatMode::Month);
    assert_eq!((heat.rows, heat.cols), (12, 3));
    assert_eq!(heat.cells.len(), 36);
    let may = heat.cells.iter().find(|c| c.title == "2024年5月").unwrap();
    assert_eq!((may.col, may.row, may.files), (1, 4, 1));
}

#[test]
fn custom_range_chart_covers_exactly_the_requested_days() {
    let today = date("2026-09-11");
    let span = resolve_range(RangePreset::Custom, "2026-08-20", "2026-08-25", today)
        .unwrap()
        .expect("自定义区间要能解析出边界");
    assert_eq!(span, (date("2026-08-20"), date("2026-08-25")));
    assert_eq!(revspec(Some(span)), "{2026-08-27}:{2026-08-19}");

    let all = vec![(
        0,
        vec![
            entry("1", "2026-08-19 10:00:00", &["/before"]),
            entry("2", "2026-08-20 10:00:00", &["/a", "/b"]),
            entry("3", "2026-08-23 10:00:00", &["/c"]),
            entry("4", "2026-08-25 23:00:00", &["/d"]),
            entry("5", "2026-08-26 10:00:00", &["/after"]),
            entry("6", "2026-08-27 10:00:00", &["/after2"]),
        ],
    )];
    let (commits, _) = collect(&all, Some(span));
    let revs: Vec<&str> = commits.iter().map(|commit| commit.rev.as_str()).collect();
    assert_eq!(revs, ["2", "3", "4"], "边界外的版本要裁掉");

    let (buckets, gran) = bucketize(&commits, span.0, span.1);
    assert_eq!(gran, Granularity::Day);
    assert_eq!(buckets.len(), 6, "横轴只能有用户选的那 6 格");
    let labels: Vec<&str> = buckets.iter().map(|bucket| bucket.label.as_str()).collect();
    assert_eq!(labels, ["08-20", "08-21", "08-22", "08-23", "08-24", "08-25"]);
    let files: Vec<usize> = buckets.iter().map(|bucket| bucket.files).collect();
    assert_eq!(files, vec![2, 0, 0, 1, 0, 1]);
}

#[test]
fn axis_steps_stay_on_round_numbers() {
    assert_eq!(y_step(0) * 4, 4);
    assert_eq!(y_step(37) * 4, 40);
    assert_eq!(y_step(101) * 4, 200);
    assert_eq!(y_step(200) * 4, 200);
    assert_eq!(y_step(2000) * 4, 2000);
}

#[test]
fn clicking_a_bucket_maps_back_to_its_dates() {
    assert_eq!(
        bucket_span(
            Granularity::Day,
            "2026-09-04",
            Some((date("2026-08-09"), date("2026-09-07")))
        ),
        Some((date("2026-09-04"), date("2026-09-04")))
    );
    assert_eq!(
        bucket_span(Granularity::Month, "2026-02", None),
        Some((date("2026-02-01"), date("2026-02-28"))),
        "平年 2 月 28 天"
    );
    assert_eq!(
        bucket_span(Granularity::Month, "2024-02", None),
        Some((date("2024-02-01"), date("2024-02-29"))),
        "闰年 2 月 29 天"
    );
    assert_eq!(
        bucket_span(Granularity::Month, "2026-12", None),
        Some((date("2026-12-01"), date("2026-12-31"))),
        "12 月不能翻到下一年"
    );
    assert_eq!(
        bucket_span(
            Granularity::Hour,
            "09",
            Some((date("2026-09-07"), date("2026-09-07")))
        ),
        Some((date("2026-09-07"), date("2026-09-07")))
    );
    assert_eq!(bucket_span(Granularity::Day, "上周", None), None);
    assert_eq!(bucket_span(Granularity::Month, "2026", None), None);
}

#[test]
fn month_cells_carry_clamped_bounds() {
    let all = vec![(0, vec![entry("9", "2023-06-04 09:00:00", &["/a"])])];
    let (commits, _) = collect(&all, None);
    let heat = build_heat(&commits, date("2023-01-15"), date("2025-03-20"));
    assert_eq!(heat.mode, HeatMode::Month);
    let first = heat.cells.iter().find(|c| c.title == "2023年1月").unwrap();
    assert_eq!((first.from, first.to), (date("2023-01-15"), date("2023-01-31")));
    let last = heat.cells.iter().find(|c| c.title == "2025年3月").unwrap();
    assert_eq!((last.from, last.to), (date("2025-03-01"), date("2025-03-20")));
    let mid = heat.cells.iter().find(|c| c.title == "2024年2月").unwrap();
    assert_eq!((mid.from, mid.to), (date("2024-02-01"), date("2024-02-29")));
}

#[test]
fn calendar_grid_starts_on_monday_and_keeps_six_weeks() {
    let days = calendar_days(2026, 9);
    assert_eq!(days.len(), 42, "固定 6 周，翻月才不会上下跳");
    assert_eq!(days[0], None, "不属于本月的格子留空");
    assert_eq!(days[1], Some(date("2026-09-01")));
    assert_eq!(days[6], Some(date("2026-09-06")), "第一行最后一格是周日");
    let in_month: Vec<Date> = days.iter().flatten().copied().collect();
    assert_eq!(in_month.len(), 30, "9 月 30 天，不多不少");
    assert_eq!(in_month.first(), Some(&date("2026-09-01")));
    assert_eq!(in_month.last(), Some(&date("2026-09-30")));
    assert_eq!(calendar_days(2024, 2).iter().flatten().count(), 29, "闰年 2 月");
    assert_eq!(calendar_days(2026, 2).iter().flatten().count(), 28, "平年 2 月");
    assert_eq!(
        calendar_days(2026, 12).into_iter().flatten().last(),
        Some(date("2026-12-31")),
        "12 月不能溢出到下一年"
    );
}

#[test]
fn month_shifting_wraps_across_the_year() {
    assert_eq!(shift_month(date("2026-01-01"), -1), date("2025-12-01"));
    assert_eq!(shift_month(date("2026-12-01"), 1), date("2027-01-01"));
    assert_eq!(shift_month(date("2026-03-01"), -1), date("2026-02-01"));
}

#[test]
fn day_limits_block_the_reversed_side() {
    let limits = DayLimits { from: None, to: Some(date("2026-09-05")) };
    assert!(limits.allows(date("2026-09-05")), "上限当天本身要能选");
    assert!(!limits.allows(date("2026-09-06")), "上限之后就点不了");
    let limits = DayLimits { from: Some(date("2026-09-05")), to: None };
    assert!(!limits.allows(date("2026-09-04")));
    assert!(DayLimits::default().allows(date("2026-09-04")), "不设限时什么都能点");
}

#[test]
fn reversed_dates_are_flagged_without_waiting_for_query() {
    assert!(reversed_hint("2026-09-10", "2026-09-01").is_some_and(|warn| warn.contains("晚于")));
    assert!(reversed_hint("2026-09-01", "2026-09-10").is_none());
    assert!(reversed_hint("2026-09-01", "").is_none(), "结束日留空 = 到今天，不该报错");
    assert!(reversed_hint("乱填", "2026-09-10").is_none(), "读不出日期时交给查询去报");
}

// ---------------------------------------------------------------- charts

#[test]
fn a_cell_is_found_by_its_place() {
    let all = vec![(0, vec![entry("9", "2026-09-02 09:00:00", &["/a"])])];
    let (commits, _) = collect(&all, None);
    let heat = build_heat(&commits, date("2026-09-01"), date("2026-09-08"));
    let hit = heat.cells.iter().find(|item| item.title == "2026-09-02").unwrap();
    let got = &heat.cells[heat.cell_at(hit.col, hit.row).expect("格子正中要命中")];
    assert_eq!((got.col, got.row), (hit.col, hit.row));
    assert_eq!((got.from, got.to), (date("2026-09-02"), date("2026-09-02")), "日格就是那一天");
    // 1 September 2026 is a Tuesday: there is no Monday in its column.
    assert_eq!(heat.cell_at(0, 0), None);
}

#[test]
fn every_commit_in_the_range_is_in_a_bucket_and_in_a_cell() {
    let list: Vec<LogEntry> = (1..=20)
        .map(|i| entry(&i.to_string(), &format!("2026-09-{i:02} 09:00:00"), &["/a", "/b"]))
        .collect();
    let (commits, _) = collect(&vec![(0, list)], None);
    let (buckets, _) = bucketize(&commits, date("2026-09-01"), date("2026-09-20"));
    assert_eq!(buckets.iter().map(|b| b.revs).sum::<usize>(), 20);
    assert_eq!(buckets.iter().map(|b| b.files).sum::<usize>(), 40);
    let heat = build_heat(&commits, date("2026-09-01"), date("2026-09-20"));
    assert_eq!(heat.cells.iter().map(|c| c.revs).sum::<usize>(), 20);
}

#[test]
fn months_end_where_the_calendar_says() {
    assert_eq!(month_bounds(2024, 2), (date("2024-02-01"), date("2024-02-29")));
    assert_eq!(month_bounds(2026, 12), (date("2026-12-01"), date("2026-12-31")));
}

#[test]
fn totals_tell_paths_days_and_directories_apart() {
    let all = vec![
        (
            0,
            vec![
                entry("1", "2026-09-01 09:00:00", &["/a", "/b"]),
                entry("2", "2026-09-01 10:00:00", &["/a"]),
            ],
        ),
        (3, vec![entry("7", "2026-09-02 09:00:00", &["/c"])]),
    ];
    let (commits, _) = collect(&all, None);
    let t = totals(&commits);
    assert_eq!((t.revs, t.files, t.distinct_files, t.active_days, t.dirs), (3, 4, 3, 2, 2));
    assert_eq!(busiest(&commits), Some(0));
    assert_eq!(busiest(&Vec::new()), None);
}

#[test]
fn a_scale_ends_at_its_top() {
    assert_eq!(scale_value(9, 0), 0);
    assert_eq!(scale_value(9, 1), 2);
    assert_eq!(scale_value(9, 4), 9);
}

// ---------------------------------------------------------------- the page

#[test]
fn a_query_asks_every_directory_and_counts_the_answers() {
    let today = date("2026-09-07");
    let mut page = StatsPage::new();
    assert_eq!(page.dir, ALL_DIRS);
    assert!(matches!(page.start(2, " dev ", today), Start::Go(list) if list == [0, 1]));
    assert_eq!(page.author, "dev");
    assert_eq!(page.revspec, "{2026-09-09}:{2026-08-08}");
    assert_eq!(answered_line(&page.view), "已回 0 / 2 个目录");
    let epoch = page.epoch;
    assert_eq!(
        page.apply(0, epoch, vec![entry("1", "2026-09-01 09:00:00", &["/a"])], true, String::new(), today),
        None
    );
    // An answer to another query is late.
    assert_eq!(page.apply(1, epoch + 1, Vec::new(), true, String::new(), today), None);
    assert_eq!(page.view.received, 1);
    let said = page.apply(1, epoch, Vec::new(), false, "svn: E1".to_owned(), today);
    assert_eq!(said, Some("提交统计完成：2 个目录，共 1 条文件记录".to_owned()));
    assert_eq!(page.failed[0].1, "svn: E1");
    assert_eq!(page.view.buckets.len(), 30);
    assert_eq!(peak(&page.view.buckets), 1);
    assert_eq!(page.note(false), None);
    assert_eq!(page.drill((date("2026-09-01"), date("2026-09-01"))), Some((0, Vec::new())));
    assert_eq!(page.drill((date("2026-09-02"), date("2026-09-02"))), None);
}

#[test]
fn a_query_needs_somebody_and_a_range() {
    let today = date("2026-09-07");
    let mut page = StatsPage::new();
    assert!(matches!(page.start(2, "  ", today), Start::NoUser));
    page.range = RangePreset::Custom;
    page.custom_from = "2026-09-08".to_owned();
    assert!(matches!(page.start(2, "dev", today), Start::Refused(t) if !t.is_empty()));
    assert!(!page.error.is_empty());
    page.custom_from = "262142-12-30".to_owned();
    page.custom_to = "262142-12-31".to_owned();
    assert!(matches!(page.start(2, "dev", today), Start::TooFar | Start::Refused(_)));
    page.range = RangePreset::All;
    page.dir = 1;
    assert!(matches!(page.start(2, "dev", today), Start::Go(list) if list == [1]));
    assert_eq!(page.drill((today, today)), Some((1, Vec::new())));
}

#[test]
fn answers_to_an_earlier_query_are_dropped() {
    let today = date("2026-09-07");
    let mut page = StatsPage::new();
    assert!(matches!(page.start(1, "dev", today), Start::Go(_)));
    let epoch = page.epoch;
    page.range = RangePreset::Custom;
    page.custom_from = "soon".to_owned();
    assert!(matches!(page.start(1, "dev", today), Start::Refused(_)));
    let late = vec![entry("1", "2026-09-01 09:00:00", &["/a"])];
    assert_eq!(page.apply(0, epoch, late.clone(), true, String::new(), today), None);
    assert!(page.done.is_empty());
    assert!(page.view.buckets.is_empty());
    page.range = RangePreset::Month;
    assert!(matches!(page.start(1, "", today), Start::NoUser));
    assert_eq!(page.apply(0, epoch + 1, late, true, String::new(), today), None);
    assert!(page.done.is_empty());
}

#[test]
fn a_click_on_a_bucket_leads_to_its_days() {
    let today = date("2026-09-07");
    let mut page = StatsPage::new();
    page.range = RangePreset::All;
    page.start(1, "dev", today);
    let day = date("2026-09-01");
    // All commits lie on one day, so that the buckets are hours.
    page.apply(0, page.epoch, vec![entry("1", "2026-09-01 09:00:00", &["/a"])], true, String::new(), today);
    assert_eq!(page.view.gran, Granularity::Hour);
    assert_eq!(page.view.days_at(9), Some((day, day)));
    page.start(1, "dev", today);
    let list = vec![entry("1", "2026-09-01 09:00:00", &["/a"]), entry("2", "2026-08-30 09:00:00", &["/a"])];
    page.apply(0, page.epoch, list, true, String::new(), today);
    assert_eq!(page.view.gran, Granularity::Day);
    assert_eq!(page.view.days_at(2), Some((day, day)));
    page.start(1, "dev", today);
    let list = vec![entry("1", "2026-09-01 09:00:00", &["/a"]), entry("2", "2026-02-10 09:00:00", &["/a"])];
    page.apply(0, page.epoch, list, true, String::new(), today);
    assert_eq!(page.view.gran, Granularity::Month);
    assert_eq!(page.view.days_at(0), Some((date("2026-02-01"), date("2026-02-28"))));
}

#[test]
fn the_page_says_what_it_shows() {
    assert_eq!(user_line(" "), "本机 svn 登录人待探测");
    assert_eq!(user_line("dev"), "本人：dev");
    assert_eq!(days_line((date("2026-09-01"), date("2026-09-01"))), "2026-09-01");
    assert_eq!(
        drill_line("HRP", (date("2026-09-01"), date("2026-09-02")), &Vec::new()),
        "已打开「HRP」的提交记录：2026-09-01 ~ 2026-09-02"
    );
    let others = vec!["Web".to_owned(), "库".to_owned()];
    assert_eq!(
        drill_line("HRP", (date("2026-09-01"), date("2026-09-01")), &others),
        "已打开「HRP」的提交记录：2026-09-01（当天多个目录都有提交，已跳到文件最多的那个。还有：Web、库）"
    );
    let page = StatsPage::new();
    assert_eq!(page.note(true), Some("正在读取服务器提交记录 …"));
    assert_eq!(page.note(false), Some("还没有可画的数据：等目录读回来，或换个区间再查。"));
    assert!(cell_line(3).contains('3'));
    assert_eq!(
        legend_line(Granularity::Day, 30, 40, true),
        "按天（30 格，左轴上限 40，橙色柱子按自身峰值归一化）"
    );
    assert_eq!(ChartKind::all().len(), 3);
    assert_eq!(RangePreset::all().len(), 6);
}

#[test]
fn a_commit_has_what_all_its_records_say() {
    let all = vec![
        (3, vec![entry("9", "no date at all", &["/lost"]), entry("10", "2026-09-02 10:00:00", &["/a", "/b"])]),
        (1, vec![entry("10", "2026-09-03 11:00:00", &["/b", "/c"]), entry("8", "2026-09-01 08:00:00", &["/d"])]),
    ];
    let (commits, skipped) = collect(&all, None);
    assert_eq!(skipped, 1);
    let revs: Vec<&str> = commits.iter().map(|c| c.rev.as_str()).collect();
    assert_eq!(revs, ["8", "10"]);
    assert_eq!((commits[1].dir, commits[1].day, commits[1].time.as_str()), (3, date("2026-09-02"), "10:00:00"));
    assert_eq!(commits[1].paths, ["/a", "/b", "/c"]);
    // Only the second record of revision 10 lies in the range.
    let (commits, _) = collect(&all, Some((date("2026-09-03"), date("2026-09-03"))));
    assert_eq!(commits.len(), 1);
    assert_eq!((commits[0].dir, commits[0].paths.len()), (1, 2));
    let twice: Vec<(usize, Vec<LogEntry>)> = all.iter().chain(&all).map(|(d, l)| (*d, l.clone())).collect();
    assert_eq!(collect(&twice, None).0.len(), 2);
}

#[test]
fn every_day_has_one_cell() {
    for (from, to) in [
        ("2026-09-02", "2026-09-08"),
        ("2026-09-07", "2026-09-07"),
        ("2023-01-15", "2025-03-20"),
        ("+262142-12-01", "+262142-12-30"),
        ("+262139-02-03", "+262142-11-30"),
        ("-262143-01-01", "-262140-05-06"),
    ] {
        let (from, to) = (date(from), date(to));
        let heat = build_heat(&Vec::new(), from, to);
        assert_eq!((heat.cells[0].from, heat.cells[heat.cells.len() - 1].to), (from, to));
        for pair in heat.cells.windows(2) {
            assert_eq!(pair[0].to.shifted(1), Some(pair[1].from));
            assert_ne!((pair[0].col, pair[0].row), (pair[1].col, pair[1].row));
        }
        assert!(heat.cells.iter().all(|c| c.col < heat.cols && c.row < heat.rows));
    }
}

#[test]
fn far_years_are_counted_too() {
    let commits = collect(&vec![(0, vec![entry("1", "2026-09-01 09:00:00", &["/a"])])], None).0;
    let mut far = commits;
    far[0].day = date("+12026-09-01");
    let (buckets, gran) = bucketize(&far, date("+12026-08-30"), date("+12026-09-03"));
    assert_eq!(gran, Granularity::Day);
    assert_eq!(buckets.iter().map(|b| b.files).sum::<usize>(), 1);
}

#[test]
fn months_count_every_commit_of_a_written_year() {
    let all = vec![(0, vec![entry("1", "0000-01-01 09:00:00", &["/a"]), entry("2", "9999-12-31 09:00:00", &["/b", "/c"])])];
    let commits = collect(&all, None).0;
    let (buckets, gran) = bucketize(&commits, date("-0002-05-01"), date("+10001-02-01"));
    assert_eq!(gran, Granularity::Month);
    assert_eq!(buckets.iter().map(|b| b.files).sum::<usize>(), 3);
    assert_eq!(buckets.iter().map(|b| b.revs).sum::<usize>(), 2);
    let busy = busy_buckets(&buckets);
    assert_eq!(busy.iter().map(|i| buckets[*i].key.as_str()).collect::<Vec<_>>(), ["0000-01", "9999-12"]);
}

#[test]
fn the_pages_of_the_calendar_end_with_it() {
    assert!(has_month(2026, 12) && !has_month(2026, 13) && !has_month(262142, 12));
    assert_eq!(turn_page(date("2026-12-05"), 1), date("2027-01-01"));
    assert_eq!(turn_page(date("2026-01-05"), -1), date("2025-12-01"));
    assert_eq!(turn_page(date("+262142-11-03"), 1), date("+262142-11-03"));
    assert_eq!(page_of(date("2026-09-07")), date("2026-09-01"));
    assert_eq!(page_of(date("+262142-12-07")), date("+262142-12-07"));
}

#[test]
fn charts_reach_to_the_end_of_the_calendar() {
    let today = date("2026-09-07");
    let mut page = StatsPage::new();
    page.range = RangePreset::Custom;
    page.custom_from = "+262142-04-01".to_owned();
    page.custom_to = "+262142-05-01".to_owned();
    let begun = page.start(1, "dev", date("+262142-06-01"));
    assert!(matches!(begun, Start::Go(list) if list == [0]));
    let epoch = page.epoch;
    page.apply(0, epoch, Vec::new(), true, String::new(), today);
    assert_eq!(page.view.heat.cells.len(), 31);
    assert_eq!(page.view.buckets.len(), 31);
}
