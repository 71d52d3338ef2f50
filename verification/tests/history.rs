//! The history page.

use svn_manager::date::parse_date;
use svn_manager::history::{
    add_pick, behind, drop_pick, headline, is_picked, source_line, spots_of, step_spot, HistoryPage, Spot,
};
use svn_manager::search::Search;
use svn_manager::stats::RangePreset;
use svn_manager::svn::{LogEntry, LogPath};

fn entry(revision: &str, when: &str) -> LogEntry {
    LogEntry {
        revision: revision.to_owned(),
        author: "zhangsan".to_owned(),
        date: when.to_owned(),
        message: String::new(),
        paths: Vec::new(),
    }
}

fn path(action: char, path: &str) -> LogPath {
    LogPath {
        action,
        kind: "file".to_owned(),
        path: path.to_owned(),
    }
}

fn new_page(only_mine: bool) -> HistoryPage {
    HistoryPage::new(0, "订单服务".to_owned(), 100, "zhangsan".to_owned(), only_mine)
}

fn visible(page: &HistoryPage) -> Vec<usize> {
    page.visible_with(&page.search())
}

/// One frame of the page: the list is settled, and what was scrolled to is done with.
fn frame(page: &mut HistoryPage) -> Vec<usize> {
    let search = page.search();
    let (shown, _) = page.settle(&search);
    page.jump = None;
    page.focus_path = None;
    shown
}

#[test]
fn search_modes_narrow_the_same_list() {
    let mut page = new_page(false);
    let mut fix = entry("101", "2026-09-01 10:00:00");
    fix.message = "fix 药品明细".to_owned();
    fix.paths = vec![path('M', "/src/address.vue")];
    let mut caps = entry("102", "2026-09-02 10:00:00");
    caps.message = "FIX 药品".to_owned();
    let mut word = entry("103", "2026-09-03 10:00:00");
    word.message = "保存 add-on".to_owned();
    page.entries = vec![fix, caps, word];

    page.filter = "fix".to_owned();
    assert_eq!(visible(&page), vec![0, 1], "默认不分大小写");
    page.search_case = true;
    assert_eq!(visible(&page), vec![0], "大小写敏感后 FIX 那条要掉出去");

    page.search_case = false;
    page.filter = r"r?\d{3}".to_owned();
    assert!(visible(&page).is_empty(), "没开正则时这就是个字面串，谁都匹配不上");
    page.search_regex = true;
    assert_eq!(visible(&page), vec![0, 1, 2], "开了正则，版本号三位数三条都命中");

    page.search_regex = false;
    page.filter = "add".to_owned();
    assert_eq!(visible(&page), vec![0, 2], "address 里的 add 也算子串");
    page.search_word = true;
    assert_eq!(visible(&page), vec![2], "整词只剩 add-on 那条");
}

#[test]
fn spots_follow_what_the_eye_sees() {
    let search = Search::build("vip", false, false, false);
    let mut first = entry("101", "2026-09-01 10:00:00");
    first.message = "vip 改造".to_owned();
    first.paths = vec![path('M', "/a/vip.java"), path('A', "/b/other.java"), path('M', "/c/vip.jsp")];
    let mut second = entry("102", "2026-09-02 10:00:00");
    second.message = "日常维护".to_owned();
    second.paths = vec![path('M', "/d/VIP.xml")];
    let entries = vec![first, second];
    assert_eq!(
        spots_of(&entries, &vec![0, 1], &search),
        vec![Spot::Row(0), Spot::Path(0, 0), Spot::Path(0, 2), Spot::Path(1, 0)],
        "说明在先、文件按顺序、记录自上而下"
    );
    assert_eq!(spots_of(&entries, &vec![1], &search), vec![Spot::Path(1, 0)]);
    assert!(spots_of(&entries, &vec![], &search).is_empty());
}

#[test]
fn step_spot_walks_and_wraps_around() {
    assert_eq!(step_spot(5, Some(0), 1), Some(1));
    assert_eq!(step_spot(5, Some(4), 1), Some(0), "最后一处再往下绕回第一处");
    assert_eq!(step_spot(5, Some(0), -1), Some(4), "第一处再往上绕回最后一处");
    assert_eq!(step_spot(5, None, 1), Some(0), "还没定位过时往下走给第一处");
    assert_eq!(step_spot(5, None, -1), Some(4), "还没定位过时往上走给最后一处");
    assert_eq!(step_spot(3, Some(9), 1), Some(0));
    assert_eq!(step_spot(0, Some(0), 1), None, "没有命中就无处可跳");
}

#[test]
fn arrow_buttons_reach_hits_inside_the_file_list() {
    let mut page = HistoryPage::new(0, "旧系统后端".to_owned(), 100, "zhangsan".to_owned(), false);
    let mut row = entry("5232", "2026-01-26 18:23:25");
    row.message = "日常维护".to_owned();
    row.paths = vec![
        path('M', "/code/a/BudgetAmountService.java"),
        path('M', "/code/b/ExternalDBService.java"),
        path('A', "/code/b/externalDB.xml"),
    ];
    page.entries = vec![row];
    page.filter = "externalDB".to_owned();
    assert!(page.can_step(), "搜索框那一行该有 ▼ 按钮");

    page.step = Some(1);
    frame(&mut page);
    assert_eq!(page.picked, Some(0), "要选中这条记录，右侧才会显示涉及文件");
    assert_eq!(page.spot, Some(0), "第一处命中是第一个 externalDB 文件");
    assert_eq!(page.focus_path, None, "右侧详情该渲染并处理过那一行（坐标用完即清）");
    page.step = Some(1);
    frame(&mut page);
    assert_eq!(page.spot, Some(1), "再点往下走第二处命中");
    page.step = Some(-1);
    frame(&mut page);
    assert_eq!(page.spot, Some(0), "▲ 回到第一处");
    page.step = Some(-1);
    frame(&mut page);
    assert_eq!(page.spot, Some(1), "第一处再往上绕回最后一处");
}

#[test]
fn arrow_buttons_walk_through_the_hits() {
    let mut page = new_page(false);
    page.entries = ["fix 药品明细", "FIX 药品", "保存 药品"]
        .into_iter()
        .enumerate()
        .map(|(index, message)| {
            let mut entry = entry(&format!("10{index}"), "2026-09-01 10:00:00");
            entry.message = message.to_owned();
            entry
        })
        .collect();
    page.filter = "药品".to_owned();

    page.step = Some(1);
    frame(&mut page);
    assert_eq!(page.picked, Some(0), "第一次点 ▼ 落到第一条");
    assert_eq!(page.jump, None, "滚到了就该把一次性标志清掉");
    page.step = Some(1);
    frame(&mut page);
    assert_eq!(page.picked, Some(1), "再点 ▼ 走第二条");
    page.step = Some(-1);
    frame(&mut page);
    assert_eq!(page.picked, Some(0), "点 ▲ 回到第一条");
    page.step = Some(-1);
    frame(&mut page);
    assert_eq!(page.picked, Some(2), "第一条再往上绕回最后一条");
}

#[test]
fn a_bad_regex_says_so_and_leaves_the_list() {
    let mut page = new_page(false);
    let mut row = entry("101", "2026-09-01 10:00:00");
    row.message = "fix 药品明细".to_owned();
    page.entries = vec![row];
    page.filter = "(".to_owned();
    page.search_regex = true;
    let search = page.search();
    assert!(search.error.contains('('), "提示里要带上出错的那个式子：{}", search.error);
    assert_eq!(frame(&mut page), [0]);
}

#[test]
fn chip_click_refreshes_the_result_in_the_same_frame() {
    let mut page = new_page(false);
    let mut lower = entry("101", "2026-09-01 10:00:00");
    lower.message = "fix 药品明细".to_owned();
    let mut upper = entry("102", "2026-09-02 10:00:00");
    upper.message = "FIX 药品".to_owned();
    page.entries = vec![lower, upper];
    page.filter = "fix".to_owned();
    page.picked = Some(1);
    assert_eq!(frame(&mut page), [0, 1], "默认不分大小写，两条都该在");

    page.search_case = true;
    assert_eq!(frame(&mut page), [0], "开了大小写敏感，FIX 那条要立刻从列表里消失");
    assert!(page.search_case, "按钮要点一下就生效");
    assert_eq!(page.picked, None, "被筛掉的选中记录要当场取消，右侧详情不能继续停在那条上");
}

#[test]
fn range_prunes_the_widened_query_window_out_of_the_list() {
    let mut page = new_page(true);
    page.entries = vec![
        entry("1", "2026-08-19 10:00:00"),
        entry("2", "2026-08-20 10:00:00"),
        entry("3", "2026-08-25 23:00:00"),
        entry("4", "2026-08-27 10:00:00"),
        entry("5", "看不懂的时间"),
    ];
    page.range = Some((parse_date("2026-08-20").unwrap(), parse_date("2026-08-25").unwrap()));
    assert_eq!(
        visible(&page),
        vec![1, 2],
        "放宽窗口带回来的边界外提交、以及读不出日期的记录都不能显示"
    );

    page.range = None;
    assert_eq!(visible(&page), vec![0, 1, 2, 3, 4], "不选区间时一切照旧");
}

// ---------------------------------------------------------------- ranges

#[test]
fn a_preset_is_read_at_once_and_a_typed_range_when_asked_for() {
    let today = parse_date("2026-09-07").unwrap();
    let mut page = new_page(true);
    assert!(page.pick_preset(RangePreset::Week, today));
    assert_eq!(page.preset, Some(RangePreset::Week));
    assert_eq!(page.range_label(), Some("读 2026-09-01 ~ 2026-09-07 的提交".to_owned()));
    assert_eq!(page.limit_label(), "条数（区间内不限）");

    assert!(!page.pick_preset(RangePreset::Custom, today));
    assert_eq!(page.preset, Some(RangePreset::Custom));
    page.custom_from = "x".to_owned();
    assert!(!page.query(today));
    assert!(page.range_error.contains("起始日期"), "{}", page.range_error);
    page.custom_from = "2026-09-05".to_owned();
    page.custom_to = "2026-09-06".to_owned();
    assert!(page.query(today));
    assert!(page.range_error.is_empty());
    assert_eq!(page.range_label(), Some("读 2026-09-05 ~ 2026-09-06 的提交".to_owned()));

    assert!(page.pick_count());
    assert_eq!(page.range, None);
    assert_eq!(page.limit_label(), "条数");
    assert!(!page.pick_count());
}

// ---------------------------------------------------------------- what the page says

#[test]
fn the_line_above_the_list_counts_records_and_hits() {
    let mut page = new_page(true);
    assert_eq!(page.mine_text(), "只看 zhangsan 的提交");
    page.entries = vec![entry("1", ""), entry("2", "")];
    assert_eq!(page.summary(2, 0, false), "2 条记录（zhangsan）");
    assert_eq!(page.summary(2, 3, false), "2 条记录（zhangsan） · 3 处命中");
    page.spot = Some(1);
    assert_eq!(page.summary(2, 3, false), "2 条记录（zhangsan） · 第 2/3 处命中");
    assert_eq!(page.summary(0, 0, false), "过滤后没有匹配记录");
    page.refresh();
    assert!(page.entries.is_empty());
    assert_eq!(page.summary(0, 0, true), "");
    assert_eq!(
        page.summary(0, 0, false),
        "服务器最近 100 条记录里没有 zhangsan 的提交，可增大条数、勾「不限」或关掉「只看 zhangsan」"
    );
    page.unlimited = true;
    assert_eq!(page.summary(0, 0, false), "服务器上没有 zhangsan 的提交，可关掉「只看 zhangsan」看看别人的");
    page.mine = false;
    assert_eq!(page.summary(0, 0, false), "没有取到提交记录");
}

#[test]
fn a_page_without_an_author_shows_everybody() {
    let page = HistoryPage::new(0, "a".to_owned(), 100, "  ".to_owned(), true);
    assert!(!page.mine);
    assert_eq!(page.mine_text(), "只看我的提交");
    assert!(!page.owns(&entry("1", "")));
    assert!(new_page(true).owns(&entry("1", "")));
}

#[test]
fn the_source_says_who_is_ahead() {
    assert!(behind("120", "128"));
    assert!(!behind("128", "128"));
    assert!(!behind("abc", "128"));
    assert_eq!(source_line("120", ""), "记录取自服务器 HEAD");
    assert_eq!(source_line("120", "128"), "记录取自服务器（最新 r128，本地 r120） · 本地待更新");
    assert_eq!(source_line("128", "128"), "记录取自服务器（最新 r128，本地 r128）");
}

#[test]
fn the_list_shows_the_first_line() {
    assert_eq!(headline("a\nb"), "a");
    assert_eq!(headline(""), "(无提交说明)");
}

#[test]
fn picks_are_by_directory_and_revision() {
    let mut picks = Vec::new();
    add_pick(&mut picks, 0, "HRP", &entry("7", ""));
    add_pick(&mut picks, 1, "CRM", &entry("7", ""));
    assert!(is_picked(&picks, 0, "7") && is_picked(&picks, 1, "7") && !is_picked(&picks, 0, "8"));
    let left = drop_pick(&picks, 0, "7");
    assert_eq!(left.len(), 1);
    assert_eq!(left[0].dir_label, "CRM");
}
