//! The state of the program: tasks, their results, the search for newer versions, comparisons.

use svn_manager::compare::{bound_session, looks_like_server, order_sides, BcSession, Launch};
use svn_manager::config::{Config, DirConfig};
use svn_manager::date::{parse_date, Date};
use svn_manager::jobs::{Checked, Data, End, Inbox, Kind, UpdateManifest};
use svn_manager::locate::Detected;
use svn_manager::model::{Level, Maintain, Page};
use svn_manager::refresh::{Probe, Refresh};
use svn_manager::results::line_level;
use svn_manager::state::{typed_path, SvnApp, Wish, OUTPUT_LIMIT};
use svn_manager::svn::{Item, LogEntry, LogPath, Run, StatusEntry, WcInfo};
use svn_manager::updates::{
    auth_finish, comparer, detect_finish, detect_line, font_line, has_update, Answer, Fetch, Installed,
    UpdateCheck,
};
use svn_manager::windows::{
    action_in, file_url, log_action, margin, names_xml, shown_message, FileDiff, FileLog, Place, Placement, Zoom,
};
use svn_manager::work::Act;

fn today() -> Date {
    parse_date("2026-09-07").unwrap()
}

fn app_with(paths: &[&str]) -> SvnApp {
    let cfg = Config {
        svn_exe: r"C:\svn\svn.exe".to_owned(),
        dirs: paths
            .iter()
            .map(|path| DirConfig {
                path: (*path).to_owned(),
                ..Default::default()
            })
            .collect(),
        ..Default::default()
    };
    let (mut app, _) = SvnApp::new(
        cfg,
        String::new(),
        Some("1.14".to_owned()),
        true,
        String::new(),
        "config.json",
        0,
    );
    app.clear_output();
    app
}

fn two() -> SvnApp {
    app_with(&[r"C:\wc\hrp", r"C:\wc\crm"])
}

fn good(out: &str) -> Run {
    Run::new(true, 0, out.to_owned(), String::new())
}

fn bad() -> Run {
    Run::new(false, 1, String::new(), "svn: E1".to_owned())
}

fn said(app: &SvnApp) -> Vec<&str> {
    app.output.iter().map(|line| line.text.as_str()).collect()
}

fn manifest(version: &str, sha256: &str) -> UpdateManifest {
    UpdateManifest {
        version: version.to_owned(),
        notes: String::new(),
        published_at: String::new(),
        url: "https://x/a.exe".to_owned(),
        sha256: sha256.to_owned(),
    }
}

// ---------------------------------------------------------------- the list

#[test]
fn the_program_starts_with_a_check_or_a_search() {
    let cfg = Config {
        svn_exe: "svn.exe".to_owned(),
        ..Default::default()
    };
    let (app, wishes) = SvnApp::new(cfg, String::new(), Some("1.14".to_owned()), true, String::new(), "c.json", 0);
    assert!(matches!(wishes[..], [Wish::RefreshAll]));
    assert_eq!(said(&app), ["SVN 管理器 已启动（配置：c.json）", "svn.exe = svn.exe（版本 1.14）"]);
    let (_, wishes) = SvnApp::new(Config::default(), String::new(), None, false, String::new(), "c.json", 0);
    assert!(matches!(wishes[..], [Wish::Detect]));
}

#[test]
fn the_output_keeps_the_newest_lines() {
    let mut app = two();
    app.push(Level::Info, "a\n\n  \nb");
    assert_eq!(said(&app), ["a", "b"]);
    for i in 0..OUTPUT_LIMIT {
        app.push(Level::Info, &i.to_string());
    }
    assert_eq!(app.output.len(), OUTPUT_LIMIT);
    assert_eq!(app.output[0].text, "0");
}

#[test]
fn a_directory_is_added_once() {
    let mut app = two();
    assert_eq!(typed_path(" \"C:\\wc\\new\\\" "), r"C:\wc\new\");
    let wishes = app.add_directory(r"C:\wc\new", true);
    assert!(wishes.iter().any(|w| matches!(w, Wish::Save { told: false })));
    assert!(wishes.iter().any(|w| matches!(w, Wish::Refresh { dir: 2, .. })));
    assert_eq!(app.cfg.dirs.len(), 3);
    assert_eq!(app.dirs.len(), 3);
    assert!(app.add_directory(r"c:/wc/new", true).is_empty());
    assert!(app.add_directory(r"C:\wc\none", false).is_empty());
    assert_eq!(app.cfg.dirs.len(), 3);
    assert_eq!(app.dir_label(2), "new");
    assert!(matches!(app.remove_directory(2)[..], [Wish::Save { told: false }]));
    assert_eq!(app.cfg.dirs.len(), 2);
    assert!(app.remove_directory(9).is_empty());
}

#[test]
fn moving_there_and_back_changes_nothing() {
    let mut app = two();
    app.list.selected = Some(0);
    assert!(matches!(app.move_directory(0, 1)[..], [Wish::Save { told: true }]));
    assert_eq!(app.cfg.dirs[1].path, r"C:\wc\hrp");
    assert_eq!(app.move_directory(1, -1).len(), 1);
    assert_eq!(app.cfg.dirs[0].path, r"C:\wc\hrp");
    assert!(app.move_directory(0, -1).is_empty());
    assert_eq!(app.selected_target(0, -1), None);
}

#[test]
fn without_a_client_the_settings_open() {
    let mut app = two();
    assert!(app.svn_or_none(false).is_none());
    assert!(app.show_settings);
    assert!(app.svn_or_none(true).is_some());
    let wishes = app.apply_svn_exe("\"D:\\svn.exe\"");
    assert_eq!(app.svn.exe, r"D:\svn.exe");
    assert!(matches!(wishes[..], [Wish::Version, Wish::Save { told: true }]));
    app.hint("已添加目录");
    app.persist(&Some("磁盘满".to_owned()), false);
    assert_eq!(app.hint, "已添加目录");
    app.persist(&Some("磁盘满".to_owned()), true);
    assert_eq!(app.hint, "保存配置失败：磁盘满");
}

// ---------------------------------------------------------------- tasks

#[test]
fn one_check_runs_at_a_time_and_another_waits() {
    let mut app = two();
    assert!(app.spawn_refresh(0, false, true, true).is_some());
    assert!(app.pool.has(Kind::Refresh, 0));
    assert!(app.spawn_refresh(0, true, true, true).is_none());
    assert_eq!(app.timing.pending_refresh, [(0, true)]);
    let found = Checked {
        info: None,
        remote: Some(false),
        remote_msg: "断网".to_owned(),
        remote_rev: String::new(),
        last_rev: String::new(),
        last_author: String::new(),
        last_date: String::new(),
        changed: None,
        changes: Vec::new(),
        conflicts: None,
        out_of_date: None,
    };
    let inbox = vec![Inbox {
        lines: vec!["$ svn info".to_owned()],
        end: End::Done(Data::Wc { dir: 0, found }),
    }];
    let (again, mut results) = app.drain(inbox);
    assert!(again);
    assert_eq!(app.pool.running(), 0);
    assert!(app.dirs[0].checked_at.is_empty());
    assert_eq!(results.len(), 1);
    let (kind, _, data) = results.remove(0);
    let wishes = app.take(kind, data, "09:30", today(), "1.0");
    assert!(matches!(wishes[..], [Wish::Refresh { dir: 0, quiet: true }]));
    assert_eq!(app.dirs[0].remote_msg, "断网");
    assert_eq!(app.dirs[0].checked_at, "09:30");
    assert!(app.timing.pending_refresh.is_empty());
    assert_eq!(app.pool.running(), 0);
    assert_eq!(app.output[0].level, Level::Command);
}

#[test]
fn all_directories_are_checked_together() {
    let mut app = two();
    let list = app.spawn_all_refresh(true, &vec![true, true]);
    assert_eq!(list.len(), 2);
    assert_eq!(app.pool.running(), 2);
    let mut lost = two();
    assert!(lost.spawn_all_refresh(false, &vec![true, true]).is_empty());
}

#[test]
fn a_check_asks_the_working_copy_then_the_server() {
    const INFO: &str = r#"<info><entry kind="dir" path="." revision="120"><url>https://h/svn/hrp</url>
<repository><root>https://h/svn</root></repository><wc-info></wc-info>
<commit revision="118"><author>dev</author><date>2026-09-10T01:12:00.000000Z</date></commit></entry></info>"#;
    let mut check = Refresh::new(0, "HRP", r"C:\wc\hrp", false);
    assert!(matches!(check.begin(), Probe::Info(t) if t == r"C:\wc\hrp"));
    let (_, next) = check.after_info(&good(INFO));
    assert!(matches!(next, Probe::Info(t) if t.starts_with("https://h/svn/hrp")));
    assert!(matches!(check.after_head(&good(&INFO.replace("120", "128"))), Probe::Server));
    let status = r#"<status><target path="."><entry path="C:\wc\hrp\a"><wc-status item="modified" props="none"/><repos-status item="modified" props="none"/></entry><entry path="C:\wc\hrp\b"><wc-status item="conflicted" props="none"/></entry></target></status>"#;
    let (lines, next) = check.after_server(&good(status));
    assert!(lines.iter().any(|l| l == "[HRP] 服务器上有 1 项本地还没更新"), "{lines:?}");
    assert!(matches!(
        next,
        Probe::Done(Checked { changed: Some(1), conflicts: Some(1), out_of_date: Some(1), remote: Some(true), remote_rev, .. })
            if remote_rev == "128"
    ));
    let mut none = Refresh::new(0, "HRP", r"C:\wc\hrp", true);
    let (lines, next) = none.after_info(&bad());
    assert!(lines.is_empty());
    assert!(matches!(next, Probe::Done(Checked { changed: None, remote: Some(false), .. })));
}

#[test]
fn commands_are_begun_by_directory() {
    let mut app = two();
    let job = app.spawn_update(0, true).unwrap();
    assert!(matches!(&job.act, Act::Update { path, .. } if path == r"C:\wc\hrp"));
    assert!(job.command(&None).args.iter().any(|a| a == "update"));
    let (_, data) = job.finish(&bad());
    assert!(matches!(data, Data::Run { dir: 0, ok: false, .. }));

    let job = app.spawn_status(1, false, true).unwrap();
    assert!(matches!(job.act, Act::Status { .. }));
    let (_, data) = job.finish(&good("<status></status>"));
    assert!(matches!(data, Data::Status { dir: 1, ok: true, .. }));

    let job = app.spawn_log_in(1, false, false, None, true).unwrap();
    assert!(job.command(&None).args.iter().any(|a| a == "log"));
    let job = app.spawn_diff(1, r"C:\wc\crm\a.xml".to_owned(), true, true).unwrap();
    assert!(job.command(&None).args.iter().any(|a| a == "-w --ignore-eol-style"));
    assert!(app.spawn_maintain(1, Maintain::Cleanup, true).is_some());
    assert!(app.spawn_relocate(1, "a".to_owned(), "b".to_owned(), "b/x".to_owned(), true).is_none());
    assert_eq!(app.hint, "该目录还有任务在执行，请稍后再试");
    assert!(app.spawn_update(9, true).is_none());
}

#[test]
fn an_upload_is_begun_once() {
    let mut app = two();
    let (_, path, label) = app.spawn_upload_all(1, true).unwrap();
    assert_eq!(path, r"C:\wc\crm");
    assert_eq!(label, "crm");
    assert!(app.is_any_committing());
    assert!(app.spawn_upload_all(1, true).is_none());
}

#[test]
fn a_lost_task_is_told_and_its_page_freed() {
    let mut app = two();
    let _ = app.spawn_status(0, false, true);
    let (again, results) = app.drain(vec![Inbox {
        lines: Vec::new(),
        end: End::Lost,
    }]);
    assert!(again && results.is_empty());
    assert_eq!(app.pool.running(), 0);
    assert!(!said(&app).is_empty());
}

#[test]
fn results_go_to_their_pages() {
    let mut app = two();
    let wishes = app.open_commit(0, true);
    assert!(matches!(wishes[..], [Wish::Status { dir: 0, quiet: false }]));
    assert_eq!(app.page, Page::Commit);
    let entry = StatusEntry {
        path: r"C:\wc\hrp\a".to_owned(),
        name: "a".to_owned(),
        item: Item::Modified,
        props: "none".to_owned(),
        checked: true,
    };
    app.take_status(0, vec![entry], true, "");
    assert_eq!(app.commit.as_ref().unwrap().entries.len(), 1);
    app.take_status(1, Vec::new(), true, "");
    assert_eq!(app.commit.as_ref().unwrap().entries.len(), 1);
    let wishes = app.take_commit(0, true, "HRP：已提交 1 项", true);
    assert!(app.commit.as_ref().unwrap().done_ok);
    assert!(wishes.iter().any(|w| matches!(w, Wish::Refresh { dir: 0, .. })));
    app.back_to_main();
    assert_eq!(app.page, Page::Main);

    let wishes = app.open_history(1, true);
    assert!(matches!(wishes[..], [Wish::Log { dir: 1, .. }, ..]) || !wishes.is_empty());
    let record = LogEntry {
        revision: "7".to_owned(),
        author: "dev".to_owned(),
        date: "2026-09-01 10:00:00".to_owned(),
        message: "m".to_owned(),
        paths: Vec::new(),
    };
    app.take_log(1, vec![record], true, "");
    assert_eq!(app.history.as_ref().unwrap().entries.len(), 1);
    let wishes = app.take_user("dev".to_owned());
    assert_eq!(app.login.svn_user, "dev");
    assert!(wishes.iter().any(|w| matches!(w, Wish::Log { dir: 1, mine: true, .. })));
}

#[test]
fn the_settings_say_whose_records_open() {
    let mut app = two();
    app.cfg.history_only_mine = false;
    app.open_history(1, true);
    assert!(!app.history.as_ref().unwrap().mine);
    // Whoever is logged in, the page goes on to show the records of all.
    assert!(app.take_user("dev".to_owned()).is_empty());
    assert_eq!(app.history.as_ref().unwrap().author, "dev");
    assert!(!app.history.as_ref().unwrap().mine);

    let mut app = two();
    app.open_history(1, true);
    assert!(!app.history.as_ref().unwrap().mine);
    let wishes = app.take_user("dev".to_owned());
    assert!(matches!(wishes[..], [Wish::Log { dir: 1, mine: true, .. }]));
    assert!(app.history.as_ref().unwrap().mine);
}

#[test]
fn statistics_wait_for_the_user_and_then_ask() {
    let mut app = two();
    let wishes = app.open_stats(true);
    assert_eq!(app.page, Page::Stats);
    assert!(!wishes.is_empty());
    assert!(app.stats_after_user_probe());
    let wishes = app.take_user("dev".to_owned());
    assert!(wishes.iter().any(|w| matches!(w, Wish::Stats)));
    let jobs = app.spawn_stats(today(), true);
    assert_eq!(jobs.len(), 2);
    assert!(jobs.iter().all(|j| matches!(j.act, Act::Stats { .. })));
    let epoch = app.stats.as_ref().unwrap().epoch;
    let record = LogEntry {
        revision: "7".to_owned(),
        author: "dev".to_owned(),
        date: "2026-09-01 10:00:00".to_owned(),
        message: "m".to_owned(),
        paths: vec![LogPath { action: 'M', kind: "file".to_owned(), path: "/a".to_owned() }],
    };
    app.apply_stats(0, epoch, vec![record], true, String::new(), today());
    app.apply_stats(1, epoch, Vec::new(), true, String::new(), today());
    assert_eq!(app.stats.as_ref().unwrap().view.totals.files, 1);
    assert!(said(&app).iter().any(|t| t.contains("提交统计完成")) || app.hint.contains("提交统计完成"));
    let day = parse_date("2026-09-01").unwrap();
    assert!(!app.drill_into((day, day), true).is_empty());
    assert_eq!(app.page, Page::History);
    assert_eq!(app.history.as_ref().unwrap().range, Some((day, day)));
    assert_eq!(app.hint, format!("已打开「{}」的提交记录：2026-09-01", app.dir_label(0)));
}

#[test]
fn a_click_on_a_busy_day_names_the_other_directories() {
    let mut app = app_with(&["C:\\a", "C:\\b", "C:\\c", "C:\\d"]);
    app.open_stats(true);
    app.take_user("dev".to_owned());
    app.spawn_stats(today(), true);
    let epoch = app.stats.as_ref().unwrap().epoch;
    let record = |rev: &str, paths: &[&str]| LogEntry {
        revision: rev.to_owned(),
        author: "dev".to_owned(),
        date: "2026-09-01 10:00:00".to_owned(),
        message: String::new(),
        paths: paths
            .iter()
            .map(|p| LogPath { action: 'M', kind: "file".to_owned(), path: (*p).to_owned() })
            .collect(),
    };
    app.apply_stats(3, epoch, vec![record("1", &["/1"])], true, String::new(), today());
    app.apply_stats(1, epoch, vec![record("2", &["/2", "/3"])], true, String::new(), today());
    app.apply_stats(0, epoch, vec![record("3", &["/4"]), record("4", &[])], true, String::new(), today());
    app.apply_stats(2, epoch, Vec::new(), true, String::new(), today());
    let day = parse_date("2026-09-01").unwrap();
    app.drill_into((day, day), true);
    assert_eq!(app.history.as_ref().unwrap().dir, 1);
    assert_eq!(
        app.hint,
        "已打开「b」的提交记录：2026-09-01（当天多个目录都有提交，已跳到文件最多的那个。还有：a、d）"
    );
}

#[test]
fn a_client_that_was_found_is_used() {
    let mut app = two();
    assert!(app.spawn_detect());
    assert!(!app.spawn_detect());
    let data = detect_finish(
        Detected::Found(r"D:\svn.exe".to_owned(), "1.14".to_owned()),
        vec![r"D:\svn.exe".to_owned()],
    )
    .unwrap();
    assert!(detect_finish(Detected::Ask(0), Vec::new()).is_none());
    app.login.refresh_after_detect = true;
    let wishes = app.take(Kind::DetectSvn, data, "09:30", today(), "1.0");
    assert!(matches!(wishes[..], [Wish::Version, Wish::Save { told: false }, Wish::RefreshAll]));
    assert_eq!(app.cfg.svn_exe, r"D:\svn.exe");
    assert!(app.take_client("", "", Vec::new()).is_empty());
    assert!(app.show_settings);
    assert_eq!(detect_line(3, "0.5"), "→ 3 个候选路径（扫描用时 0.5 秒）");
    let (line, data) = auth_finish(&bad(), "", "dev");
    assert_eq!(line, "→ 本机 svn 登录人：dev");
    assert!(matches!(data, Data::User { user } if user == "dev"));
}

#[test]
fn lines_of_the_client_have_levels() {
    assert_eq!(line_level("$ svn info"), Level::Command);
    assert_eq!(line_level("svn: E155007: x"), Level::Error);
}

// ---------------------------------------------------------------- newer versions

#[test]
fn what_is_due_goes_by_the_clock() {
    let mut app = two();
    assert!(app.due(0, true).is_empty());
    let wishes = app.due(3_000, true);
    assert!(matches!(wishes[..], [Wish::CheckUpdate { quiet: false }]));
    assert!(matches!(app.due(4_000, true)[..], [Wish::RefreshAll]));
    assert_eq!(app.timing.next_refresh, 4_000 + 120_000);
    app.cfg.auto_update_check = true;
    app.cfg.auto_refresh = 0;
    assert!(matches!(app.due(300_000, true)[..], [Wish::CheckUpdate { quiet: true }]));
    assert!(app.due(300_001, true).is_empty());
    let mut late = two();
    assert!(matches!(late.due(5_000, true)[..], [Wish::CheckUpdate { quiet: false }]));
    assert!(matches!(late.due(5_000, true)[..], [Wish::RefreshAll]));
}

#[test]
fn a_newer_version_is_announced() {
    let mut app = two();
    app.cfg.update_source = "custom".to_owned();
    let (wishes, check) = app.spawn_update_check(false, false, "repo");
    assert!(wishes.is_empty() && check.is_none());
    assert_eq!(app.hint, "未配置更新服务端地址，请在「设置 → 版本更新」里填写");
    let (wishes, check) = app.spawn_update_check(false, true, "repo");
    assert!(matches!(wishes[..], [Wish::Save { told: true }]));
    let check: UpdateCheck = check.unwrap();
    assert_eq!(check.opening(), Some("$ 检查版本更新：repo".to_owned()));
    let (lines, data) = check.finish(Answer::Newest(manifest("1.3.0", ""), true));
    assert_eq!(lines.len(), 2);
    let _ = app.take(Kind::CheckUpdate, data, "09:30", today(), "1.2.0");
    assert_eq!(app.hint, "有新版本 V1.3.0，点击顶部「↑ 新版本」按钮即可更新");
    assert!(app.news_caption().unwrap().contains("1.3.0"));
    let (_, data) = check.finish(Answer::Failed("断网".to_owned()));
    assert!(matches!(data, Data::UpdateCheck { ok: false, .. }));
    app.take_check(false, "断网", None, false, false, "1.2.0");
    assert_eq!(*said(&app).last().unwrap(), "检查更新失败：断网");
    app.take_check(true, "", None, false, false, "1.2.0");
    assert_eq!(*said(&app).last().unwrap(), "更新源没有返回版本信息");
    // A quiet check writes only where there is something new.
    let before = app.output.len();
    app.take_check(false, "断网", None, false, true, "1.2.0");
    app.take_check(true, "", Some(manifest("1.2.0", "")), false, true, "1.2.0");
    assert_eq!(app.output.len(), before);
    app.take_check(true, "", Some(manifest("1.3.0", "")), true, true, "1.2.0");
    assert_eq!(app.output.len(), before + 1);
}

#[test]
fn a_download_is_checked_before_it_is_used() {
    let mut app = two();
    assert!(app.begin_update().is_none());
    app.news.update_info = Some(manifest("1.3.0", "abc"));
    let load = app.begin_update().unwrap();
    assert!(app.begin_update().is_none());
    assert_eq!(load.opening(), "$ 正在下载新版本：https://x/a.exe");
    let (line, next) = load.after_download("1.5");
    assert_eq!(line, "→ 下载完成（1.5 MB）");
    assert!(matches!(next, Fetch::Hash));
    let (_, next) = load.after_hash(9, Ok("xyz".to_owned()));
    assert!(matches!(
        next,
        Fetch::Done(Data::UpdateDownloaded { ok: false, message, bytes: 9 })
            if message == "SHA256 校验不符（期望 abc，实际 xyz）"
    ));
    let (line, next) = load.after_hash(9, Ok("abc".to_owned()));
    assert_eq!(line, Some("→ SHA256 校验通过".to_owned()));
    assert!(matches!(next, Fetch::Compare));
    let own = Some("same".to_owned());
    assert!(matches!(load.after_compare(9, &own, &own).1, Fetch::Done(Data::UpdateDownloaded { ok: false, .. })));
    assert!(matches!(load.after_compare(9, &None, &own).1, Fetch::Done(Data::UpdateDownloaded { ok: true, .. })));
    assert!(matches!(load.failed("断网".to_owned()), Fetch::Done(Data::UpdateDownloaded { ok: false, .. })));
    assert!(matches!(app.take_download(true, "")[..], [Wish::ApplyUpdate]));
    assert!(app.take_download(false, "断网").is_empty());
    assert_eq!(app.news.update_error, Some("断网".to_owned()));
}

#[test]
fn it_is_told_how_a_new_version_was_put_in_place() {
    let mut app = two();
    app.apply_downloaded_update(Installed::Lost("x".to_owned()));
    assert_eq!(app.hint, "无法确定程序自身路径：x");
    app.apply_downloaded_update(Installed::NotSwapped("占用".to_owned()));
    assert_eq!(app.hint, "占用");
    app.apply_downloaded_update(Installed::Started {
        exe: "a.exe".to_owned(),
        old: "a.old".to_owned(),
    });
    assert_eq!(*said(&app).last().unwrap(), "程序即将退出，新版本会自动启动…");
}

// ---------------------------------------------------------------- the top line and the settings

#[test]
fn the_top_line_sums_the_connections_up() {
    let mut app = two();
    assert_eq!(app.connection(true).text, "等待检测");
    assert_eq!(app.connection(false).text, "未找到 svn.exe");
    app.dirs[0].remote = Some(true);
    assert_eq!(app.connection(true).text, "部分连接（1/2）");
    app.dirs[1].remote = Some(true);
    assert_eq!(app.connection(true).text, "已连接 SVN（2/2）");
    app.dirs[0].remote = Some(false);
    app.dirs[1].remote = Some(false);
    app.dirs[1].remote_msg = "断网".to_owned();
    let c = app.connection(true);
    assert_eq!((c.text.as_str(), c.reason.as_str()), ("未连接 SVN（0/2）", "断网"));
    assert_eq!(app.running_line(), None);
    app.pool.spawn(Kind::Log, 1, "读取日志".to_owned());
    assert_eq!(app.running_line(), Some("1 个任务：任务执行中".to_owned()));
    app.list.selected = Some(1);
    assert_eq!(app.running_line(), Some("1 个任务：读取日志".to_owned()));
    app.login.probing = true;
    assert_eq!(app.connection(true).text, "正在寻找 svn.exe");
}

#[test]
fn themes_go_round() {
    let mut app = two();
    let first = app.cfg.theme.clone();
    let caption = app.theme_caption();
    app.next_theme();
    app.next_theme();
    assert_ne!(app.theme_caption(), caption);
    app.next_theme();
    assert_eq!(app.cfg.theme, first);
    assert_eq!(app.theme_caption(), caption);
    app.toggle_settings();
    assert!(app.show_settings);
}

#[test]
fn settings_are_taken_over() {
    let mut app = two();
    app.cfg.auth_user = "dev".to_owned();
    app.cfg.auth_pass = "SECRET-REDACTED".to_owned();
    assert!(!app.apply_account().is_empty());
    assert_eq!(app.svn.username, "dev");
    app.set_server_side(true);
    assert_eq!(app.cfg.bc_server_side, "right");
    assert!(matches!(app.set_auto_start(true, &None)[..], [Wish::Save { told: false }]));
    assert!(app.cfg.auto_start);
    assert!(app.set_auto_start(false, &Some("拒绝".to_owned())).is_empty());
    assert!(app.cfg.auto_start);
    assert_eq!(comparer("a.exe", true, &None), "a.exe");
    assert_eq!(comparer("", false, &Some("b.exe".to_owned())), "b.exe");
    assert!(font_line(&None) != font_line(&Some("Noto".to_owned())));
    assert!(app.version_line().contains("1.14"));
}

// ---------------------------------------------------------------- comparisons

#[test]
fn the_server_takes_the_chosen_side() {
    let (l, r) = order_sides("S", "L", "left");
    assert_eq!((l.as_str(), r.as_str()), ("S", "L"));
    let (l, r) = order_sides("S", "L", "right");
    assert_eq!((l.as_str(), r.as_str()), ("L", "S"));
    assert!(looks_like_server("https://host/svn") || looks_like_server(r"\\server\share"));
    assert!(!looks_like_server(r"C:\wc"));
    let session = BcSession {
        name: "s".to_owned(),
        left: r"C:\wc\hrp".to_owned(),
        right: r"\\server\hrp".to_owned(),
        filter: "*.log".to_owned(),
        folder: true,
    };
    assert_eq!(bound_session(&vec![session], r"C:\wc\hrp", r"\\server\hrp"), Some(0));
    assert_eq!(bound_session(&Vec::new(), "a", "b"), None);
}

#[test]
fn a_comparison_opens_what_the_directory_is_bound_to() {
    let mut app = two();
    app.list.selected = Some(0);
    app.bind_target(0, r"\\server\hrp".to_owned());
    let (_, compare) = app.open_bcompare_matched(&Vec::new(), None);
    assert_eq!(compare.targets, [r"C:\wc\hrp", r"\\server\hrp"]);
    assert!(app.open_bcompare(&compare, Launch::Started));
    assert!(!app.open_bcompare(&compare, Launch::Missing));
    assert!(!app.open_bcompare(&compare, Launch::Failed("x".to_owned())));
    let file = app.open_bcompare_file(0, r"C:\wc\hrp\a.java", r"C:\Temp", true).unwrap();
    assert!(file.mirror.starts_with(r"C:\Temp"));
    let compare = app.after_base(&file, &None);
    assert_eq!(compare.targets.len(), 2);
    assert!(compare.targets.iter().any(|t| t == r"C:\wc\hrp\a.java"));
}

// ---------------------------------------------------------------- windows about one file

#[test]
fn a_file_has_its_own_log_and_differences() {
    assert_eq!(file_url("https://h/svn/", "/trunk/a b.xml"), file_url("https://h/svn", "/trunk/a b.xml"));
    assert!(names_xml("/trunk/A.XML") && !names_xml("/trunk/a.java"));
    let entry = LogEntry {
        revision: "7".to_owned(),
        author: "dev".to_owned(),
        date: "2026-09-01 10:00:00".to_owned(),
        message: " m ".to_owned(),
        paths: vec![LogPath { action: 'A', kind: "file".to_owned(), path: "/trunk/a.xml".to_owned() }],
    };
    assert_eq!(action_in(&entry, "/trunk/a.xml"), 'A');
    assert_eq!(action_in(&entry, "/trunk/b.xml"), 'M');
    assert_eq!(log_action('A'), "A 新增");
    assert_eq!(shown_message("  "), "(无提交说明)");
    let mut log = FileLog::open(0, "https://h/svn/trunk/a.xml", "/trunk/a.xml", 50);
    log.receive(vec![entry.clone()], true, "");
    assert_eq!(log.entries.len(), 1);
    log.receive(Vec::new(), false, "断网");
    assert_eq!(log.error, "断网");
    let mut diff = FileDiff::open(0, &entry, &entry.paths[0], "https://h/svn/trunk/a.xml");
    assert!(diff.ignore_white);
    diff.receive(true, "@@ -1 +1 @@\n-a\n+b\n");
    assert!(!diff.diff.is_empty());
    diff.ignore(false);
    assert!(!diff.ignore_white);
    assert!(margin(12).contains("12"));
    assert!(!margin(0).contains('0'));
}

#[test]
fn a_file_window_is_opened_from_a_record() {
    let mut app = two();
    app.dirs[0].info = Some(WcInfo {
        is_wc: true,
        url: "https://h/svn/trunk".to_owned(),
        repos_root: "https://h/svn".to_owned(),
        revision: "7".to_owned(),
        node_kind: "dir".to_owned(),
        last_rev: "7".to_owned(),
        last_author: "dev".to_owned(),
        last_date: String::new(),
    });
    let entry = LogEntry {
        revision: "7".to_owned(),
        author: "dev".to_owned(),
        date: String::new(),
        message: String::new(),
        paths: vec![LogPath { action: 'M', kind: "file".to_owned(), path: "/trunk/a.xml".to_owned() }],
    };
    let job = app.open_file_diff(0, &entry, &entry.paths[0], true).unwrap();
    assert!(matches!(&job.act, Act::FileDiff { revision, ignore_white: true, .. } if revision == "7"));
    assert!(app.file_diff.is_some());
    app.take_file_diff(0, true, "@@ -1 +1 @@");
    assert_eq!(app.file_diff.as_ref().unwrap().diff, "@@ -1 +1 @@");
    let job = app.open_file_log(0, &entry.paths[0], true).unwrap();
    assert!(matches!(job.act, Act::FileLog { .. }));
    app.take_file_log(0, vec![entry], true, "");
    assert_eq!(app.file_log.as_ref().unwrap().entries.len(), 1);
}

#[test]
fn a_window_goes_back_to_where_it_was() {
    let normal = Place { left: 1, top: 2, right: 3, bottom: 4 };
    let mut zoom = Zoom::maximized();
    assert_eq!(zoom.place(normal), Placement::Fill);
    zoom.toggle();
    assert_eq!(zoom.place(normal), Placement::At(normal));
    let mut free = Zoom::default();
    free.shown(normal);
    assert!(free.escape(true, false, true));
    assert!(!free.escape(true, true, true));
    assert!(!free.escape(false, false, true));
}

#[test]
fn another_build_is_news() {
    let own = Some("aa".to_owned());
    assert!(!has_update(&manifest("2.0", "aa"), &own, "1.0"));
    assert!(has_update(&manifest("1.0", "bb"), &own, "1.0"));
    assert!(!has_update(&manifest(" 1.0 ", ""), &own, "1.0"));
    assert!(has_update(&manifest("1.1", ""), &own, "1.0"));
    assert!(has_update(&manifest("1.1", "aa"), &None, "1.0"));
    assert!(!has_update(&manifest("1.0", "bb"), &None, "1.0"));
}

#[test]
fn what_was_done_to_the_comparing_program_is_told() {
    let mut app = two();
    app.reset_bc(&vec!["a".to_owned(), "b".to_owned()]);
    assert_eq!(said(&app), ["a", "b"]);
    assert!(app.hint.starts_with("已重置 Beyond Compare"));
    app.tell_rules(Ok("c".to_owned()));
    app.tell_rules(Err("d".to_owned()));
    assert_eq!(said(&app)[2..], ["c", "设置失败：d"]);
    assert_eq!(app.output[3].level, Level::Error);
}
