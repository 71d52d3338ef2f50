//! The commit page, and the commands that a commit is made of.

use svn_manager::commit::{
    caption, entry_hover, entry_note, outdated_hint, relative_to_root, shown_diff, staging_label, CommitPage, Press,
};
use svn_manager::config::{Config, DirConfig};
use svn_manager::jobs::{Data, Kind};
use svn_manager::model::{DirView, Maintain};
use svn_manager::state::SvnApp;
use svn_manager::svn::{Item, Run, StatusEntry};
use svn_manager::upload::{message_line, settle, start_upload, upload_plan, CommitPlan, CommitRun, Step, Upload};

fn entry(item: Item, checked: bool) -> StatusEntry {
    StatusEntry {
        path: format!("D:\\wc\\{}.java", item.mark()),
        name: format!("{}.java", item.mark()),
        item,
        props: "none".to_owned(),
        checked,
    }
}

fn page_of(items: Vec<Item>, checked: &[Item]) -> CommitPage {
    let mut page = CommitPage::new(0, "测试".to_owned());
    page.set_entries(
        items
            .into_iter()
            .map(|item| entry(item, checked.contains(&item)))
            .collect(),
    );
    page
}

/// Two directories: the first is five items behind, the second is up to date; a third was never
/// checked.
fn stub_app() -> SvnApp {
    let cfg = Config {
        dirs: ["hrp", "crm", "empty"]
            .iter()
            .map(|name| DirConfig {
                path: format!(r"C:\wc\{name}"),
                label: name.to_uppercase(),
                ..Default::default()
            })
            .collect(),
        ..Default::default()
    };
    let (mut app, _) = SvnApp::new(cfg, String::new(), None, false, String::new(), "config.json", 0);
    app.dirs = vec![
        DirView {
            remote_rev: "128".to_owned(),
            out_of_date: Some(5),
            changed: Some(3),
            ..Default::default()
        },
        DirView {
            remote_rev: "200".to_owned(),
            out_of_date: Some(0),
            ..Default::default()
        },
        DirView::default(),
    ];
    app
}

#[test]
fn checked_new_and_missing_join_the_commit() {
    let all = vec![
        Item::Modified,
        Item::Added,
        Item::Deleted,
        Item::Replaced,
        Item::Unversioned,
        Item::Missing,
        Item::Conflict,
        Item::Incomplete,
        Item::Normal,
    ];
    let page = page_of(all.clone(), &all);
    let targets = page.commit_targets();
    assert_eq!(targets.len(), 6, "{targets:?}");
    assert!(targets.iter().any(|path| path.ends_with("?.java")));
    assert!(targets.iter().any(|path| path.ends_with("!.java")));
    assert!(!targets.iter().any(|path| path.ends_with("C.java")));
    let unchecked = page_of(vec![Item::Unversioned, Item::Missing], &[]);
    assert!(unchecked.commit_targets().is_empty());
}

#[test]
fn staging_lists_only_take_checked_entries() {
    let page = page_of(
        vec![Item::Unversioned, Item::Missing, Item::Modified, Item::Added, Item::Deleted],
        &[Item::Unversioned, Item::Missing, Item::Modified],
    );
    assert_eq!(page.selected_targets(Maintain::Add), vec![r"D:\wc\?.java"]);
    assert_eq!(page.selected_targets(Maintain::Delete), vec![r"D:\wc\!.java"]);
    assert!(page.selected_targets(Maintain::Revert).is_empty());
}

#[test]
fn counters_fold_pending_add_and_delete_into_totals() {
    let page = page_of(
        vec![
            Item::Added,
            Item::Unversioned,
            Item::Modified,
            Item::Deleted,
            Item::Missing,
            Item::Conflict,
        ],
        &[],
    );
    assert_eq!(page.counts(), (2, 1, 2, 1));
}

#[test]
fn list_shows_paths_relative_to_working_copy_root() {
    assert_eq!(relative_to_root(r"D:\wc\src\views\index.vue", r"D:\wc"), r"src\views\index.vue");
    assert_eq!(relative_to_root(r"D:\wc\a.vue", r"D:\wc\"), r"a.vue");
    assert_eq!(relative_to_root(r"D:\wc", r"D:\wc"), r"D:\wc");
    assert_eq!(relative_to_root(r"D:\wc2\a.vue", r"D:\wc"), r"D:\wc2\a.vue");
}

#[test]
fn not_up_to_date_hint_only_fires_on_known_pending_changes() {
    let mut app = stub_app();
    let hint = app.not_up_to_date_hint(0).expect("有可更新项就要提示");
    assert!(hint.starts_with("未更新到最新版本"), "{hint}");
    assert!(hint.contains("r128") && hint.contains('5'), "{hint}");

    assert_eq!(app.not_up_to_date_hint(1), None, "已是最新就不提示");
    assert_eq!(app.not_up_to_date_hint(2), None, "还没读到过就不猜");
    assert_eq!(app.not_up_to_date_hint(99), None, "越界的目录不能 panic");

    app.dirs[0].remote_rev.clear();
    let hint = app.not_up_to_date_hint(0).expect("有可更新项就要提示");
    assert!(!hint.contains("远端已是"), "{hint}");
}

#[test]
fn commit_page_shows_the_not_up_to_date_warning() {
    let mut app = stub_app();
    app.commit = Some(page_of(vec![Item::Modified], &[Item::Modified]));
    let dir = app.commit.as_ref().unwrap().dir;
    let warning = app
        .not_up_to_date_hint(dir)
        .filter(|text| text.starts_with("未更新到最新版本"))
        .expect("服务器上还有 5 项没拉下来，提交页要亮这句");
    assert!(warning.contains("5 项改动没拉到本地"), "{warning}");

    app.commit = Some(CommitPage::new(1, "测试".to_owned()));
    if let Some(page) = app.commit.as_mut() {
        page.set_entries(vec![entry(Item::Modified, true)]);
    }
    let dir = app.commit.as_ref().unwrap().dir;
    assert!(app.not_up_to_date_hint(dir).is_none(), "已是最新还提示就成了误报");
}

/// Presses the commit button, and begins the commit where it is let through.
fn press(app: &mut SvnApp, page: &mut CommitPage) {
    if let Some(plan) = app.press_commit(page) {
        let message = page.message.clone();
        assert!(app.spawn_commit(page.dir, plan, &message, false).is_none());
    }
}

#[test]
fn commit_button_gates_when_not_up_to_date() {
    let mut app = stub_app();
    let mut page = page_of(vec![Item::Modified], &[Item::Modified]);
    let outdated = app.not_up_to_date_hint(0);
    assert_eq!(caption(page.commit_targets().len(), page.armed(&outdated)), "提交 1 项");

    press(&mut app, &mut page);
    assert!(page.confirm_outdated, "第一下该只拦住");
    assert!(!app.pool.has(Kind::Commit, 0), "拦住的这一下不能起提交任务");
    assert!(app.hint.contains("再点一次"), "{}", app.hint);

    assert!(page.armed(&outdated), "要给出退路");
    assert_eq!(
        caption(page.commit_targets().len(), page.armed(&outdated)),
        "仍要提交 1 项？",
        "按钮文案要换成确认口径"
    );

    press(&mut app, &mut page);
    assert!(
        app.output.iter().any(|line| line.text.contains("未更新到最新版本")),
        "放行时要往输出记录留痕：{:?}",
        app.output.iter().map(|line| line.text.clone()).collect::<Vec<_>>()
    );
    assert!(app.hint.contains("无法提交"), "第二下该越过拦截：{}", app.hint);
    assert!(!page.confirm_outdated, "放行后确认态要清掉");
}

#[test]
fn commit_gate_can_be_cancelled() {
    let mut app = stub_app();
    let mut page = page_of(vec![Item::Modified], &[Item::Modified]);
    press(&mut app, &mut page);
    page.give_up();
    assert!(!page.confirm_outdated, "放弃要真的松开");
    assert!(!app.pool.has(Kind::Commit, 0));

    let outdated = app.not_up_to_date_hint(0);
    assert_eq!(caption(page.commit_targets().len(), page.armed(&outdated)), "提交 1 项");
    press(&mut app, &mut page);
    assert!(page.confirm_outdated);
    page.set_entries(vec![entry(Item::Modified, true)]);
    assert!(!page.confirm_outdated, "重新读过清单就不能留着上一次的确认");
}

// ---------------------------------------------------------------- the page

#[test]
fn the_button_says_why_it_refuses() {
    let mut page = page_of(vec![Item::Modified], &[]);
    assert!(matches!(page.press_commit(false, &None), Press::Refused(t) if t == "未勾选要提交的文件"));
    let mut page = page_of(vec![Item::Modified], &[Item::Modified]);
    assert!(
        matches!(page.press_commit(true, &None), Press::Refused(t) if t == "该目录有 SVN 写操作正在执行，请稍候")
    );
    let mut page = page_of(vec![Item::Unversioned, Item::Missing], &[Item::Unversioned, Item::Missing]);
    assert!(matches!(
        page.press_commit(false, &None),
        Press::Begin { warning: None, hint } if hint == "正在提交 2 项，先 add 1 项、delete 1 项 …"
    ));
}

#[test]
fn a_page_up_to_date_commits_with_one_press() {
    let mut app = stub_app();
    app.svn.exe = "svn".to_owned();
    let mut page = CommitPage::new(1, "CRM".to_owned());
    page.set_entries(vec![entry(Item::Modified, true)]);
    let plan = app.press_commit(&mut page).unwrap();
    assert_eq!(plan.targets, [r"D:\wc\M.java"]);
    assert_eq!(app.hint, "正在提交 1 项 …");
    let (_, path, run) = app.spawn_commit(1, plan, "说明", true).unwrap();
    assert_eq!(path, r"C:\wc\crm");
    assert_eq!(run.label, "CRM");
    assert!(app.pool.has(Kind::Commit, 1));
    // A second commit of the same directory has to wait.
    assert!(app.press_commit(&mut page).is_none());
    assert_eq!(app.hint, "该目录有 SVN 写操作正在执行，请稍候");
}

#[test]
fn the_filter_looks_at_names_and_paths() {
    let mut page = page_of(vec![Item::Modified, Item::Added, Item::Conflict], &[]);
    assert_eq!(page.visible(), [0, 1, 2]);
    page.filter = "  WC\\m ".to_owned();
    assert_eq!(page.visible(), [0]);
    page.filter = "none".to_owned();
    assert!(page.visible().is_empty());
    assert_eq!(page.empty_text(), "过滤后没有匹配项");
}

#[test]
fn checks_can_be_set_for_all() {
    let mut page = page_of(vec![Item::Modified, Item::Conflict, Item::Missing], &[]);
    page.check_all(true);
    assert!(page.entries.iter().all(|e| e.checked));
    page.check_uploadable();
    let checked: Vec<bool> = page.entries.iter().map(|e| e.checked).collect();
    assert_eq!(checked, [true, false, true]);
    page.check_all(false);
    assert!(page.commit_targets().is_empty());
}

#[test]
fn reverting_takes_two_presses() {
    let mut page = page_of(vec![], &[]);
    assert!(!page.press_revert());
    assert!(page.press_revert());
    assert!(!page.confirm_revert);
}

#[test]
fn differences_leave_white_space_out_of_xml() {
    let mut page = page_of(vec![Item::Modified, Item::Unversioned], &[]);
    page.entries[0].path = r"D:\wc\Page.XML".to_owned();
    assert_eq!(page.pick(0), Some(true));
    assert!(page.diff_ignore);
    assert_eq!(page.diff, "正在读取差异 …");
    assert_eq!(page.ignore(false), Some(r"D:\wc\Page.XML".to_owned()));
    assert!(page.diff.is_empty() && !page.diff_ignore);
    assert_eq!(page.pick(1), None);
    assert_eq!(page.diff, "该条目尚未加入版本控制，没有差异可比对。");
}

#[test]
fn an_empty_diff_is_explained() {
    assert_eq!(shown_diff(true, "@@ -1 +1 @@", true), "@@ -1 +1 @@");
    assert_eq!(shown_diff(false, "  ", true), "无法取得差异（svn diff 执行失败）");
    assert_eq!(shown_diff(true, "\n", false), "没有差异：该文件内容与 BASE 版本一致。");
    assert!(shown_diff(true, "", true).starts_with("忽略空白与换行后没有内容改动"));
}

#[test]
fn items_say_what_precedes_them() {
    assert_eq!(entry_note(Item::Unversioned), Some("自动 add"));
    assert_eq!(entry_note(Item::Missing), Some("自动 delete"));
    assert_eq!(entry_note(Item::Modified), None);
    assert_eq!(entry_hover(&entry(Item::Modified, true)), format!("D:\\wc\\M.java\n状态：{}", Item::Modified.text()));
    assert_eq!(staging_label(2, 1), Some("自动 add 2 项 · delete 1 项".to_owned()));
    assert_eq!(staging_label(0, 0), None);
}

#[test]
fn the_reminder_names_the_version_of_the_server() {
    assert_eq!(outdated_hint(Some(0), "9"), None);
    assert_eq!(outdated_hint(None, "9"), None);
    let with = outdated_hint(Some(2), "9").unwrap();
    let without = outdated_hint(Some(2), "").unwrap();
    assert!(with.contains("r9") && with.contains("2 项"), "{with}");
    assert!(without.contains("2 项") && without.len() < with.len(), "{without}");
}

// ---------------------------------------------------------------- the commands

fn plan() -> CommitPlan {
    CommitPlan {
        targets: vec![r"D:\wc\a".to_owned(), r"D:\wc\new".to_owned(), r"D:\wc\gone".to_owned()],
        adds: vec![r"D:\wc\new".to_owned()],
        deletes: vec![r"D:\wc\gone".to_owned()],
    }
}

fn state(path: &str, item: Item) -> StatusEntry {
    StatusEntry {
        path: path.to_owned(),
        name: path.to_owned(),
        item,
        props: "none".to_owned(),
        checked: false,
    }
}

fn good() -> Run {
    Run::new(true, 0, String::new(), String::new())
}

fn bad() -> Run {
    Run::new(false, 1, String::new(), "svn: E1".to_owned())
}

#[test]
fn a_commit_adds_deletes_looks_again_commits_and_updates() {
    let mut run = CommitRun::new(4, "HRP", " 说明 \n更多", true, plan());
    let (lines, step) = run.begin();
    assert_eq!(lines, ["$ svn add --force （1 项）"]);
    assert!(matches!(step, Step::Add(list) if list == [r"D:\wc\new"]));
    let (lines, step) = run.after_add(&good());
    assert_eq!(lines, ["$ svn delete （1 项）"]);
    assert!(matches!(step, Step::Delete(list) if list == [r"D:\wc\gone"]));
    let (lines, step) = run.after_delete(&good());
    assert!(lines.is_empty());
    assert!(matches!(step, Step::Status));
    let fresh = vec![
        state(r"D:\wc\a", Item::Modified),
        state(r"D:\wc\new", Item::Added),
        state(r"D:\wc\gone", Item::Missing),
    ];
    let (lines, step) = run.after_status(&fresh, &good());
    assert_eq!(
        lines,
        [
            r"已跳过（未能加入版本控制或标记删除）：D:\wc\gone",
            "$ svn commit --depth empty （2 项）说明：说明"
        ]
    );
    assert!(matches!(step, Step::Commit(list) if list == [r"D:\wc\a", r"D:\wc\new"]));
    assert!(matches!(run.after_commit(&good()), Step::Update));
    let (lines, step) = run.after_update(&bad());
    assert_eq!(lines, ["HRP：提交成功，但提交后的更新没完成——svn: E1"]);
    assert!(matches!(
        step,
        Step::Done(Data::Run { dir: 4, ok: true, message, reload: true })
            if message == "HRP：已提交 2 项，另有 1 项被跳过（见输出记录）"
    ));
}

#[test]
fn a_commit_that_fails_is_reported_at_once() {
    let mut run = CommitRun::new(0, "HRP", "", true, plan());
    let _ = run.after_status(&vec![state(r"D:\wc\a", Item::Modified)], &good());
    assert!(matches!(
        run.after_commit(&bad()),
        Step::Done(Data::Run { dir: 0, ok: false, message, reload: true }) if message == "HRP：提交失败——svn: E1"
    ));
}

#[test]
fn nothing_ready_means_no_commit() {
    let mut run = CommitRun::new(0, "HRP", "", true, plan());
    let (lines, step) = run.after_status(&Vec::new(), &good());
    assert_eq!(lines.len(), 3);
    assert!(matches!(
        step,
        Step::Done(Data::Run { ok: false, message, .. }) if message == "HRP：3 项都没能进入提交调度，已放弃提交"
    ));
}

#[test]
fn a_status_that_failed_commits_the_list_as_it_is() {
    let (list, skipped) = settle(&plan(), &Vec::new(), false);
    assert_eq!(list, [r"D:\wc\a", r"D:\wc\new", r"D:\wc\gone"]);
    assert!(skipped.is_empty());
}

#[test]
fn an_added_directory_brings_what_is_below_it() {
    let plan = CommitPlan {
        targets: vec![r"D:\wc\dir".to_owned()],
        adds: vec![r"D:\wc\dir".to_owned()],
        deletes: Vec::new(),
    };
    let fresh = vec![
        state(r"D:\wc\dir", Item::Added),
        state(r"D:\wc\dir\x.java", Item::Added),
        state(r"D:\wc\dir2\y.java", Item::Added),
    ];
    let (list, skipped) = settle(&plan, &fresh, true);
    assert_eq!(list, [r"D:\wc\dir", r"D:\wc\dir\x.java"]);
    assert!(skipped.is_empty());
}

#[test]
fn a_whole_directory_is_uploaded_by_its_state() {
    let entries = vec![
        state(r"D:\wc\a", Item::Modified),
        state(r"D:\wc\n", Item::Unversioned),
        state(r"D:\wc\g", Item::Missing),
        state(r"D:\wc\c", Item::Conflict),
    ];
    let plan = upload_plan(&entries);
    assert_eq!(plan.targets, [r"D:\wc\a", r"D:\wc\n", r"D:\wc\g"]);
    assert_eq!(plan.adds, [r"D:\wc\n"]);
    assert_eq!(plan.deletes, [r"D:\wc\g"]);
    assert!(matches!(
        start_upload(1, "HRP", &entries, &good()),
        Upload::Go(line, _) if line == "HRP：全部上传 3 项（其中先 add 1 项、先 delete 1 项）"
    ));
    assert!(matches!(
        start_upload(1, "HRP", &Vec::new(), &good()),
        Upload::Done(Data::Run { ok: true, reload: false, .. })
    ));
    assert!(matches!(
        start_upload(1, "HRP", &entries, &bad()),
        Upload::Done(Data::Run { ok: false, message, .. }) if message == "HRP：读取本地修改失败——svn: E1"
    ));
}

#[test]
fn the_first_line_of_a_message_is_shown() {
    assert_eq!(message_line("\n  修复 药品 \n再说"), "修复 药品");
    assert_eq!(message_line("  \n "), "（空）");
}
