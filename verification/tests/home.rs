//! The list of directories: rows, cards, menus and dialogs.

use svn_manager::config::{Config, DirConfig};
use svn_manager::dialogs::{
    detail_counts, detail_empty, detail_line, detail_note, relocate_note, update_note, upload_note, Enter, UploadPress,
};
use svn_manager::home::{
    badge_colors, behind_badge, blocked_line, card_edge, card_tip, changes_badge, changes_note, conflicts_note,
    is_up_to_date, lamp, lamp_tip, last_commit, list_title, local_line, remote_line, server_note, standing_note,
    total_of, unread_note, Typed,
};
use svn_manager::jobs::{Kind, UpdateManifest};
use svn_manager::menu::{MenuAct, MenuItem};
use svn_manager::model::{DirView, Relocate, UploadAll};
use svn_manager::state::SvnApp;
use svn_manager::svn::{Item, StatusEntry, WcInfo};

fn info(url: &str, revision: &str) -> WcInfo {
    WcInfo {
        is_wc: true,
        url: url.to_owned(),
        repos_root: url.to_owned(),
        revision: revision.to_owned(),
        node_kind: "dir".to_owned(),
        last_rev: revision.to_owned(),
        last_author: "dev".to_owned(),
        last_date: "2026-09-10 09:12".to_owned(),
    }
}

fn dir(path: &str, label: &str) -> DirConfig {
    DirConfig {
        path: path.to_owned(),
        label: label.to_owned(),
        ..Default::default()
    }
}

/// Four directories: five items behind and three changed; up to date; never checked; in conflict.
fn stub_app(compact: bool) -> SvnApp {
    let cfg = Config {
        dirs: vec![
            dir(r"C:\wc\hrp", "HRP"),
            dir(r"C:\wc\crm", "CRM"),
            dir(r"C:\wc\empty", ""),
            dir(r"C:\wc\long", "这是一个故意写得很长的目录别名用来验证截断"),
        ],
        home_compact: compact,
        ..Default::default()
    };
    let (mut app, _) = SvnApp::new(cfg, String::new(), None, false, String::new(), "config.json", 0);
    app.login.svn_user = "dev".to_owned();
    app.login.user_probed = true;
    app.dirs = vec![
        DirView {
            info: Some(info("https://192.168.1.251/svn/hrp", "120")),
            remote: Some(true),
            remote_rev: "128".to_owned(),
            out_of_date: Some(5),
            changed: Some(3),
            checked_at: "09:30".to_owned(),
            ..Default::default()
        },
        DirView {
            info: Some(info("https://192.168.1.251/svn/crm", "198")),
            remote: Some(true),
            remote_rev: "200".to_owned(),
            out_of_date: Some(0),
            changed: Some(0),
            ..Default::default()
        },
        DirView {
            changed: Some(1287),
            ..Default::default()
        },
        DirView {
            info: Some(info("https://192.168.1.251/svn/long", "44")),
            remote: Some(true),
            remote_rev: "44".to_owned(),
            out_of_date: Some(0),
            conflicts: Some(2),
            ..Default::default()
        },
    ];
    app
}

/// What the cards show.
fn card_texts(app: &SvnApp) -> Vec<String> {
    let mut texts = Vec::new();
    for (index, view) in app.dirs.iter().enumerate() {
        texts.push(app.dir_label(index));
        texts.push(local_line(view));
        texts.push(remote_line(view));
        texts.push(behind_badge(view).0);
        texts.push(changes_badge(view).0);
    }
    texts
}

fn labels(menu: &[MenuItem]) -> Vec<&'static str> {
    menu.iter().map(|item| item.label).collect()
}

#[test]
fn switch_toggles_between_detailed_and_compact() {
    let mut app = stub_app(false);
    assert!(!app.cfg.home_compact, "默认应该是详细样式");
    assert_eq!(app.set_compact(true).len(), 1, "样式选择要写进配置文件");
    assert!(app.cfg.home_compact, "点「简约」应该切成卡片样式");
    assert_eq!(app.set_compact(false).len(), 1, "样式选择要写进配置文件");
    assert!(!app.cfg.home_compact, "点「详细」应该切回整行样式");
    assert!(app.set_compact(false).is_empty());
}

#[test]
fn compact_card_paints_versions_and_counts() {
    let app = stub_app(true);
    let texts = card_texts(&app);
    for label in [
        "HRP",
        "本地 r120",
        "远端 r128",
        "↓5",
        "↑3",
        "本地 r200",
        "远端 r200",
        "↓0",
        "↑0",
        "本地 —",
        "远端 —",
        "↑999+",
        "empty",
        "这是一个故意写得很长的目录别名用来验证截断",
    ] {
        assert!(
            texts.iter().any(|text| text == label),
            "卡片上应该画得出「{label}」，实际有：{texts:?}"
        );
    }
}

#[test]
fn badge_colors_stay_readable_in_both_themes() {
    let app = stub_app(true);
    let colors: Vec<_> = app
        .dirs
        .iter()
        .flat_map(|view| [badge_colors(behind_badge(view).2), badge_colors(changes_badge(view).2)])
        .collect();
    assert_eq!(colors.len(), 8, "四张卡片八枚标记");
    let quiet = (56, 168, 96);
    let busy = (214, 154, 22);
    assert!(colors.iter().all(|(fill, _, _)| *fill == quiet || *fill == busy), "标记底色只该是那两种实心色");
    assert_eq!(colors[0].0, busy, "有待办的标记该填深黄");
    assert_eq!(colors[2].0, quiet, "没待办的标记该填实心绿");
    assert!(colors.iter().all(|(fill, digits, _)| digits != fill), "数字颜色和底色相同，读不出来");
}

#[test]
fn busy_card_shows_only_a_spinner() {
    let mut app = stub_app(true);
    app.pool.spawn(Kind::Refresh, 0, "正在检测 …".to_owned());
    let texts = card_texts(&app);
    assert!(!texts.iter().any(|text| text == "正在检测 …"), "忙碌时不该再显示任务文字");
    for label in ["HRP", "本地 r120", "远端 r128", "↓5", "↑3"] {
        assert!(texts.iter().any(|text| text == label), "转圈不该挤掉卡片原有的「{label}」");
    }
}

#[test]
fn plus_menu_expands_two_levels() {
    let app = stub_app(true);
    let first = app.card_menu(0, false);
    for label in ["↓ 更新", "↑ 上传", "历史", "打开目录", "移除"] {
        assert!(labels(&first).contains(&label), "「+」菜单里应有「{label}」");
    }
    assert!(
        first.iter().any(|item| item.act == MenuAct::More && item.label.starts_with("更多")),
        "一级菜单里应有「更多」"
    );
    let second = app.more_menu(0, false);
    assert!(
        labels(&second).contains(&"▲ 上移"),
        "悬停「更多」应展开二级菜单，实际：{:?}",
        labels(&second)
    );
}

// ---------------------------------------------------------------- menus

#[test]
fn a_busy_directory_cannot_be_removed_or_repaired() {
    let mut app = stub_app(true);
    assert!(app.card_menu(0, true).iter().any(|item| item.act == MenuAct::Remove && !item.enabled));
    let more = app.more_menu(0, true);
    for act in [MenuAct::Cleanup, MenuAct::Resolve] {
        assert!(more.iter().any(|item| item.act == act && !item.enabled));
    }
    assert!(!more.iter().any(|item| item.act == MenuAct::Unbind));
    app.bind_target(0, r"D:\release".to_owned());
    assert!(app.more_menu(0, false).iter().any(|item| item.act == MenuAct::Unbind));
}

#[test]
fn a_directory_is_removed_by_two_presses() {
    let mut app = stub_app(false);
    assert!(!app.press_remove(1, false));
    assert_eq!(app.hint, "再次点击「确认移除」可把该目录从列表移除（不会删除文件）");
    assert!(app.card_menu(1, false).iter().any(|item| item.label == "确认移除?"));
    // Another directory asks anew.
    assert!(!app.press_remove(2, true));
    assert!(app.press_remove(2, true));
    assert_eq!(app.remove_directory(2).len(), 1);
    assert_eq!(app.cfg.dirs.len(), 3);
    assert_eq!(app.dirs.len(), 3);
    assert_eq!(app.cfg.dirs[2].path, r"C:\wc\long");
}

// ---------------------------------------------------------------- rows

#[test]
fn a_row_says_how_it_stands() {
    let app = stub_app(false);
    assert_eq!(standing_note(&app.dirs[0]), Some("远端 r128（可更新 5 项）".to_owned()));
    assert_eq!(standing_note(&app.dirs[1]), Some("已是最新".to_owned()));
    assert_eq!(standing_note(&app.dirs[2]), None);
    assert!(is_up_to_date(&app.dirs[1]) && !is_up_to_date(&app.dirs[0]));
    assert_eq!(changes_note(Some(3)), Some("本地修改 3 项".to_owned()));
    assert_eq!(changes_note(Some(0)), Some("无本地修改".to_owned()));
    assert_eq!(changes_note(None), None);
    assert_eq!(conflicts_note(Some(2)), Some("冲突 2 项".to_owned()));
    assert_eq!(conflicts_note(Some(0)), None);
    assert_eq!(unread_note(&app.dirs[2]), "未检测");
    assert_eq!(unread_note(&app.dirs[0]), "非工作副本或无法读取");
    assert_eq!(server_note("https://192.168.1.251/svn/hrp"), Some("仓库 192.168.1.251".to_owned()));
    assert_eq!(server_note("svn://host/x"), None);
    assert!(last_commit(&app.dirs[0]).unwrap().contains("2026-09-10 09:12"));
    assert_eq!(last_commit(&app.dirs[2]), None);
    assert_eq!(lamp_tip(&app.dirs[0]), "尚未检测（09:30）");
}

#[test]
fn colours_say_what_is_wrong() {
    let app = stub_app(true);
    assert_eq!(lamp(Some(true), false), (80, 200, 120));
    assert_eq!(lamp(Some(false), true), (240, 100, 100));
    assert_eq!(lamp(None, true), (240, 190, 70));
    assert_eq!(lamp(None, false), (120, 120, 120));
    assert_eq!(card_edge(&app.dirs[3], true), Some((255, 80, 160)));
    assert_eq!(card_edge(&app.dirs[0], false), None);
    assert_eq!(card_edge(&app.dirs[0], true), Some((240, 190, 70)));
    let tip = card_tip("HRP", r"C:\wc\hrp", &app.dirs[0]);
    assert!(tip.starts_with("HRP\nC:\\wc\\hrp\n仓库：https://192.168.1.251/svn/hrp\n本地 r120 · 远端 r128\n"), "{tip}");
}

#[test]
fn conflicts_are_listed_by_directory() {
    let mut app = stub_app(true);
    app.dirs[0].conflicts = Some(1);
    let list = app.blocked();
    assert_eq!(list, [(0, 1), (3, 2)]);
    assert_eq!(total_of(&list), Some(3));
    assert_eq!(total_of(&vec![(0, usize::MAX), (1, 1)]), None);
    assert!(app.blocked_tip(&list).contains("HRP：1 项"));
    assert_eq!(app.total_changes(), Some(1290));
    assert_eq!(list_title(4, 1290), "目录列表（4 个，本地修改合计 1290 项）");
    assert_eq!(blocked_line(3), "，3 项冲突待处理");
}

#[test]
fn an_alias_is_kept_or_given_up() {
    let mut app = stub_app(false);
    app.start_alias(0);
    assert_eq!(app.list.label_buf, "HRP");
    app.list.label_buf = " 新名 ".to_owned();
    assert_eq!(app.end_alias(0, Typed::Entered).len(), 1);
    assert_eq!(app.dir_label(0), "新名");
    app.start_alias(0);
    app.list.label_buf = "x".to_owned();
    assert!(app.end_alias(0, Typed::Cancelled).is_empty());
    assert_eq!(app.dir_label(0), "新名");
    app.start_filter(0);
    app.list.filter_buf = "*.log".to_owned();
    assert_eq!(app.end_filter(0, Typed::Entered).len(), 1);
    assert_eq!(app.cfg.dirs[0].bc_filter, "*.log");
    app.unbind_target(0);
    assert!(app.cfg.dirs[0].bc_target.is_empty());
    assert_eq!(app.copy_url(0), Some("https://192.168.1.251/svn/hrp".to_owned()));
    assert_eq!(app.copy_url(2), None);
    app.select(1);
    assert_eq!(app.list.selected, Some(1));
}

// ---------------------------------------------------------------- dialogs

fn relocation(from: &str, to: &str) -> Relocate {
    Relocate {
        dir: 0,
        from: from.to_owned(),
        to: to.to_owned(),
        focus: false,
        error: String::new(),
    }
}

#[test]
fn an_address_is_moved_by_its_front() {
    let current = "https://192.168.1.251/svn/hrp/trunk";
    let mut dialog = relocation(" https://192.168.1.251/ ", "https://svn.example.org/");
    let plan = dialog.planned(current).unwrap();
    assert_eq!(plan.new_url, "https://svn.example.org/svn/hrp/trunk");
    let back = relocation(&plan.to, &plan.from);
    assert_eq!(back.planned(&plan.new_url).unwrap().new_url, current);
    assert!(dialog.is_ready(false, current) && !dialog.is_ready(true, current));
    assert!(matches!(dialog.enter(true, current), Enter::Wait));
    assert!(matches!(dialog.enter(false, current), Enter::Go(m) if m.from == "https://192.168.1.251"));

    let mut same = relocation("https://192.168.1.251", "https://192.168.1.251");
    assert!(same.press(false, current).is_none());
    assert_eq!(relocate_note(false, &same.planned(current), current), Some("新旧地址一样"));
    assert_eq!(relocate_note(true, &None, current), Some("正在修改 …"));
    let mut other = relocation("https://elsewhere", "https://x");
    assert!(other.planned(current).is_none());
    assert_eq!(other.planned_tip(), "原地址前缀必须是当前地址的开头，请核对");
    assert!(matches!(other.enter(false, current), Enter::Refused));
    assert_eq!(other.error, "请填写与当前地址不同的新地址前缀");
    assert_eq!(relocation("https://a", " ").planned_tip(), "填好新地址前缀后，这里会显示改写后的地址");
}

#[test]
fn an_upload_of_everything_asks_twice() {
    let mut dialog = UploadAll::default();
    dialog.align(3);
    assert_eq!(dialog.picked(), 3);
    assert_eq!(dialog.caption(), "全部上传（3 个目录）");
    dialog.checked[1] = false;
    assert_eq!(dialog.caption(), "全部上传（勾选 2 / 3 个目录）");
    dialog.message = "说明".to_owned();
    assert!(matches!(dialog.press(true), UploadPress::Nothing));
    assert_eq!(dialog.blocked_note(true), Some("有目录正在提交，等它结束后才能批量上传"));
    assert!(matches!(dialog.press(false), UploadPress::Armed));
    assert_eq!(dialog.caption(), "确认上传？2 个目录的改动会立即进服务器");
    assert!(matches!(dialog.press(false), UploadPress::Go(list, m) if list == [0, 2] && m == "说明"));
    dialog.hold_back();
    assert!(!dialog.confirm);
    dialog.set_all(false);
    assert_eq!(dialog.blocked_note(false), Some("先勾选至少一个目录"));
    assert!(matches!(dialog.press(false), UploadPress::Nothing));
    assert_eq!(UploadAll::default().blocked_note(false), Some("目录列表是空的"));
    assert_eq!(upload_note(Some(0)), ("无改动，自动跳过".to_owned(), false));
    assert_eq!(upload_note(Some(2)), ("待提交 2 项".to_owned(), true));
    assert_eq!(upload_note(None), ("未检测，点击读取".to_owned(), true));
}

#[test]
fn the_details_of_an_upload_are_counted() {
    let entry = |item: Item, name: &str| StatusEntry {
        path: format!(r"C:\wc\hrp\{name}"),
        name: name.to_owned(),
        item,
        props: "none".to_owned(),
        checked: true,
    };
    let list = vec![entry(Item::Unversioned, "n"), entry(Item::Modified, "m"), entry(Item::Missing, "g")];
    assert_eq!(detail_counts(&list), (1, 1, 1));
    assert!(detail_line(&list[1], r"C:\wc\hrp").contains('m'));
    assert!(detail_note(Item::Unversioned).is_some());
    assert_eq!(detail_note(Item::Modified), None);
    let mut view = DirView::default();
    assert_eq!(detail_empty(&view), "尚未读到该目录的修改清单，点上方「重新读取」");
    view.changed = Some(0);
    assert_eq!(detail_empty(&view), "该目录没有会进本次上传的改动");
}

#[test]
fn a_new_version_is_described() {
    let manifest = UpdateManifest {
        version: " 1.3.0 ".to_owned(),
        notes: "更快\n".to_owned(),
        published_at: String::new(),
        url: "https://x/a.exe".to_owned(),
        sha256: String::new(),
    };
    let note = update_note(&manifest, false, "1.2.0");
    assert_eq!(note.from, Some("V1.2.0".to_owned()));
    assert_eq!(note.to, "V1.3.0");
    assert_eq!(note.published, None);
    assert_eq!(note.notes, "更快");
    let note = update_note(&manifest, true, "1.3.0");
    assert_eq!(note.from, None);
    assert_eq!(note.replaced, Some("内容有更新（版本号没变）"));
    let mut app = stub_app(false);
    app.news.show_update_confirm = true;
    assert!(!app.shows_update());
    app.news.update_info = Some(manifest);
    app.news.show_update_confirm = true;
    assert!(app.shows_update());
    app.news.update_error = Some("断网".to_owned());
    assert_eq!(app.update_state(), "上次下载失败：断网");
    app.forget_update_error();
    app.end_update_dialog(true, true);
    assert!(!app.shows_update());
}
