//! What the client is asked, and how its answers are read.

use svn_manager::client::{
    diff_flags, read_base, read_info, read_log, read_out_of_date, read_status, read_version, targets_file, with_targets, Svn,
};
use svn_manager::replies::{parse_info, parse_log, parse_out_of_date, parse_status};
use svn_manager::stream::LineFeed;
use svn_manager::svn::{blocked_count, decode_bytes, uploads_of, Item, Run};

fn client() -> Svn {
    Svn {
        exe: "svn".to_owned(),
        ..Default::default()
    }
}

fn texts(list: &[&str]) -> Vec<String> {
    list.iter().map(|t| (*t).to_owned()).collect()
}

#[test]
fn uploadable_covers_pending_add_and_delete() {
    let yes = [
        Item::Added,
        Item::Modified,
        Item::Deleted,
        Item::Replaced,
        Item::Unversioned,
        Item::Missing,
    ];
    let no = [
        Item::Conflict,
        Item::Incomplete,
        Item::Ignored,
        Item::External,
        Item::Normal,
        Item::Other,
    ];
    for item in yes {
        assert!(item.uploadable(), "{} 应算待提交", item.mark());
    }
    for item in no {
        assert!(!item.uploadable(), "{} 不应自动提交", item.mark());
    }
}

#[test]
fn parse_status_checks_everything_uploadable_by_default() {
    let xml = r#"<status>
  <target path="D:\wc">
    <entry path="D:\wc\mod.txt"><wc-status item="modified" props="none"/></entry>
    <entry path="D:\wc\new.txt"><wc-status item="unversioned" props="none"/></entry>
    <entry path="D:\wc\gone.txt"><wc-status item="missing" props="none"/></entry>
    <entry path="D:\wc\clash.txt"><wc-status item="conflicted" props="none"/></entry>
  </target>
</status>"#;
    let entries = parse_status(xml, r"D:\wc");
    let checked = |name: &str| {
        entries
            .iter()
            .find(|e| e.name == name)
            .unwrap_or_else(|| panic!("缺条目 {name}"))
            .checked
    };
    assert!(checked("mod.txt"), "修改项应默认勾选");
    assert!(checked("new.txt"), "未版本化(?)应默认勾选（提交时自动 add）");
    assert!(checked("gone.txt"), "已丢失(!)应默认勾选（提交时自动 delete）");
    assert!(!checked("clash.txt"), "冲突项必须先人工处理，不默认勾选");
}

#[test]
fn out_of_date_counts_repos_status_entries() {
    let xml = r#"<status>
  <target path="D:\wc">
    <entry path="D:\wc"><wc-status item="normal" props="none" revision="1097"/></entry>
    <entry path="D:\wc\a.vue"><wc-status item="normal" props="none" revision="1097"/><repos-status item="modified" props="none"/></entry>
    <entry path="D:\wc\b.vue"><wc-status item="normal" props="none" revision="1097"/><repos-status item="modified" props="none"/></entry>
  </target>
  <against revision="1098"/>
</status>"#;
    assert_eq!(parse_out_of_date(xml), 2, "只有带 repos-status 的条目算待更新");
    assert_eq!(parse_out_of_date("<status>"), 0, "输出残缺时不误报");
}

#[test]
fn blocked_count_covers_conflicts_and_incomplete_only() {
    let xml = r#"<status>
  <target path="D:\wc">
    <entry path="D:\wc\a.java"><wc-status item="conflicted" props="none" revision="10"/></entry>
    <entry path="D:\wc\b.java"><wc-status item="conflicted" props="items" revision="10"/></entry>
    <entry path="D:\wc\c"><wc-status item="incomplete" props="none" revision="10"/></entry>
    <entry path="D:\wc\d.java"><wc-status item="modified" props="none" revision="10"/></entry>
    <entry path="D:\wc\e.java"><wc-status item="unversioned" props="none" revision="10"/></entry>
  </target>
</status>"#;
    let entries = parse_status(xml, r"D:\wc");
    assert_eq!(blocked_count(&entries), 3, "冲突两条 + 不完整一条");
    assert_eq!(blocked_count(&[]), 0);
    let clean = parse_status(
        r#"<status><target path="D:\wc"><entry path="D:\wc\a.java"><wc-status item="modified" props="none" revision="10"/></entry></target></status>"#,
        r"D:\wc",
    );
    assert_eq!(blocked_count(&clean), 0, "普通改动不算需处理");
}

#[test]
fn working_copy_diff_uses_the_internal_diff() {
    let args = client().diff_args(&["diff", "--internal-diff"], r"D:\wc\a.java", false);
    assert_eq!(args, ["diff", "--internal-diff", r"D:\wc\a.java"]);
}

#[test]
fn ignore_white_adds_a_single_x_argument() {
    let args = client().diff_args(&["diff", "-c", "6511", "--internal-diff"], "http://x/a.xml", true);
    assert_eq!(
        args,
        [
            "diff",
            "-c",
            "6511",
            "--internal-diff",
            "-x",
            "-w --ignore-eol-style",
            "http://x/a.xml"
        ]
    );
    assert_eq!(diff_flags(true), " -x \"-w --ignore-eol-style\"");
    assert!(diff_flags(false).is_empty());
}

// ---------------------------------------------------------------- bytes

#[test]
fn bytes_are_utf8_or_else_gbk() {
    assert_eq!(decode_bytes("已提交 abc".as_bytes()), "已提交 abc");
    // 提交 in GBK
    assert_eq!(decode_bytes(&[0xCC, 0xE1, 0xBD, 0xBB]), "提交");
    assert_eq!(decode_bytes(&[]), "");
}

#[test]
fn lines_are_cut_as_they_come() {
    let mut feed = LineFeed::new();
    assert!(feed.feed(b"upda").is_empty());
    assert_eq!(feed.feed(b"ting\r\nA  x.txt\nrest"), ["updating", "A  x.txt"]);
    assert_eq!(feed.finish(), Some("rest".to_owned()));
    let run = feed.close(true, Some(0), String::new());
    assert!(run.ok);
    assert_eq!(run.code, 0);
}

#[test]
fn a_line_cut_inside_a_character_is_read_whole() {
    let bytes = "药品\n".as_bytes();
    let mut feed = LineFeed::new();
    assert!(feed.feed(&bytes[..2]).is_empty());
    assert_eq!(feed.feed(&bytes[2..]), ["药品"]);
    assert_eq!(feed.finish(), None);
}

#[test]
fn a_run_is_summed_up_by_what_went_wrong() {
    let run = |out: &str, err: &str| Run::new(false, 3, out.to_owned(), err.to_owned()).summary();
    assert_eq!(run("out", "  svn: E1\nmore\n"), "svn: E1\nmore");
    assert_eq!(run(" out ", " \r\n"), "out");
    assert_eq!(run("", ""), "命令退出码 3");
    assert_eq!(Run::error("没有").summary(), "没有");
    assert!(!Run::error("没有").ok);
    assert_eq!(Run::error("没有").code, -1);
}

// ---------------------------------------------------------------- replies

const INFO: &str = r#"<?xml version="1.0"?>
<info>
<entry kind="dir" path="D:\wc" revision="120">
<url>https://host/svn/hrp/trunk</url>
<repository><root>https://host/svn/hrp</root><uuid>u</uuid></repository>
<wc-info><wcroot-abspath>D:/wc</wcroot-abspath></wc-info>
<commit revision="118"><author>dev</author><date>2026-09-10T01:12:00.000000Z</date></commit>
</entry>
</info>"#;

#[test]
fn info_is_read_from_its_entry() {
    let info = parse_info(INFO).unwrap();
    assert!(info.is_wc);
    assert_eq!(info.url, "https://host/svn/hrp/trunk");
    assert_eq!(info.repos_root, "https://host/svn/hrp");
    assert_eq!(info.revision, "120");
    assert_eq!(info.node_kind, "dir");
    assert_eq!(info.last_rev, "118");
    assert_eq!(info.last_author, "dev");
    // The clock is that of the machine: the shape is the same everywhere.
    assert_eq!(info.last_date.len(), "2026-09-10 09:12:00".len());
    assert!(info.last_date.starts_with("2026-09-"));
    assert!(parse_info("<info></info>").is_none());
    assert!(parse_info("no xml").is_none());
}

#[test]
fn log_records_keep_their_paths() {
    let xml = r#"<log>
<logentry revision="7"><author>dev</author><date>2026-09-01T02:00:00.000000Z</date>
<paths><path kind="file" action="M">/trunk/a.java</path><path kind="dir" action="A">/trunk/b</path></paths>
<msg>fix 药品 &amp; more</msg></logentry>
<logentry revision="6"><msg></msg></logentry>
</log>"#;
    let list = parse_log(xml);
    assert_eq!(list.len(), 2);
    assert_eq!(list[0].revision, "7");
    assert_eq!(list[0].author, "dev");
    assert_eq!(list[0].message, "fix 药品 & more");
    assert_eq!(list[0].paths.len(), 2);
    assert_eq!(list[0].paths[0].action, 'M');
    assert_eq!(list[0].paths[0].kind, "file");
    assert_eq!(list[0].paths[0].path, "/trunk/a.java");
    assert_eq!(list[0].paths[1].action, 'A');
    assert_eq!(list[1].revision, "6");
    assert!(list[1].message.is_empty());
    assert!(list[1].paths.is_empty());
    assert!(parse_log("<log").is_empty());
}

#[test]
fn status_names_are_below_the_directory() {
    let xml = r#"<status><target path="D:\wc">
<entry path="D:\wc\src\b.java"><wc-status item="modified" props="modified"/></entry>
<entry path="D:\wc\a.java"><wc-status item="normal" props="none"/></entry>
<entry path="D:\wc\ign"><wc-status item="ignored" props="none"/></entry>
</target></status>"#;
    let list = parse_status(xml, r"D:\wc");
    let b = list.iter().find(|e| e.item == Item::Modified).unwrap();
    assert_eq!(b.path, r"D:\wc\src\b.java");
    assert_eq!(b.props, "modified");
    assert_eq!(b.name, "b.java");
    assert_eq!(list.len(), 3);
    let uploads = uploads_of(&list);
    assert_eq!(uploads.len(), 1);
    assert_eq!(uploads[0].path, r"D:\wc\src\b.java");
}

#[test]
fn failed_runs_are_not_read() {
    let failed = Run::new(false, 1, INFO.to_owned(), "svn: E155007".to_owned());
    assert!(read_info(&failed).is_none());
    assert!(read_out_of_date(&failed).is_none());
    assert!(read_version(&failed).is_none());
    let good = Run::new(true, 0, "1.14.5\n".to_owned(), String::new());
    assert_eq!(read_version(&good), Some("1.14.5".to_owned()));
    let empty = Run::new(true, 0, "<status></status>".to_owned(), String::new());
    assert_eq!(read_out_of_date(&empty), Some(0));
    assert!(read_status(&empty, r"D:\wc").is_empty());
}

#[test]
fn a_log_can_be_narrowed_to_one_author() {
    let xml = r#"<log><logentry revision="2"><author>dev</author><msg>a</msg></logentry>
<logentry revision="1"><author>ops</author><msg>b</msg></logentry></log>"#;
    let run = Run::new(true, 0, xml.to_owned(), String::new());
    assert_eq!(read_log(&run, "").len(), 2);
    let mine = read_log(&run, "dev");
    assert_eq!(mine.len(), 1);
    assert_eq!(mine[0].revision, "2");
}

#[test]
fn a_base_that_could_not_be_read_says_why() {
    assert_eq!(read_base(true, &[]), None);
    assert_eq!(read_base(false, &[0x20, 0xCC, 0xE1, 0xBD, 0xBB]), Some("提交".to_owned()));
}

// ---------------------------------------------------------------- many targets

#[test]
fn many_targets_go_into_a_file() {
    let few = texts(&["D:\\wc\\a.java"]);
    let head = texts(&["add", "--force"]);
    let args = with_targets(head.clone(), &few, &None);
    assert_eq!(args.last().unwrap(), "D:\\wc\\a.java");
    let long: Vec<String> = (0..400).map(|i| format!("D:\\wc\\some\\long\\path\\{i}.java")).collect();
    let bytes = targets_file(&long).expect("long lists go through a file");
    assert_eq!(decode_bytes(&bytes).lines().count(), 400);
    let args = with_targets(head, &long, &Some("T.txt".to_owned()));
    assert!(args.iter().any(|a| a.contains("T.txt")));
    assert!(args.len() < 10);
}
