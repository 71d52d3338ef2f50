//! Texts, paths, dates, differences, settings, credentials and the search for the client.

use svn_manager::auth::{choose_user, credentials, host_of, host_of_realm, read_user};
use svn_manager::config::{config_dir, config_file, config_text, theme_of, Config, Theme};
use svn_manager::date::{clock_string, format_at, format_svn_date, is_leap, length_of_month, parse_date, Date};
use svn_manager::diff::{diff_rows, line_tone, DiffRow, PairKind, Tone};
use svn_manager::icon::{display_version, no_space, window_icon};
use svn_manager::locate::{
    candidates, detect, drive_roots, known_locations, registry_keys, registry_places, skips, with_registry, Ask,
    Detected, Found, Scan, Surroundings,
};
use svn_manager::order::{order, Key};
use svn_manager::paint::{ink, palette};
use svn_manager::path::{find_below, is_absolute, join, name_of, parts_in, spelling};
use svn_manager::svn::Run;
use svn_manager::text::{
    after_bytes, blank, byte_len, equal_ignoring_case, first_bytes, join_with, lines_of, parse_integer, pieces,
    split_word, trimmed, zero_filled,
};

// ---------------------------------------------------------------- texts

#[test]
fn lines_end_at_line_feeds() {
    assert_eq!(lines_of("a\r\nb\n\nc"), ["a", "b", "", "c"]);
    assert_eq!(lines_of("a\n"), ["a"]);
    assert!(lines_of("").is_empty());
}

#[test]
fn texts_are_trimmed_and_cut() {
    assert_eq!(trimmed(" \t药品\u{3000}\n"), "药品");
    assert!(blank(" \u{3000}\r\n") && !blank(" x"));
    assert_eq!(split_word("svn  1.14 x"), ("svn".to_owned(), "  1.14 x".to_owned()));
    assert_eq!(pieces("a;b;;c", ';'), ["a", "b", "", "c"]);
    assert_eq!(join_with(&vec!["a".to_owned(), "b".to_owned()], ", "), "a, b");
}

#[test]
fn texts_have_bytes_and_characters() {
    assert_eq!(byte_len("a药"), 4);
    assert_eq!(first_bytes("a药b", 4), Some("a药".to_owned()));
    assert_eq!(first_bytes("a药b", 2), None);
    assert_eq!(after_bytes("a药b", 4), Some("b".to_owned()));
    assert_eq!(after_bytes("a药b", 9), None);
}

#[test]
fn numbers_are_written_and_read() {
    assert_eq!(zero_filled(7, 3), "007");
    assert_eq!(zero_filled(1234, 3), "1234");
    assert_eq!(parse_integer("-12", -100, 100), Some(-12));
    assert_eq!(parse_integer("+7", 0, 9), Some(7));
    assert_eq!(parse_integer("10", 0, 9), None);
    assert_eq!(parse_integer("1x", 0, 9), None);
    assert_eq!(parse_integer("", 0, 9), None);
}

#[test]
fn case_is_that_of_plain_letters() {
    assert!(equal_ignoring_case("Page.XML", "page.xml"));
    assert!(!equal_ignoring_case("Ä", "ä"));
}

#[test]
fn equal_keys_keep_their_order() {
    let key = |rank: i64, first: &str| Key {
        rank,
        first: first.to_owned(),
        second: String::new(),
    };
    let keys = vec![key(2, "a"), key(1, "b"), key(2, "a"), key(1, "a")];
    assert_eq!(order(&keys), [3, 1, 0, 2]);
}

// ---------------------------------------------------------------- paths

#[test]
fn paths_follow_the_rules_of_windows() {
    assert!(is_absolute(r"C:\wc") && is_absolute(r"\\server\share\x"));
    assert!(!is_absolute(r"C:wc") && !is_absolute("wc"));
    assert_eq!(join(r"C:\wc", "a"), r"C:\wc\a");
    assert_eq!(join(r"C:\wc\", "a"), r"C:\wc\a");
    assert_eq!(join(r"C:\wc", r"D:\x"), r"D:\x");
    assert_eq!(join(r"C:\wc", r"\x"), r"C:\x");
    assert_eq!(name_of(r"C:\wc\src\."), Some("src".to_owned()));
    assert_eq!(name_of(r"C:\"), None);
    assert_eq!(name_of(r"C:\wc\.."), None);
    assert_eq!(parts_in(r"C:\a\b\c"), 5);
    assert_eq!(parts_in(r".\a"), 2);
    assert_eq!(spelling(r"c:/wc//src/./x"), r"C:\wc\src\x");
    assert_eq!(spelling(r"c:.\x"), spelling("C:x"));
    assert_eq!(spelling(r"//server/share/x"), spelling(r"\\server\share\x\"));
}

#[test]
fn verbatim_paths_are_taken_as_they_are() {
    assert!(is_absolute(r"\\?\C:\wc") && is_absolute(r"\\?\UNC\server\share") && is_absolute(r"\\.\COM1"));
    // A slash is a part of a name, and a single dot is a name.
    assert_eq!(name_of(r"\\?\C:\wc\a/b"), Some("a/b".to_owned()));
    assert_eq!(name_of(r"\\?\C:\wc\."), None);
    assert_eq!(name_of(r"\\?\C:/wc"), Some("wc".to_owned()));
    assert_eq!(name_of(r"\\?\UNC\server\share"), None);
    assert_eq!(parts_in(r"\\?\C:\a\.\b/c"), 5);
    // What is joined is spelled out.
    assert_eq!(join(r"\\?\C:\wc", "a/./b"), r"\\?\C:\wc\a\b");
    assert_eq!(join(r"\\?\C:\wc\a", r"..\b"), r"\\?\C:\wc\b");
    assert_eq!(join(r"\\?\C:\wc", "/x"), r"\\?\C:\x");
    assert_eq!(join(r"\\?\C:", "x"), r"\\?\C:\x");
    assert_eq!(join(r"\\?\C:\", ".."), r"\\?\C:\");
    assert_eq!(join(r"\\?\C:\wc", ""), r"\\?\C:\wc\");
    // With slashes in front it is a share.
    assert_eq!(name_of("//?/C:/wc/a/b"), Some("b".to_owned()));
    assert!(spelling("//?/C:/wc") != spelling(r"\\?\C:\wc"));
    assert_eq!(spelling(r"\\?\c:\wc"), r"\\?\C:\wc");
}

#[test]
fn what_lies_below_a_path_is_kept_as_written() {
    let below = |path: &str, root: &str| find_below(path, root);
    assert_eq!(below(r"C:\wc\src/a.java", r"c:/wc/"), Some("src/a.java".to_owned()));
    assert_eq!(below(r"C:\wc\.\src\\a\.", r"C:\wc"), Some(r"src\\a".to_owned()));
    assert_eq!(below(r"C:\wc", r"C:\wc\"), Some(String::new()));
    assert_eq!(below(r"C:\wcx", r"C:\wc"), None);
    assert_eq!(below(r"D:\wc\a", r"C:\wc"), None);
    assert_eq!(below(r"C:\x", "C:"), Some(r"\x".to_owned()));
    assert_eq!(below("C:x", "C:"), Some("x".to_owned()));
    assert_eq!(below(r"C:\x\", r"C:\"), Some("x".to_owned()));
    assert_eq!(below("a/b", "a"), Some("b".to_owned()));
    assert_eq!(below("./a", "a"), None);
    assert_eq!(below("a/", ""), Some("a".to_owned()));
    assert_eq!(below(r"\\?\C:\wc\a/b", r"\\?\c:\wc"), Some("a/b".to_owned()));
}

// ---------------------------------------------------------------- dates

#[test]
fn dates_are_read_and_written() {
    let d = parse_date(" 2026-9-1 ");
    assert_eq!(d, Date::new(2026, 9, 1));
    assert_eq!(d.unwrap().to_text(), "2026-09-01");
    assert_eq!(parse_date("2026-02-29"), None);
    assert_eq!(parse_date("2024-02-29").unwrap().day, 29);
    assert_eq!(parse_date("乱填"), None);
    assert!(is_leap(2024) && is_leap(2000) && !is_leap(1900) && !is_leap(2026));
    assert_eq!(length_of_month(2024, 2), 29);
    assert_eq!(length_of_month(2026, 4), 30);
}

#[test]
fn days_are_counted() {
    let d = Date::new(2026, 9, 1).unwrap();
    assert_eq!(parse_date(&d.to_text()), Some(d));
    assert_eq!(d.shifted(30), Date::new(2026, 10, 1));
    assert_eq!(d.shifted(-1), Date::new(2026, 8, 31));
    assert_eq!(d.shifted(100_000_000), None);
    assert_eq!(Date::new(2027, 9, 1).unwrap().days_since(d), 365);
    // A Tuesday.
    assert_eq!(d.since_monday(), 1);
    assert!(d.is_before(Date::new(2026, 9, 2).unwrap()) && !d.is_before(d));
}

#[test]
fn points_in_time_are_shown_on_a_clock() {
    assert_eq!(clock_string(0, false), "1970-01-01 00:00:00");
    assert_eq!(clock_string(-1, false), "1969-12-31 23:59:59");
    assert_eq!(format_at("2016-12-31T23:59:60Z", 0), "2016-12-31 23:59:60");
    assert_eq!(format_at("2026-09-01T10:00:00.12345药Z", 0), "2026-09-01 10:00:00");
    assert_eq!(format_at("2026-09-10T01:12:03.1234567Z", 8 * 3600), "2026-09-10 09:12:03");
    assert_eq!(format_at("2026-09-10T01:12:03.5Z", 0), "2026-09-10 01:12:03");
    assert_eq!(format_at("2026-09-10T01:12:03+08:00", 8 * 3600), "2026-09-10 01:12:03");
    assert_eq!(format_at("昨天", 3600), "昨天");
    assert_eq!(format_at("", 3600), "");
}

#[test]
fn the_local_clock_is_within_a_day() {
    let shown = format_svn_date("2026-09-10T12:00:00.000000Z");
    assert_eq!(shown.len(), 19);
    let day = parse_date(&shown[..10]).unwrap();
    let utc = Date::new(2026, 9, 10).unwrap();
    assert!((-1..=1).contains(&day.days_since(utc)), "{shown}");
    assert_eq!(format_svn_date("昨天"), "昨天");
}

// ---------------------------------------------------------------- differences

#[test]
fn lines_are_coloured_by_their_first_sign() {
    assert_eq!(line_tone("+a"), Tone::Added);
    assert_eq!(line_tone("+++ b"), Tone::Plain);
    assert_eq!(line_tone("-a"), Tone::Removed);
    assert_eq!(line_tone("--- b"), Tone::Plain);
    assert_eq!(line_tone("@@ -1 +1 @@"), Tone::Header);
    assert_eq!(line_tone("Index: a"), Tone::Header);
    assert_eq!(line_tone(" a"), Tone::Plain);
}

#[test]
fn only_the_end_of_a_difference_ends_its_rows() {
    let rows = diff_rows("@@ -1 +1 @@\n<结束>\n-old");
    assert_eq!(rows.len(), 3);
    assert!(matches!(&rows[1], DiffRow::Pair { left, kind: PairKind::Context, .. } if left == "<结束>"));
    assert!(matches!(&rows[2], DiffRow::Pair { left, left_no: 2, kind: PairKind::Removed, .. } if left == "old"));
}

#[test]
fn changed_lines_stand_side_by_side() {
    let rows = diff_rows("@@ -10,3 +10,3 @@\n same\n-old\n+new\n+more\n");
    let pairs: Vec<(&str, i64, &str, i64, PairKind)> = rows
        .iter()
        .filter_map(|row| match row {
            DiffRow::Pair { left, left_no, right, right_no, kind } => {
                Some((left.as_str(), *left_no, right.as_str(), *right_no, *kind))
            }
            DiffRow::Span(..) => None,
        })
        .collect();
    assert_eq!(
        pairs,
        [
            ("same", 10, "same", 10, PairKind::Context),
            ("old", 11, "new", 11, PairKind::Changed),
            ("", 0, "more", 12, PairKind::Added),
        ]
    );
    assert!(matches!(&rows[0], DiffRow::Span(line, true) if line == "@@ -10,3 +10,3 @@"));
}

// ---------------------------------------------------------------- settings

#[test]
fn settings_have_defaults() {
    let cfg = Config::default();
    assert_eq!(cfg.log_limit, 100);
    assert_eq!(cfg.auto_refresh, 120);
    assert_eq!(cfg.bc_server_side, "left");
    assert_eq!(cfg.theme, "system");
    assert_eq!(cfg.update_source, "official");
    assert!(cfg.history_only_mine && cfg.check_update_on_start && cfg.update_after_commit);
    assert!(!cfg.auto_update_check && !cfg.auto_start && !cfg.home_compact);
}

#[test]
fn settings_lie_under_the_application_data() {
    let appdata = Some(r"C:\Users\dev\AppData\Roaming".to_owned());
    assert_eq!(config_dir(&appdata, r"C:\Temp"), r"C:\Users\dev\AppData\Roaming\SVNManager");
    assert_eq!(config_file(&None, r"C:\Temp"), r"C:\Temp\SVNManager\config.json");
    assert_eq!(config_text("\u{feff}{}"), "{}");
    assert_eq!(theme_of("dark"), Theme::Dark);
    assert_eq!(theme_of("light"), Theme::Light);
    assert_eq!(theme_of("x"), Theme::System);
}

#[test]
fn the_version_is_the_first_line_that_holds_anything() {
    assert_eq!(display_version("\u{feff}\n 1.2.3 \n1.0", "0.1.0"), "1.2.3");
    assert_eq!(display_version("\n \n", "0.1.0"), "0.1.0");
    assert!(no_space(r"C:\a") && !no_space(r"C:\a b"));
}

#[test]
fn colours_are_dimmed_on_a_light_ground_only() {
    assert_eq!(ink(true, (240, 190, 70)), (240, 190, 70));
    let light = ink(false, (240, 190, 70));
    assert!(light.0 < 240 && light.1 < 190 && light.2 < 70);
    assert_ne!(palette(true).text, palette(false).text);
}

// ---------------------------------------------------------------- credentials

const AUTH: &str = "\
------------------------------------------------------------------------
Credential kind: svn.simple
Authentication realm: <https://OTHER:443> VisualSVN Server
Password cache: wincrypt
Username: ops
------------------------------------------------------------------------
Credential kind: svn.ssl.server
Authentication realm: https://host:443
Username: nobody
------------------------------------------------------------------------
Credential kind: svn.simple
Authentication realm: <https://Host:443> Repo
Username: dev
";

#[test]
fn credentials_are_those_of_passwords() {
    let list = credentials(AUTH);
    let users: Vec<&str> = list.iter().map(|c| c.user.as_str()).collect();
    assert_eq!(users, ["ops", "dev"]);
    assert_eq!(list[1].realm, "<https://Host:443> Repo");
    assert_eq!(choose_user(&list, "nowhere"), Some("ops".to_owned()));
    assert_eq!(choose_user(&Vec::new(), "host"), None);
}

#[test]
fn the_user_is_that_of_the_server() {
    assert_eq!(host_of("https://Host:8443/svn/hrp"), "Host");
    assert_eq!(host_of("host"), "");
    assert_eq!(host_of("svn+ssh://dev@Host:22/svn"), "Host");
    assert_eq!(host_of("svn://[fe80::1]:3690/svn"), "fe80::1");
    assert_eq!(host_of_realm("<https://192.168.1.251:443> VisualSVN Server"), "192.168.1.251");
    assert_eq!(host_of_realm("<svn://host> //other/"), "host");
    assert_eq!(host_of_realm("VisualSVN Server"), "");
    let run = Run::new(true, 0, AUTH.to_owned(), String::new());
    assert_eq!(read_user(&run, "https://HOST/svn/hrp"), Some("dev".to_owned()));
    assert_eq!(read_user(&run, ""), Some("ops".to_owned()));
    assert_eq!(read_user(&Run::error("x"), ""), None);
}

#[test]
fn a_server_is_not_a_part_of_another() {
    let out = "Credential kind: svn.simple\nAuthentication realm: <https://10.0.0.11:443> S\nUsername: a\n\
               Credential kind: svn.simple\nAuthentication realm: <https://mysvn.example.com:443> on 10.0.0.1\nUsername: c\n\
               Credential kind: svn.simple\nAuthentication realm: <https://10.0.0.1:443> S\nUsername: b\n";
    let run = Run::new(true, 0, out.to_owned(), String::new());
    assert_eq!(read_user(&run, "https://10.0.0.1/svn"), Some("b".to_owned()));
    assert_eq!(read_user(&run, "https://10.0.0.11/svn"), Some("a".to_owned()));
    assert_eq!(read_user(&run, "https://MySVN.example.com/svn"), Some("c".to_owned()));
    assert_eq!(read_user(&run, "https://svn.example.com/svn"), Some("a".to_owned()));
}

// ---------------------------------------------------------------- the client

fn nowhere() -> Surroundings {
    Surroundings {
        custom: None,
        homes: Vec::new(),
        search: Vec::new(),
        programs: Vec::new(),
        profile: None,
        program_data: None,
        drives: Vec::new(),
    }
}

#[test]
fn the_likeliest_place_comes_first_and_none_comes_twice() {
    let around = Surroundings {
        custom: Some(r"D:\svn\bin\svn.exe".to_owned()),
        search: vec![r"d:\SVN\..\svn\bin".to_owned(), r"D:/svn/bin".to_owned()],
        programs: vec![r"C:\Program Files".to_owned()],
        ..nowhere()
    };
    let list = known_locations(&around);
    assert_eq!(list[0], r"D:\svn\bin\svn.exe");
    assert!(list.iter().any(|p| spelling(p) == r"C:\Program Files\TortoiseSVN\bin\svn.exe"), "{list:?}");
    let mut spelled: Vec<String> = list.iter().map(|p| spelling(p)).collect();
    spelled.sort();
    spelled.dedup();
    assert_eq!(spelled.len(), list.len());
    assert!(known_locations(&nowhere()).is_empty());
}

#[test]
fn the_registry_names_directories() {
    let out = "\r\nHKEY_LOCAL_MACHINE\\SOFTWARE\\TortoiseSVN\r\n    Directory    REG_SZ    C:\\Tools\\TSVN\r\n    x REG_SZ none\r\n";
    assert_eq!(registry_places(out), [r"C:\Tools\TSVN\bin\svn.exe", r"C:\Tools\TSVN\svn.exe"]);
    assert_eq!(registry_keys().len(), 3);
    assert_eq!(drive_roots().first().unwrap(), r"C:\");
    assert_eq!(drive_roots().last().unwrap(), r"Z:\");
}

#[test]
fn the_registry_comes_behind_the_known_places() {
    let known = vec!["a".to_owned(), "a".to_owned()];
    let named = vec!["b".to_owned(), "c".to_owned(), "b".to_owned()];
    assert_eq!(with_registry(known, &named), ["a", "a", "b", "c"]);
}

#[test]
fn a_scan_looks_into_what_may_hold_the_client() {
    let item = |name: &str, is_dir: bool| Found {
        name: name.to_owned(),
        path: format!(r"D:\{name}"),
        is_dir,
    };
    let mut scan = Scan::new(&vec![r"D:\".to_owned()]);
    assert!(matches!(scan.next(false), Ask::List(dir, 3) if dir == r"D:\"));
    scan.listed(&vec![item("Windows", true), item("a.txt", false), item("TortoiseSVN", true)], 3);
    assert!(matches!(scan.next(false), Ask::Probe(file) if file == r"D:\TortoiseSVN\bin\svn.exe"));
    scan.hit(r"D:\TortoiseSVN\bin\svn.exe".to_owned());
    scan.hit(r"d:/TortoiseSVN/bin/svn.exe".to_owned());
    assert_eq!(scan.hits, [r"D:\TortoiseSVN\bin\svn.exe"]);
    assert!(matches!(scan.next(false), Ask::List(dir, 2) if dir == r"D:\TortoiseSVN"));
    assert!(matches!(scan.next(true), Ask::Done));
    assert!(skips("windows.old") && skips("users") && !skips("tools"));
}

#[test]
fn the_first_client_that_answers_is_taken() {
    let list = vec!["a".to_owned(), "b".to_owned()];
    assert!(matches!(detect(&list, &vec![]), Detected::Ask(0)));
    assert!(matches!(detect(&list, &vec![None]), Detected::Ask(1)));
    assert!(
        matches!(detect(&list, &vec![None, Some("1.14".to_owned())]), Detected::Found(e, v) if e == "b" && v == "1.14")
    );
    assert!(matches!(detect(&list, &vec![None, None]), Detected::Missing));
    let hits = vec![r"D:\a\b\c\svn.exe".to_owned(), r"D:\a\svn.exe".to_owned(), r"D:\b\svn.exe".to_owned()];
    assert_eq!(candidates(Vec::new(), &hits), [r"D:\a\svn.exe", r"D:\b\svn.exe", r"D:\a\b\c\svn.exe"]);
    assert_eq!(candidates(vec!["k".to_owned()], &hits), ["k"]);
}

// ---------------------------------------------------------------- the icon

/// An icon file with one picture of 48 pixels: transparent but for a white square in its middle,
/// and a blue pixel in its top row.
fn icon_file() -> Vec<u8> {
    let mut file = vec![0, 0, 1, 0, 1, 0];
    file.extend([48, 48, 0, 0, 1, 0, 32, 0]);
    file.extend(((40 + 48 * 48 * 4) as u32).to_le_bytes());
    file.extend(22u32.to_le_bytes());
    file.extend(40u32.to_le_bytes());
    file.extend(48u32.to_le_bytes());
    file.extend(96u32.to_le_bytes());
    file.extend([1, 0, 32, 0]);
    file.extend([0; 24]);
    let mut rows = vec![[0u8; 192]; 48];
    for row in rows.iter_mut().take(28).skip(20) {
        for byte in row.iter_mut().take(28 * 4).skip(20 * 4) {
            *byte = 255;
        }
    }
    // Blue, green, red, opacity.
    rows[0][5 * 4] = 250;
    rows[0][5 * 4 + 3] = 200;
    for row in rows.iter().rev() {
        file.extend(row);
    }
    file
}

#[test]
fn window_icon_is_a_non_blank_rgba_48() {
    let rgba = window_icon(&icon_file()).expect("icon/svn_manager.ico 里应能解析出 48px 的图");
    assert_eq!(rgba.len(), 48 * 48 * 4);
    assert_eq!(&rgba[0..4], &[0, 0, 0, 0]);
    let center = (24 * 48 + 24) * 4;
    assert_eq!(&rgba[center..center + 4], &[255, 255, 255, 255]);
    assert_eq!(&rgba[20..24], &[0, 0, 250, 200]);
}

#[test]
fn an_icon_that_is_cut_short_or_of_another_size_is_none() {
    let file = icon_file();
    assert!(window_icon(&file[..file.len() - 1]).is_none());
    assert!(window_icon(&file[..5]).is_none());
    let mut small = file.clone();
    small[6] = 32;
    assert!(window_icon(&small).is_none());
}
