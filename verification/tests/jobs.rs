//! The table of the tasks that run.

use svn_manager::jobs::{Data, End, Inbox, Kind, Pool, Sink};

fn data() -> Data {
    Data::Run {
        dir: 3,
        ok: true,
        message: String::new(),
        reload: false,
    }
}

fn open(lines: &[&str]) -> Inbox {
    Inbox {
        lines: lines.iter().map(|t| (*t).to_owned()).collect(),
        end: End::Open,
    }
}

#[test]
fn read_only_tasks_are_not_writing() {
    let mut pool = Pool::default();
    pool.spawn(Kind::Diff, 3, "查看差异".into());
    pool.spawn(Kind::Refresh, 3, "检测".into());
    assert!(pool.is_busy(3), "is_busy 仍包含读类任务");
    assert!(!pool.is_writing(3), "读类任务不算写操作");
    pool.spawn(Kind::Commit, 3, "提交".into());
    assert!(pool.is_writing(3));
    assert!(pool.is_writing(3), "重复调用结果应一致");
    assert!(!pool.is_writing(4), "别的目录不受影响");
}

#[test]
fn dead_worker_is_reported_stranded() {
    let mut pool = Pool::default();
    pool.spawn(Kind::Status, 7, "读取修改".into());
    let polled = pool.poll(vec![Inbox {
        lines: Vec::new(),
        end: End::Lost,
    }]);
    let found = polled.stranded;
    assert_eq!(found.len(), 1, "崩溃的任务没有被回报");
    assert_eq!(found[0].0, Kind::Status);
    assert_eq!(found[0].1, 7);
    assert_eq!(found[0].2, "读取修改");
    assert!(!pool.has(Kind::Status, 7), "任务应已从池中移除");
}

#[test]
fn a_poll_takes_out_what_has_ended() {
    let mut pool = Pool::default();
    pool.spawn(Kind::Refresh, 1, "a".into());
    pool.spawn(Kind::Commit, 2, "b".into());
    pool.spawn(Kind::Log, 3, "c".into());
    let polled = pool.poll(vec![
        open(&["one", "two"]),
        Inbox {
            lines: vec!["three".to_owned()],
            end: End::Done(data()),
        },
        Inbox {
            lines: Vec::new(),
            end: End::Lost,
        },
    ]);
    assert_eq!(polled.lines, ["one", "two", "three"]);
    assert_eq!(polled.done.len(), 1);
    assert_eq!(polled.done[0].0, Kind::Commit);
    assert_eq!(polled.done[0].1, 2);
    assert!(matches!(polled.done[0].2, Data::Run { dir: 3, .. }));
    assert_eq!(polled.stranded.len(), 1);
    assert_eq!(pool.running(), 1);
    assert!(pool.has(Kind::Refresh, 1));
    assert_eq!(pool.busy_label(1), Some("a".to_owned()));
    assert_eq!(pool.busy_label(2), None);
}

#[test]
fn a_muted_sink_lets_nothing_through() {
    let sink = Sink::new();
    assert_eq!(sink.line("x"), Some("x".to_owned()));
    assert_eq!(sink.muted().line("x"), None);
}

#[test]
fn every_kind_that_changes_a_working_copy_is_known() {
    let writes: Vec<&str> = [
        Kind::DetectSvn,
        Kind::AuthUser,
        Kind::Refresh,
        Kind::Status,
        Kind::Log,
        Kind::FileDiff,
        Kind::FileLog,
        Kind::CheckUpdate,
        Kind::AiLog,
        Kind::Stats,
        Kind::DownloadUpdate,
        Kind::Update,
        Kind::Commit,
        Kind::Maintain,
        Kind::Relocate,
        Kind::Diff,
    ]
    .into_iter()
    .filter(|k| k.writing())
    .map(|k| k.name())
    .collect();
    assert_eq!(writes, ["Update", "Commit", "Maintain", "Relocate"]);
}
