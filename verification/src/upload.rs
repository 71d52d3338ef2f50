//! A commit, step by step: `svn add`, `svn delete`, a look at what came of them, `svn commit`, and
//! an update behind it. Each step takes the reply to the command before it and says what to run
//! next.

use vstd::prelude::*;
use crate::commit::{collect, picked, CommitPage, Pick};
use crate::jobs::Data;
use crate::model::Maintain;
use crate::svn::{status_views, Run, StatusEntry, StatusView};
use crate::text;

verus! {

/// What to commit, and what to add or delete before.
#[derive(Debug)]
pub struct CommitPlan {
    pub targets: Vec<String>,
    pub adds: Vec<String>,
    pub deletes: Vec<String>,
}

/// The view of a `CommitPlan`.
pub struct PlanView {
    pub targets: Seq<Seq<char>>,
    pub adds: Seq<Seq<char>>,
    pub deletes: Seq<Seq<char>>,
}

impl View for CommitPlan {
    type V = PlanView;

    open spec fn view(&self) -> PlanView {
        PlanView {
            targets: text::views(self.targets@),
            adds: text::views(self.adds@),
            deletes: text::views(self.deletes@),
        }
    }
}

impl CommitPage {
    /// The plan for what is checked.
    pub fn plan(&self) -> (r: CommitPlan)
        ensures
            r@ == (PlanView {
                targets: picked(status_views(self.entries@), Pick::Checked),
                adds: picked(status_views(self.entries@), Pick::CheckedNew),
                deletes: picked(status_views(self.entries@), Pick::CheckedMissing),
            }),
    {
        CommitPlan {
            targets: self.commit_targets(),
            adds: self.selected_targets(Maintain::Add),
            deletes: self.selected_targets(Maintain::Delete),
        }
    }
}

/// The plan for everything that can be committed.
pub fn upload_plan(entries: &Vec<StatusEntry>) -> (r: CommitPlan)
    ensures
        r@ == (PlanView {
            targets: picked(status_views(entries@), Pick::Any),
            adds: picked(status_views(entries@), Pick::AnyNew),
            deletes: picked(status_views(entries@), Pick::AnyMissing),
        }),
{
    CommitPlan {
        targets: collect(entries, Pick::Any),
        adds: collect(entries, Pick::AnyNew),
        deletes: collect(entries, Pick::AnyMissing),
    }
}

// ---------------------------------------------------------------- what gets committed

/// `path` is ready to be committed, as `svn status` says.
pub open spec fn is_ready(fresh: Seq<StatusView>, path: Seq<char>) -> bool {
    exists|i: int|
        0 <= i < fresh.len() && (#[trigger] fresh[i]).path == path && fresh[i].item.commits()
}

/// Those of the first `n` targets that are ready, in order.
pub open spec fn kept(targets: Seq<Seq<char>>, fresh: Seq<StatusView>, n: int) -> Seq<Seq<char>>
    decreases n,
{
    if n <= 0 {
        Seq::empty()
    } else if is_ready(fresh, targets[n - 1]) {
        kept(targets, fresh, n - 1).push(targets[n - 1])
    } else {
        kept(targets, fresh, n - 1)
    }
}

/// Those of the first `n` targets that are not ready, in order.
pub open spec fn missed(targets: Seq<Seq<char>>, fresh: Seq<StatusView>, n: int) -> Seq<Seq<char>>
    decreases n,
{
    if n <= 0 {
        Seq::empty()
    } else if is_ready(fresh, targets[n - 1]) {
        missed(targets, fresh, n - 1)
    } else {
        missed(targets, fresh, n - 1).push(targets[n - 1])
    }
}

/// What the paths below a directory begin with.
pub open spec fn below(dir: Seq<char>) -> Seq<char> {
    text::strip_end(dir, '\\', '/').push('\\')
}

/// `list` and those of the first `n` items that are ready, begin with `prefix` and are not yet in
/// it.
pub open spec fn and_children(
    list: Seq<Seq<char>>,
    prefix: Seq<char>,
    fresh: Seq<StatusView>,
    n: int,
) -> Seq<Seq<char>>
    decreases n,
{
    if n <= 0 {
        list
    } else {
        let before = and_children(list, prefix, fresh, n - 1);
        let e = fresh[n - 1];
        if e.item.commits() && text::begins(e.path, prefix) && !before.contains(e.path) {
            before.push(e.path)
        } else {
            before
        }
    }
}

/// `list` and everything below those of the first `n` added paths that are in it. A directory
/// brings what lies in it along when it is added, but is committed without it.
pub open spec fn and_contents(
    list: Seq<Seq<char>>,
    adds: Seq<Seq<char>>,
    fresh: Seq<StatusView>,
    n: int,
) -> Seq<Seq<char>>
    decreases n,
{
    if n <= 0 {
        list
    } else {
        let before = and_contents(list, adds, fresh, n - 1);
        if before.contains(adds[n - 1]) {
            and_children(before, below(adds[n - 1]), fresh, fresh.len() as int)
        } else {
            before
        }
    }
}

/// The paths to commit, once `svn status` was read again; `ok` tells whether that worked.
pub open spec fn commit_list(plan: PlanView, fresh: Seq<StatusView>, ok: bool) -> Seq<Seq<char>> {
    let base = if ok {
        kept(plan.targets, fresh, plan.targets.len() as int)
    } else {
        plan.targets
    };
    and_contents(base, plan.adds, fresh, plan.adds.len() as int)
}

/// The paths to leave out, once `svn status` was read again.
pub open spec fn skip_list(plan: PlanView, fresh: Seq<StatusView>, ok: bool) -> Seq<Seq<char>> {
    if ok {
        missed(plan.targets, fresh, plan.targets.len() as int)
    } else {
        Seq::empty()
    }
}

fn ready(fresh: &Vec<StatusEntry>, path: &str) -> (r: bool)
    ensures
        r == is_ready(status_views(fresh@), path@),
{
    let ghost sv = status_views(fresh@);
    let mut i: usize = 0;
    while i < fresh.len()
        invariant
            i <= fresh.len(),
            sv == status_views(fresh@),
            forall|j: int|
                0 <= j < i ==> !((#[trigger] sv[j]).path == path@ && sv[j].item.commits()),
        decreases fresh.len() - i,
    {
        assert(sv[i as int] == fresh@[i as int]@);
        if text::same(fresh[i].path.as_str(), path) && fresh[i].item.committable() {
            return true;
        }
        i += 1;
    }
    false
}

fn copy_list(list: &Vec<String>) -> (r: Vec<String>)
    ensures
        text::views(r@) == text::views(list@),
{
    let r = list.clone();
    assert(text::views(r@) =~= text::views(list@));
    r
}

/// Adds to `list` what is ready below `dir`.
fn add_children(list: &mut Vec<String>, dir: &str, fresh: &Vec<StatusEntry>)
    ensures
        text::views(final(list)@) == and_children(
            text::views(old(list)@),
            below(dir@),
            status_views(fresh@),
            fresh@.len() as int,
        ),
{
    let ghost start = text::views(list@);
    let ghost sv = status_views(fresh@);
    let mut prefix = text::stripped_end(dir, '\\', '/');
    prefix.push('\\');
    let mut i: usize = 0;
    while i < fresh.len()
        invariant
            i <= fresh.len(),
            sv == status_views(fresh@),
            prefix@ == below(dir@),
            text::views(list@) == and_children(start, below(dir@), sv, i as int),
        decreases fresh.len() - i,
    {
        assert(sv[i as int] == fresh@[i as int]@);
        if fresh[i].item.committable() && text::has_prefix(fresh[i].path.as_str(), prefix.as_str())
            && !text::holds(list, fresh[i].path.as_str()) {
            let ghost before = list@;
            list.push(fresh[i].path.clone());
            assert(text::views(list@) =~= text::views(before).push(sv[i as int].path));
        }
        i += 1;
    }
}

/// The paths to commit and the paths to leave out, once `svn status` was read again. An `svn add`
/// or `svn delete` may have worked for some paths only, and one path that no revision knows would
/// fail the whole commit.
pub fn settle(plan: &CommitPlan, fresh: &Vec<StatusEntry>, ok: bool) -> (r: (
    Vec<String>,
    Vec<String>,
))
    ensures
        text::views(r.0@) == commit_list(plan@, status_views(fresh@), ok),
        text::views(r.1@) == skip_list(plan@, status_views(fresh@), ok),
{
    let ghost sv = status_views(fresh@);
    let mut list: Vec<String> = Vec::new();
    let mut skipped: Vec<String> = Vec::new();
    assert(text::views(skipped@) =~= Seq::empty());
    if ok {
        let mut i: usize = 0;
        assert(text::views(list@) =~= Seq::empty());
        while i < plan.targets.len()
            invariant
                i <= plan.targets.len(),
                sv == status_views(fresh@),
                text::views(list@) == kept(plan@.targets, sv, i as int),
                text::views(skipped@) == missed(plan@.targets, sv, i as int),
            decreases plan.targets.len() - i,
        {
            assert(plan@.targets[i as int] == plan.targets@[i as int]@);
            let want = plan.targets[i].clone();
            if ready(fresh, plan.targets[i].as_str()) {
                let ghost before = list@;
                list.push(want);
                assert(text::views(list@) =~= text::views(before).push(
                    plan@.targets[i as int],
                ));
            } else {
                let ghost before = skipped@;
                skipped.push(want);
                assert(text::views(skipped@) =~= text::views(before).push(
                    plan@.targets[i as int],
                ));
            }
            i += 1;
        }
    } else {
        list = copy_list(&plan.targets);
    }
    let ghost base = text::views(list@);
    let mut i: usize = 0;
    while i < plan.adds.len()
        invariant
            i <= plan.adds.len(),
            sv == status_views(fresh@),
            text::views(list@) == and_contents(base, plan@.adds, sv, i as int),
        decreases plan.adds.len() - i,
    {
        assert(plan@.adds[i as int] == plan.adds@[i as int]@);
        if text::holds(&list, plan.adds[i].as_str()) {
            add_children(&mut list, plan.adds[i].as_str(), fresh);
        }
        i += 1;
    }
    (list, skipped)
}

// ---------------------------------------------------------------- laws

proof fn lemma_kept(targets: Seq<Seq<char>>, fresh: Seq<StatusView>, n: int)
    requires
        0 <= n <= targets.len(),
    ensures
        forall|k: int|
            0 <= k < kept(targets, fresh, n).len() ==> is_ready(
                fresh,
                #[trigger] kept(targets, fresh, n)[k],
            ),
        forall|k: int|
            0 <= k < missed(targets, fresh, n).len() ==> !is_ready(
                fresh,
                #[trigger] missed(targets, fresh, n)[k],
            ),
        forall|i: int|
            0 <= i < n ==> if is_ready(fresh, #[trigger] targets[i]) {
                kept(targets, fresh, n).contains(targets[i])
            } else {
                missed(targets, fresh, n).contains(targets[i])
            },
        kept(targets, fresh, n).len() + missed(targets, fresh, n).len() == n,
    decreases n,
{
    if n > 0 {
        lemma_kept(targets, fresh, n - 1);
        let k0 = kept(targets, fresh, n - 1);
        let m0 = missed(targets, fresh, n - 1);
        let k1 = kept(targets, fresh, n);
        let m1 = missed(targets, fresh, n);
        assert forall|i: int| 0 <= i < n implies if is_ready(fresh, #[trigger] targets[i]) {
            k1.contains(targets[i])
        } else {
            m1.contains(targets[i])
        } by {
            if i == n - 1 {
                if is_ready(fresh, targets[i]) {
                    assert(k1[k1.len() - 1] == targets[i]);
                } else {
                    assert(m1[m1.len() - 1] == targets[i]);
                }
            } else if is_ready(fresh, targets[i]) {
                let k = choose|k: int| 0 <= k < k0.len() && k0[k] == targets[i];
                assert(k1[k] == targets[i]);
            } else {
                let k = choose|k: int| 0 <= k < m0.len() && m0[k] == targets[i];
                assert(m1[k] == targets[i]);
            }
        }
    }
}

/// Every path of `a` is in `b`.
pub open spec fn within(a: Seq<Seq<char>>, b: Seq<Seq<char>>) -> bool {
    forall|p: Seq<char>| #[trigger] a.contains(p) ==> b.contains(p)
}

proof fn lemma_children(
    list: Seq<Seq<char>>,
    prefix: Seq<char>,
    fresh: Seq<StatusView>,
    n: int,
)
    requires
        0 <= n <= fresh.len(),
    ensures
        within(list, and_children(list, prefix, fresh, n)),
        forall|k: int|
            0 <= k < and_children(list, prefix, fresh, n).len() ==> list.contains(
                #[trigger] and_children(list, prefix, fresh, n)[k],
            ) || is_ready(fresh, and_children(list, prefix, fresh, n)[k]),
        forall|i: int|
            0 <= i < n && (#[trigger] fresh[i]).item.commits() && text::begins(
                fresh[i].path,
                prefix,
            ) ==> and_children(list, prefix, fresh, n).contains(fresh[i].path),
        list.no_duplicates() ==> and_children(list, prefix, fresh, n).no_duplicates(),
    decreases n,
{
    if n > 0 {
        lemma_children(list, prefix, fresh, n - 1);
        let before = and_children(list, prefix, fresh, n - 1);
        let all = and_children(list, prefix, fresh, n);
        let e = fresh[n - 1];
        assert forall|p: Seq<char>| #[trigger] before.contains(p) implies all.contains(p) by {
            let k = choose|k: int| 0 <= k < before.len() && before[k] == p;
            assert(all[k] == p);
        }
        if all.len() > before.len() {
            assert(all[before.len() as int] == e.path);
            assert(all.contains(e.path));
            assert forall|k: int| 0 <= k < all.len() implies list.contains(#[trigger] all[k])
                || is_ready(fresh, all[k]) by {
                if k < before.len() {
                    assert(all[k] == before[k]);
                } else {
                    assert(fresh[n - 1].path == all[k]);
                }
            }
        }
    } else {
        assert forall|k: int| 0 <= k < list.len() implies list.contains(#[trigger] list[k]) by {}
    }
}

proof fn lemma_contents(
    list: Seq<Seq<char>>,
    adds: Seq<Seq<char>>,
    fresh: Seq<StatusView>,
    n: int,
)
    requires
        0 <= n <= adds.len(),
    ensures
        within(list, and_contents(list, adds, fresh, n)),
        forall|k: int|
            0 <= k < and_contents(list, adds, fresh, n).len() ==> list.contains(
                #[trigger] and_contents(list, adds, fresh, n)[k],
            ) || is_ready(fresh, and_contents(list, adds, fresh, n)[k]),
        forall|a: int, i: int|
            #![trigger adds[a], fresh[i]]
            0 <= a < n && 0 <= i < fresh.len() && list.contains(adds[a]) && fresh[i].item.commits()
                && text::begins(fresh[i].path, below(adds[a])) ==> and_contents(
                list,
                adds,
                fresh,
                n,
            ).contains(fresh[i].path),
        list.no_duplicates() ==> and_contents(list, adds, fresh, n).no_duplicates(),
    decreases n,
{
    if n > 0 {
        lemma_contents(list, adds, fresh, n - 1);
        let before = and_contents(list, adds, fresh, n - 1);
        let all = and_contents(list, adds, fresh, n);
        if before.contains(adds[n - 1]) {
            lemma_children(before, below(adds[n - 1]), fresh, fresh.len() as int);
            assert forall|k: int| 0 <= k < all.len() implies list.contains(#[trigger] all[k])
                || is_ready(fresh, all[k]) by {
                if before.contains(all[k]) {
                    let j = choose|j: int| 0 <= j < before.len() && before[j] == all[k];
                    assert(before[j] == all[k]);
                }
            }
        }
        assert forall|a: int, i: int|
            #![trigger adds[a], fresh[i]]
            0 <= a < n && 0 <= i < fresh.len() && list.contains(adds[a]) && fresh[i].item.commits()
                && text::begins(fresh[i].path, below(adds[a])) implies all.contains(
            fresh[i].path,
        ) by {
            if a == n - 1 {
                assert(before.contains(adds[a]));
            } else {
                assert(before.contains(fresh[i].path));
            }
        }
    } else {
        assert forall|k: int| 0 <= k < list.len() implies list.contains(#[trigger] list[k]) by {}
    }
}

/// Only what is ready gets committed, once the states could be read again.
pub proof fn law_commit_takes_what_is_ready(plan: PlanView, fresh: Seq<StatusView>, k: int)
    requires
        0 <= k < commit_list(plan, fresh, true).len(),
    ensures
        is_ready(fresh, commit_list(plan, fresh, true)[k]),
{
    let base = kept(plan.targets, fresh, plan.targets.len() as int);
    lemma_kept(plan.targets, fresh, plan.targets.len() as int);
    lemma_contents(base, plan.adds, fresh, plan.adds.len() as int);
    let p = commit_list(plan, fresh, true)[k];
    if base.contains(p) {
        let j = choose|j: int| 0 <= j < base.len() && base[j] == p;
        assert(is_ready(fresh, base[j]));
    }
}

/// No target disappears in silence: each is committed or reported as left out, never both.
pub proof fn law_targets_are_committed_or_reported(
    plan: PlanView,
    fresh: Seq<StatusView>,
    i: int,
)
    requires
        0 <= i < plan.targets.len(),
    ensures
        commit_list(plan, fresh, true).contains(plan.targets[i]) <==> !skip_list(
            plan,
            fresh,
            true,
        ).contains(plan.targets[i]),
        commit_list(plan, fresh, false).contains(plan.targets[i]),
{
    let n = plan.targets.len() as int;
    let base = kept(plan.targets, fresh, n);
    let skip = missed(plan.targets, fresh, n);
    let p = plan.targets[i];
    lemma_kept(plan.targets, fresh, n);
    lemma_contents(base, plan.adds, fresh, plan.adds.len() as int);
    lemma_contents(plan.targets, plan.adds, fresh, plan.adds.len() as int);
    assert(plan.targets.contains(p));
    let list = commit_list(plan, fresh, true);
    if list.contains(p) {
        let k = choose|k: int| 0 <= k < list.len() && list[k] == p;
        law_commit_takes_what_is_ready(plan, fresh, k);
        if skip.contains(p) {
            let j = choose|j: int| 0 <= j < skip.len() && skip[j] == p;
            assert(!is_ready(fresh, skip[j]));
        }
    } else {
        if is_ready(fresh, p) {
            assert(base.contains(p));
        }
    }
}

/// A directory that is added and committed takes along everything below it that is ready.
pub proof fn law_added_directories_bring_their_contents(
    plan: PlanView,
    fresh: Seq<StatusView>,
    a: int,
    i: int,
)
    requires
        0 <= a < plan.adds.len(),
        plan.targets.contains(plan.adds[a]),
        is_ready(fresh, plan.adds[a]),
        0 <= i < fresh.len(),
        fresh[i].item.commits(),
        text::begins(fresh[i].path, below(plan.adds[a])),
    ensures
        commit_list(plan, fresh, true).contains(fresh[i].path),
{
    let n = plan.targets.len() as int;
    let base = kept(plan.targets, fresh, n);
    lemma_kept(plan.targets, fresh, n);
    let t = choose|t: int| 0 <= t < plan.targets.len() && plan.targets[t] == plan.adds[a];
    assert(base.contains(plan.targets[t]));
    lemma_contents(base, plan.adds, fresh, plan.adds.len() as int);
}

proof fn lemma_kept_once(targets: Seq<Seq<char>>, fresh: Seq<StatusView>, n: int)
    requires
        0 <= n <= targets.len(),
        targets.no_duplicates(),
    ensures
        kept(targets, fresh, n).no_duplicates(),
        forall|k: int|
            0 <= k < kept(targets, fresh, n).len() ==> targets.take(n).contains(
                #[trigger] kept(targets, fresh, n)[k],
            ),
    decreases n,
{
    if n > 0 {
        lemma_kept_once(targets, fresh, n - 1);
        let before = kept(targets, fresh, n - 1);
        let all = kept(targets, fresh, n);
        assert forall|k: int| 0 <= k < all.len() implies targets.take(n).contains(
            #[trigger] all[k],
        ) by {
            if k < before.len() {
                assert(all[k] == before[k]);
                let head = targets.take(n - 1);
                let i = choose|i: int| 0 <= i < head.len() && head[i] == before[k];
                assert(targets.take(n)[i] == before[k]);
            } else {
                assert(targets.take(n)[n - 1] == all[k]);
            }
        }
        if all.len() > before.len() && before.contains(targets[n - 1]) {
            let k = choose|k: int| 0 <= k < before.len() && before[k] == targets[n - 1];
            let head = targets.take(n - 1);
            let i = choose|i: int| 0 <= i < head.len() && head[i] == before[k];
            assert(targets[i] == targets[n - 1]);
        }
    }
}

/// No path is committed twice.
pub proof fn law_no_path_is_committed_twice(plan: PlanView, fresh: Seq<StatusView>, ok: bool)
    requires
        plan.targets.no_duplicates(),
    ensures
        commit_list(plan, fresh, ok).no_duplicates(),
{
    let n = plan.targets.len() as int;
    lemma_kept_once(plan.targets, fresh, n);
    lemma_contents(kept(plan.targets, fresh, n), plan.adds, fresh, plan.adds.len() as int);
    lemma_contents(plan.targets, plan.adds, fresh, plan.adds.len() as int);
}

// ---------------------------------------------------------------- what exactly is committed

/// `svn status` lists `path` as added, modified, deleted or replaced.
pub open spec fn scheduled(fresh: Seq<StatusView>, path: Seq<char>) -> bool {
    exists|i: int|
        0 <= i < fresh.len() && (#[trigger] fresh[i]).path == path && (fresh[i].item is Added
            || fresh[i].item is Modified || fresh[i].item is Deleted || fresh[i].item is Replaced)
}

/// `path` begins with `dir`, apart from the separators that end `dir`, and a backslash.
pub open spec fn lies_in(path: Seq<char>, dir: Seq<char>) -> bool {
    exists|m: int|
        0 <= m <= dir.len() && m < path.len() && #[trigger] path.take(m) == dir.take(m) && path[m]
            == '\\' && (forall|j: int| m <= j < dir.len() ==> dir[j] == '\\' || dir[j] == '/') && (m
            > 0 ==> dir[m - 1] != '\\' && dir[m - 1] != '/')
}

proof fn lemma_strip(dir: Seq<char>)
    ensures
        text::strip_end(dir, '\\', '/').len() <= dir.len(),
        text::strip_end(dir, '\\', '/') == dir.take(
            text::strip_end(dir, '\\', '/').len() as int,
        ),
        forall|j: int|
            text::strip_end(dir, '\\', '/').len() <= j < dir.len() ==> dir[j] == '\\' || dir[j]
                == '/',
        text::strip_end(dir, '\\', '/').len() > 0 ==> {
            let last = dir[text::strip_end(dir, '\\', '/').len() - 1];
            last != '\\' && last != '/'
        },
    decreases dir.len(),
{
    let s = text::strip_end(dir, '\\', '/');
    if dir.len() > 0 && (dir[dir.len() - 1] == '\\' || dir[dir.len() - 1] == '/') {
        let front = dir.subrange(0, dir.len() - 1);
        lemma_strip(front);
        assert(front.take(s.len() as int) =~= dir.take(s.len() as int));
        assert forall|j: int| s.len() <= j < dir.len() implies dir[j] == '\\' || dir[j]
            == '/' by {
            if j < dir.len() - 1 {
                assert(front[j] == dir[j]);
            }
        }
    } else {
        assert(dir.take(dir.len() as int) =~= dir);
    }
}

/// What lies in a directory begins with what the paths below it begin with.
pub proof fn lemma_lies_in(path: Seq<char>, dir: Seq<char>)
    ensures
        lies_in(path, dir) <==> text::begins(path, below(dir)),
{
    lemma_strip(dir);
    let s = text::strip_end(dir, '\\', '/');
    let p = below(dir);
    if text::begins(path, p) {
        let m = s.len() as int;
        assert(path.subrange(0, p.len() as int)[m] == path[m]);
        assert(path.take(m) =~= path.subrange(0, p.len() as int).take(m));
        assert(p.take(m) =~= s);
        assert(path.take(m) == dir.take(m));
    }
    if lies_in(path, dir) {
        let m = choose|m: int|
            0 <= m <= dir.len() && m < path.len() && #[trigger] path.take(m) == dir.take(m)
                && path[m] == '\\' && (forall|j: int|
                m <= j < dir.len() ==> dir[j] == '\\' || dir[j] == '/') && (m > 0 ==> dir[m - 1]
                != '\\' && dir[m - 1] != '/');
        if m < s.len() {
            assert(dir[s.len() - 1] == '\\' || dir[s.len() - 1] == '/');
        }
        if s.len() < m {
            assert(dir[m - 1] == '\\' || dir[m - 1] == '/');
        }
        assert(path.subrange(0, p.len() as int) =~= path.take(m).push('\\'));
    }
}

/// What lies in a directory that lies in another lies in that one too.
pub proof fn law_lying_in_is_transitive(path: Seq<char>, dir: Seq<char>, top: Seq<char>)
    requires
        lies_in(path, dir),
        lies_in(dir, top),
    ensures
        lies_in(path, top),
{
    lemma_lies_in(path, dir);
    lemma_lies_in(dir, top);
    lemma_lies_in(path, top);
    lemma_strip(dir);
    lemma_strip(top);
    let s = text::strip_end(dir, '\\', '/');
    let t = text::strip_end(top, '\\', '/');
    let d = below(dir);
    let u = below(top);
    assert(dir.subrange(0, u.len() as int) == u);
    assert forall|j: int| 0 <= j < u.len() implies dir[j] == u[j] by {
        assert(dir.subrange(0, u.len() as int)[j] == u[j]);
    }
    if s.len() < t.len() {
        assert(dir[t.len() - 1] == t[t.len() - 1]);
        assert(dir[t.len() - 1] == '\\' || dir[t.len() - 1] == '/');
    }
    assert forall|j: int| 0 <= j < u.len() implies path[j] == u[j] by {
        assert(path.subrange(0, d.len() as int)[j] == d[j]);
        if j < s.len() {
            assert(d[j] == s[j]);
            assert(s[j] == dir[j]);
        }
    }
    assert(path.subrange(0, u.len() as int) =~= u);
}

proof fn lemma_scheduled(fresh: Seq<StatusView>, path: Seq<char>)
    ensures
        scheduled(fresh, path) <==> is_ready(fresh, path),
{
    if scheduled(fresh, path) {
        let i = choose|i: int|
            0 <= i < fresh.len() && (#[trigger] fresh[i]).path == path && (fresh[i].item is Added
                || fresh[i].item is Modified || fresh[i].item is Deleted
                || fresh[i].item is Replaced);
        assert(fresh[i].item.commits());
    }
    if is_ready(fresh, path) {
        let i = choose|i: int|
            0 <= i < fresh.len() && (#[trigger] fresh[i]).path == path && fresh[i].item.commits();
        assert(fresh[i].path == path);
    }
}

/// `and_children` keeps `list` as it is and sets new paths behind it, each of them below `prefix`.
proof fn lemma_children_follow(
    list: Seq<Seq<char>>,
    prefix: Seq<char>,
    fresh: Seq<StatusView>,
    n: int,
)
    requires
        0 <= n <= fresh.len(),
    ensures
        list.len() <= and_children(list, prefix, fresh, n).len(),
        and_children(list, prefix, fresh, n).take(list.len() as int) == list,
        forall|k: int|
            list.len() <= k < and_children(list, prefix, fresh, n).len() ==> text::begins(
                #[trigger] and_children(list, prefix, fresh, n)[k],
                prefix,
            ) && is_ready(fresh, and_children(list, prefix, fresh, n)[k]),
    decreases n,
{
    let all = and_children(list, prefix, fresh, n);
    if n > 0 {
        lemma_children_follow(list, prefix, fresh, n - 1);
        let before = and_children(list, prefix, fresh, n - 1);
        assert(all.take(list.len() as int) =~= before.take(list.len() as int));
        assert forall|k: int| list.len() <= k < all.len() implies text::begins(
            #[trigger] all[k],
            prefix,
        ) && is_ready(fresh, all[k]) by {
            if k < before.len() {
                assert(all[k] == before[k]);
            } else {
                assert(fresh[n - 1].path == all[k]);
            }
        }
    } else {
        assert(all.take(list.len() as int) =~= list);
    }
}

/// `and_contents` keeps `list` as it is and sets behind it what lies in added directories of it.
proof fn lemma_contents_follow(
    list: Seq<Seq<char>>,
    adds: Seq<Seq<char>>,
    fresh: Seq<StatusView>,
    n: int,
)
    requires
        0 <= n <= adds.len(),
    ensures
        list.len() <= and_contents(list, adds, fresh, n).len(),
        and_contents(list, adds, fresh, n).take(list.len() as int) == list,
        forall|k: int|
            list.len() <= k < and_contents(list, adds, fresh, n).len() ==> is_ready(
                fresh,
                #[trigger] and_contents(list, adds, fresh, n)[k],
            ) && exists|a: int|
                0 <= a < n && list.contains(#[trigger] adds[a]) && lies_in(
                    and_contents(list, adds, fresh, n)[k],
                    adds[a],
                ),
    decreases n,
{
    let all = and_contents(list, adds, fresh, n);
    let m = list.len() as int;
    if n > 0 {
        lemma_contents_follow(list, adds, fresh, n - 1);
        let before = and_contents(list, adds, fresh, n - 1);
        if before.contains(adds[n - 1]) {
            lemma_children_follow(before, below(adds[n - 1]), fresh, fresh.len() as int);
            let b = before.len() as int;
            assert(all.take(m) =~= all.take(b).take(m));
            assert forall|k: int| m <= k < all.len() implies is_ready(fresh, #[trigger] all[k])
                && exists|a: int|
                0 <= a < n && list.contains(#[trigger] adds[a]) && lies_in(all[k], adds[a]) by {
                if k < b {
                    assert(all.take(b)[k] == all[k]);
                    let a = choose|a: int|
                        0 <= a < n - 1 && list.contains(#[trigger] adds[a]) && lies_in(
                            before[k],
                            adds[a],
                        );
                    assert(list.contains(adds[a]));
                } else {
                    lemma_lies_in(all[k], adds[n - 1]);
                    if !list.contains(adds[n - 1]) {
                        let j = choose|j: int| 0 <= j < b && before[j] == adds[n - 1];
                        if j < m {
                            assert(before.take(m)[j] == before[j]);
                            assert(list.contains(list[j]));
                        }
                        let a = choose|a: int|
                            0 <= a < n - 1 && list.contains(#[trigger] adds[a]) && lies_in(
                                before[j],
                                adds[a],
                            );
                        law_lying_in_is_transitive(all[k], adds[n - 1], adds[a]);
                        assert(list.contains(adds[a]));
                    }
                }
            }
        } else {
            assert forall|k: int| m <= k < all.len() implies is_ready(fresh, #[trigger] all[k])
                && exists|a: int|
                0 <= a < n && list.contains(#[trigger] adds[a]) && lies_in(all[k], adds[a]) by {
                let a = choose|a: int|
                    0 <= a < n - 1 && list.contains(#[trigger] adds[a]) && lies_in(
                        before[k],
                        adds[a],
                    );
                assert(list.contains(adds[a]));
            }
        }
    } else {
        assert(all.take(m) =~= list);
    }
}

proof fn lemma_kept_is_filtered(targets: Seq<Seq<char>>, fresh: Seq<StatusView>, n: int)
    requires
        0 <= n <= targets.len(),
    ensures
        kept(targets, fresh, n) == targets.take(n).filter(|p: Seq<char>| scheduled(fresh, p)),
        missed(targets, fresh, n) == targets.take(n).filter(|p: Seq<char>| !scheduled(fresh, p)),
    decreases n,
{
    reveal(Seq::filter);
    if n > 0 {
        lemma_kept_is_filtered(targets, fresh, n - 1);
        lemma_scheduled(fresh, targets[n - 1]);
        assert(targets.take(n).drop_last() =~= targets.take(n - 1));
        assert(targets.take(n).last() == targets[n - 1]);
    }
}

/// The list to commit begins with those targets, in their order, that `svn status` lists as added,
/// modified, deleted or replaced, or with all of them where it could not be read. What follows
/// them lies in a directory that is both added and one of these, and is listed by `svn status` in
/// the same way. Without anything to add nothing follows. The other targets are the ones left out.
pub proof fn law_nothing_else_is_committed(plan: PlanView, fresh: Seq<StatusView>, ok: bool)
    ensures
        ({
            let list = commit_list(plan, fresh, ok);
            let chosen = if ok {
                plan.targets.filter(|p: Seq<char>| scheduled(fresh, p))
            } else {
                plan.targets
            };
            let m = chosen.len() as int;
            &&& m <= list.len()
            &&& list.take(m) == chosen
            &&& forall|k: int|
                m <= k < list.len() ==> scheduled(fresh, #[trigger] list[k]) && exists|a: int|
                    0 <= a < plan.adds.len() && chosen.contains(#[trigger] plan.adds[a]) && lies_in(
                        list[k],
                        plan.adds[a],
                    )
            &&& plan.adds.len() == 0 ==> list == chosen
            &&& skip_list(plan, fresh, ok) == if ok {
                plan.targets.filter(|p: Seq<char>| !scheduled(fresh, p))
            } else {
                Seq::empty()
            }
        }),
{
    let n = plan.targets.len() as int;
    assert(plan.targets.take(n) =~= plan.targets);
    lemma_kept_is_filtered(plan.targets, fresh, n);
    let base = if ok {
        kept(plan.targets, fresh, n)
    } else {
        plan.targets
    };
    lemma_contents_follow(base, plan.adds, fresh, plan.adds.len() as int);
    let list = commit_list(plan, fresh, ok);
    assert forall|k: int| base.len() <= k < list.len() implies scheduled(
        fresh,
        #[trigger] list[k],
    ) by {
        lemma_scheduled(fresh, list[k]);
    }
    if plan.adds.len() == 0 {
        assert(list.take(base.len() as int) =~= list);
    }
}

/// A path is committed exactly where it is a target that `svn status` lists as added, modified,
/// deleted or replaced (any target, where the status could not be read), or where it is so listed
/// and lies in an added directory that is such a target.
pub proof fn law_committed_paths(
    plan: PlanView,
    fresh: Seq<StatusView>,
    ok: bool,
    path: Seq<char>,
)
    ensures
        commit_list(plan, fresh, ok).contains(path) <==> {
            ||| plan.targets.contains(path) && (ok ==> scheduled(fresh, path))
            ||| scheduled(fresh, path) && exists|a: int|
                0 <= a < plan.adds.len() && plan.targets.contains(#[trigger] plan.adds[a]) && (ok
                    ==> scheduled(fresh, plan.adds[a])) && lies_in(path, plan.adds[a])
        },
{
    let n = plan.targets.len() as int;
    let base = if ok {
        kept(plan.targets, fresh, n)
    } else {
        plan.targets
    };
    let list = commit_list(plan, fresh, ok);
    assert(plan.targets.take(n) =~= plan.targets);
    lemma_kept_is_filtered(plan.targets, fresh, n);
    lemma_contents(base, plan.adds, fresh, plan.adds.len() as int);
    lemma_contents_follow(base, plan.adds, fresh, plan.adds.len() as int);
    lemma_scheduled(fresh, path);
    assert forall|p: Seq<char>| #[trigger]
        base.contains(p) <==> plan.targets.contains(p) && (ok ==> scheduled(fresh, p)) by {
        if ok {
            let ready = |q: Seq<char>| scheduled(fresh, q);
            if base.contains(p) {
                plan.targets.lemma_filter_contains_rev(ready, p);
                let j = choose|j: int| 0 <= j < base.len() && base[j] == p;
                plan.targets.lemma_filter_pred(ready, j);
                assert(ready(p));
            }
            if plan.targets.contains(p) && scheduled(fresh, p) {
                assert(ready(p));
                let j = choose|j: int| 0 <= j < n && plan.targets[j] == p;
                plan.targets.lemma_filter_contains(ready, j);
            }
        }
    }
    if list.contains(path) {
        let k = choose|k: int| 0 <= k < list.len() && list[k] == path;
        if k < base.len() {
            assert(list.take(base.len() as int)[k] == path);
            assert(base.contains(base[k]));
        } else {
            let a = choose|a: int|
                0 <= a < plan.adds.len() && base.contains(#[trigger] plan.adds[a]) && lies_in(
                    list[k],
                    plan.adds[a],
                );
            assert(plan.targets.contains(plan.adds[a]));
        }
    }
    if scheduled(fresh, path) && exists|a: int|
        0 <= a < plan.adds.len() && plan.targets.contains(#[trigger] plan.adds[a]) && (ok
            ==> scheduled(fresh, plan.adds[a])) && lies_in(path, plan.adds[a]) {
        let a = choose|a: int|
            0 <= a < plan.adds.len() && plan.targets.contains(#[trigger] plan.adds[a]) && (ok
                ==> scheduled(fresh, plan.adds[a])) && lies_in(path, plan.adds[a]);
        assert(base.contains(plan.adds[a]));
        lemma_lies_in(path, plan.adds[a]);
        let i = choose|i: int|
            0 <= i < fresh.len() && (#[trigger] fresh[i]).path == path && fresh[i].item.commits();
        assert(list.contains(fresh[i].path));
    }
    if plan.targets.contains(path) && (ok ==> scheduled(fresh, path)) {
        assert(base.contains(path));
    }
}

// ---------------------------------------------------------------- the steps

/// What to run next.
#[derive(Debug)]
pub enum Step {
    /// `svn add` on these paths.
    Add(Vec<String>),
    /// `svn delete` on these paths.
    Delete(Vec<String>),
    /// `svn status`.
    Status,
    /// `svn commit` on these paths.
    Commit(Vec<String>),
    /// `svn update`.
    Update,
    /// Nothing: this is what came of it.
    Done(Data),
}

/// The view of a `Step`. What came of a commit always asks to read the list again.
pub enum StepView {
    Add(Seq<Seq<char>>),
    Delete(Seq<Seq<char>>),
    Status,
    Commit(Seq<Seq<char>>),
    Update,
    Done { dir: usize, ok: bool, message: Seq<char> },
    Other,
}

impl View for Step {
    type V = StepView;

    open spec fn view(&self) -> StepView {
        match *self {
            Step::Add(paths) => StepView::Add(text::views(paths@)),
            Step::Delete(paths) => StepView::Delete(text::views(paths@)),
            Step::Status => StepView::Status,
            Step::Commit(paths) => StepView::Commit(text::views(paths@)),
            Step::Update => StepView::Update,
            Step::Done(data) => match data {
                Data::Run { dir, ok, message, reload } => if reload {
                    StepView::Done { dir, ok, message: message@ }
                } else {
                    StepView::Other
                },
                _ => StepView::Other,
            },
        }
    }
}

/// A commit under way.
#[derive(Debug)]
pub struct CommitRun {
    pub dir: usize,
    pub label: String,
    pub message: String,
    /// An update follows a commit that worked.
    pub update_after: bool,
    pub plan: CommitPlan,
    /// What was committed.
    pub listed: Vec<String>,
    /// What was left out.
    pub skipped: Vec<String>,
    /// What the commit is reported as.
    pub text: String,
}

/// What follows once everything was added.
pub open spec fn after_adding(plan: PlanView) -> (Seq<Seq<char>>, StepView) {
    if plan.deletes.len() > 0 {
        (
            seq!["$ svn delete （"@ + text::decimal(plan.deletes.len() as int) + " 项）"@],
            StepView::Delete(plan.deletes),
        )
    } else {
        (Seq::empty(), StepView::Status)
    }
}

/// How a commit begins.
pub open spec fn first_step(plan: PlanView) -> (Seq<Seq<char>>, StepView) {
    if plan.adds.len() > 0 {
        (
            seq!["$ svn add --force （"@ + text::decimal(plan.adds.len() as int) + " 项）"@],
            StepView::Add(plan.adds),
        )
    } else {
        after_adding(plan)
    }
}

/// The complaint about a command that did not work for all paths.
pub open spec fn complaint(label: Seq<char>, what: Seq<char>, run: Run) -> Seq<Seq<char>> {
    if run.ok {
        Seq::empty()
    } else {
        seq![label + what + run.told()]
    }
}

/// The lines for the paths that are left out.
pub open spec fn skip_lines(skipped: Seq<Seq<char>>) -> Seq<Seq<char>> {
    Seq::new(
        skipped.len(),
        |i: int| "已跳过（未能加入版本控制或标记删除）："@ + skipped[i],
    )
}

/// A commit message as the output shows it.
pub open spec fn message_head(message: Seq<char>) -> Seq<char> {
    let m = text::trim(message);
    if m.len() == 0 {
        "（空）"@
    } else if text::lines(m).len() > 0 {
        text::trim(text::lines(m)[0])
    } else {
        Seq::empty()
    }
}

/// What follows once `svn status` was read again.
pub open spec fn after_reading(
    dir: usize,
    label: Seq<char>,
    message: Seq<char>,
    plan: PlanView,
    fresh: Seq<StatusView>,
    run: Run,
) -> (Seq<Seq<char>>, StepView) {
    let list = commit_list(plan, fresh, run.ok);
    let said = complaint(label, "：提交前复核状态没读成功，按清单直接提交——"@, run) + skip_lines(
        skip_list(plan, fresh, run.ok),
    );
    if list.len() == 0 {
        (
            said,
            StepView::Done {
                dir,
                ok: false,
                message: label + "："@ + text::decimal(plan.targets.len() as int)
                    + " 项都没能进入提交调度，已放弃提交"@,
            },
        )
    } else {
        (
            said.push(
                "$ svn commit --depth empty （"@ + text::decimal(list.len() as int) + " 项）说明："@
                    + message_head(message),
            ),
            StepView::Commit(list),
        )
    }
}

/// What a commit is reported as.
pub open spec fn commit_report(label: Seq<char>, listed: int, skipped: int, run: Run) -> Seq<char> {
    if !run.ok {
        label + "：提交失败——"@ + run.told()
    } else if skipped > 0 {
        label + "：已提交 "@ + text::decimal(listed) + " 项"@ + "，另有 "@ + text::decimal(skipped)
            + " 项被跳过（见输出记录）"@
    } else {
        label + "：已提交 "@ + text::decimal(listed) + " 项"@
    }
}

fn said_count(before: &str, n: usize, after: &str) -> (r: String)
    ensures
        r@ == before@ + text::decimal(n as int) + after@,
{
    let n = text::count(n);
    text::join3(before, n.as_str(), after)
}

impl CommitRun {
    /// A commit that has not begun.
    pub fn new(
        dir: usize,
        label: &str,
        message: &str,
        update_after: bool,
        plan: CommitPlan,
    ) -> (r: CommitRun)
        ensures
            r.dir == dir,
            r.label@ == label@,
            r.message@ == message@,
            r.update_after == update_after,
            r.plan == plan,
            r.listed@.len() == 0,
            r.skipped@.len() == 0,
            r.text@.len() == 0,
    {
        CommitRun {
            dir,
            label: label.to_owned(),
            message: message.to_owned(),
            update_after,
            plan,
            listed: Vec::new(),
            skipped: Vec::new(),
            text: String::new(),
        }
    }

    fn go_on(&self, lines: Vec<String>) -> (r: (Vec<String>, Step))
        ensures
            text::views(r.0@) == text::views(lines@) + after_adding(self.plan@).0,
            r.1@ == after_adding(self.plan@).1,
    {
        let mut lines = lines;
        let ghost before = lines@;
        if self.plan.deletes.len() > 0 {
            lines.push(said_count("$ svn delete （", self.plan.deletes.len(), " 项）"));
            assert(text::views(lines@) =~= text::views(before) + after_adding(self.plan@).0);
            (lines, Step::Delete(copy_list(&self.plan.deletes)))
        } else {
            assert(text::views(lines@) =~= text::views(before) + after_adding(self.plan@).0);
            (lines, Step::Status)
        }
    }

    /// The lines to show and the first command.
    pub fn begin(&self) -> (r: (Vec<String>, Step))
        ensures
            text::views(r.0@) == first_step(self.plan@).0,
            r.1@ == first_step(self.plan@).1,
    {
        let mut lines: Vec<String> = Vec::new();
        if self.plan.adds.len() > 0 {
            lines.push(said_count("$ svn add --force （", self.plan.adds.len(), " 项）"));
            assert(text::views(lines@) =~= first_step(self.plan@).0);
            (lines, Step::Add(copy_list(&self.plan.adds)))
        } else {
            let r = self.go_on(lines);
            assert(text::views(r.0@) =~= first_step(self.plan@).0);
            r
        }
    }

    fn complain(&self, what: &str, run: &Run) -> (r: Vec<String>)
        ensures
            text::views(r@) == complaint(self.label@, what@, *run),
    {
        let mut lines: Vec<String> = Vec::new();
        if !run.ok {
            let why = run.summary();
            lines.push(text::join3(self.label.as_str(), what, why.as_str()));
        }
        assert(text::views(lines@) =~= complaint(self.label@, what@, *run));
        lines
    }

    /// The lines to show and the next command, after `svn add`.
    pub fn after_add(&self, run: &Run) -> (r: (Vec<String>, Step))
        ensures
            text::views(r.0@) == complaint(self.label@, "：svn add 没有全部成功——"@, *run)
                + after_adding(self.plan@).0,
            r.1@ == after_adding(self.plan@).1,
    {
        let lines = self.complain("：svn add 没有全部成功——", run);
        self.go_on(lines)
    }

    /// The lines to show and the next command, after `svn delete`.
    pub fn after_delete(&self, run: &Run) -> (r: (Vec<String>, Step))
        ensures
            text::views(r.0@) == complaint(self.label@, "：svn delete 没有全部成功——"@, *run),
            r.1@ == StepView::Status,
    {
        (self.complain("：svn delete 没有全部成功——", run), Step::Status)
    }

    /// The lines to show and the next command, after `svn status`.
    pub fn after_status(&mut self, fresh: &Vec<StatusEntry>, run: &Run) -> (r: (Vec<String>, Step))
        ensures
            ({
                let want = after_reading(
                    old(self).dir,
                    old(self).label@,
                    old(self).message@,
                    old(self).plan@,
                    status_views(fresh@),
                    *run,
                );
                text::views(r.0@) == want.0 && r.1@ == want.1
            }),
            text::views(final(self).listed@) == commit_list(
                old(self).plan@,
                status_views(fresh@),
                run.ok,
            ),
            text::views(final(self).skipped@) == skip_list(
                old(self).plan@,
                status_views(fresh@),
                run.ok,
            ),
            *final(self) == (CommitRun {
                listed: final(self).listed,
                skipped: final(self).skipped,
                ..*old(self)
            }),
    {
        let ghost sv = status_views(fresh@);
        let (list, skipped) = settle(&self.plan, fresh, run.ok);
        let mut lines = self.complain(
            "：提交前复核状态没读成功，按清单直接提交——",
            run,
        );
        let ghost start = text::views(lines@);
        let ghost skips = text::views(skipped@);
        let mut i: usize = 0;
        assert(start + skip_lines(skips).take(0) =~= start);
        while i < skipped.len()
            invariant
                i <= skipped.len(),
                skips == text::views(skipped@),
                text::views(lines@) == start + skip_lines(skips).take(i as int),
            decreases skipped.len() - i,
        {
            let ghost before = lines@;
            let line = text::join2(
                "已跳过（未能加入版本控制或标记删除）：",
                skipped[i].as_str(),
            );
            lines.push(line);
            assert(text::views(lines@) =~= text::views(before).push(line@));
            assert(skip_lines(skips).take(i + 1) =~= skip_lines(skips).take(i as int).push(
                skip_lines(skips)[i as int],
            ));
            i += 1;
            assert(text::views(lines@) =~= start + skip_lines(skips).take(i as int));
        }
        assert(skip_lines(skips).take(skips.len() as int) =~= skip_lines(skips));
        let n = list.len();
        assert(text::views(list@).len() == n);
        assert(text::views(self.plan.targets@).len() == self.plan.targets@.len());
        if n == 0 {
            let count = text::count(self.plan.targets.len());
            let mut message = text::join3(self.label.as_str(), "：", count.as_str());
            message.append(" 项都没能进入提交调度，已放弃提交");
            let done = Data::Run { dir: self.dir, ok: false, message, reload: true };
            self.listed = list;
            self.skipped = skipped;
            return (lines, Step::Done(done));
        }
        let head = message_line(self.message.as_str());
        let mut line = said_count("$ svn commit --depth empty （", n, " 项）说明：");
        line.append(head.as_str());
        let ghost before = lines@;
        lines.push(line);
        assert(text::views(lines@) =~= text::views(before).push(line@));
        let step = Step::Commit(copy_list(&list));
        self.listed = list;
        self.skipped = skipped;
        (lines, step)
    }

    /// The next command after `svn commit`. The report goes out once, when all is done.
    pub fn after_commit(&mut self, run: &Run) -> (r: Step)
        ensures
            ({
                let report = commit_report(
                    old(self).label@,
                    old(self).listed@.len() as int,
                    old(self).skipped@.len() as int,
                    *run,
                );
                &&& final(self).text@ == report
                &&& r@ == (if run.ok && old(self).update_after {
                    StepView::Update
                } else {
                    StepView::Done { dir: old(self).dir, ok: run.ok, message: report }
                })
            }),
            *final(self) == (CommitRun { text: final(self).text, ..*old(self) }),
    {
        let report = if run.ok {
            let n = text::count(self.listed.len());
            let mut t = text::join3(self.label.as_str(), "：已提交 ", n.as_str());
            t.append(" 项");
            if self.skipped.len() > 0 {
                let k = text::count(self.skipped.len());
                t.append("，另有 ");
                t.append(k.as_str());
                t.append(" 项被跳过（见输出记录）");
            }
            t
        } else {
            let why = run.summary();
            text::join3(self.label.as_str(), "：提交失败——", why.as_str())
        };
        self.text = report.clone();
        if run.ok && self.update_after {
            Step::Update
        } else {
            Step::Done(Data::Run { dir: self.dir, ok: run.ok, message: report, reload: true })
        }
    }

    /// The lines to show and what came of it, after the update behind a commit that worked.
    pub fn after_update(&self, run: &Run) -> (r: (Vec<String>, Step))
        ensures
            text::views(r.0@) == complaint(
                self.label@,
                "：提交成功，但提交后的更新没完成——"@,
                *run,
            ),
            r.1@ == (StepView::Done { dir: self.dir, ok: true, message: self.text@ }),
    {
        let lines = self.complain("：提交成功，但提交后的更新没完成——", run);
        (
            lines,
            Step::Done(
                Data::Run { dir: self.dir, ok: true, message: self.text.clone(), reload: true },
            ),
        )
    }
}

/// A commit message as the output shows it.
pub fn message_line(message: &str) -> (r: String)
    ensures
        r@ == message_head(message@),
{
    let m = text::trimmed(message);
    if m.as_str().is_empty() {
        return "（空）".to_owned();
    }
    let lines = text::lines_of(m.as_str());
    assert(text::views(lines@).len() == lines@.len());
    if lines.len() > 0 {
        assert(text::views(lines@)[0] == lines@[0]@);
        text::trimmed(lines[0].as_str())
    } else {
        String::new()
    }
}

// ---------------------------------------------------------------- everything at once

/// How the upload of a whole directory begins.
#[derive(Debug)]
pub enum Upload {
    /// There is nothing to do: this is what came of it.
    Done(Data),
    /// The line to show and the commit to run.
    Go(String, CommitPlan),
}

/// How the upload of a whole directory begins, once its state was read.
pub fn start_upload(dir: usize, label: &str, entries: &Vec<StatusEntry>, run: &Run) -> (r: Upload)
    ensures
        ({
            let sv = status_views(entries@);
            let targets = picked(sv, Pick::Any);
            if !run.ok {
                r matches Upload::Done(Data::Run { dir: d, ok, message, reload }) && d == dir && !ok
                    && !reload && message@ == label@ + "：读取本地修改失败——"@ + run.told()
            } else if targets.len() == 0 {
                r matches Upload::Done(Data::Run { dir: d, ok, message, reload }) && d == dir && ok
                    && !reload && message@ == label@ + "：没有可提交的改动，已跳过"@
            } else {
                r matches Upload::Go(line, plan) && plan@ == (PlanView {
                    targets,
                    adds: picked(sv, Pick::AnyNew),
                    deletes: picked(sv, Pick::AnyMissing),
                }) && line@ == label@ + "：全部上传 "@ + text::decimal(targets.len() as int)
                    + " 项（其中先 add "@ + text::decimal(plan@.adds.len() as int) + " 项、先 delete "@
                    + text::decimal(plan@.deletes.len() as int) + " 项）"@
            }
        }),
{
    if !run.ok {
        let why = run.summary();
        let message = text::join3(label, "：读取本地修改失败——", why.as_str());
        return Upload::Done(Data::Run { dir, ok: false, message, reload: false });
    }
    let plan = upload_plan(entries);
    assert(plan@.targets.len() == plan.targets@.len());
    assert(plan@.adds.len() == plan.adds@.len());
    assert(plan@.deletes.len() == plan.deletes@.len());
    if plan.targets.len() == 0 {
        let message = text::join2(label, "：没有可提交的改动，已跳过");
        return Upload::Done(Data::Run { dir, ok: true, message, reload: false });
    }
    let n = text::count(plan.targets.len());
    let a = text::count(plan.adds.len());
    let d = text::count(plan.deletes.len());
    let mut line = text::join3(label, "：全部上传 ", n.as_str());
    line.append(" 项（其中先 add ");
    line.append(a.as_str());
    line.append(" 项、先 delete ");
    line.append(d.as_str());
    line.append(" 项）");
    Upload::Go(line, plan)
}

/// An upload of a whole directory takes what is checked at first: everything that can be committed
/// starts out checked.
pub proof fn law_upload_takes_what_starts_checked(entries: Seq<StatusView>, n: int)
    requires
        0 <= n <= entries.len(),
        forall|i: int|
            0 <= i < entries.len() ==> (#[trigger] entries[i]).checked == entries[i].item.uploads(),
    ensures
        crate::commit::paths_picked(entries, Pick::Any, n) == crate::commit::paths_picked(
            entries,
            Pick::Checked,
            n,
        ),
    decreases n,
{
    if n > 0 {
        law_upload_takes_what_starts_checked(entries, n - 1);
    }
}

// ---------------------------------------------------------------- laws of the steps

/// A commit adds what is to be added, then deletes what is to be deleted, then looks at what came of
/// it; steps with nothing to do are left out.
pub proof fn law_commits_begin_in_order(plan: PlanView)
    ensures
        plan.adds.len() > 0 ==> first_step(plan).1 == StepView::Add(plan.adds),
        plan.adds.len() == 0 && plan.deletes.len() > 0 ==> first_step(plan).1 == StepView::Delete(
            plan.deletes,
        ),
        plan.adds.len() == 0 && plan.deletes.len() == 0 ==> first_step(plan).1 is Status,
        plan.deletes.len() > 0 ==> after_adding(plan).1 == StepView::Delete(plan.deletes),
        plan.deletes.len() == 0 ==> after_adding(plan).1 is Status,
{
}

/// What is committed is the list that was settled, and a commit without anything left is given up.
/// Every path that is left out is told of.
pub proof fn law_settled_lists_are_committed(
    dir: usize,
    label: Seq<char>,
    message: Seq<char>,
    plan: PlanView,
    fresh: Seq<StatusView>,
    run: Run,
    k: int,
)
    ensures
        ({
            let list = commit_list(plan, fresh, run.ok);
            let skipped = skip_list(plan, fresh, run.ok);
            let (lines, step) = after_reading(dir, label, message, plan, fresh, run);
            &&& list.len() > 0 ==> step == StepView::Commit(list)
            &&& list.len() == 0 ==> (step matches StepView::Done { dir: d, ok, .. } && d == dir
                && !ok)
            &&& 0 <= k < skipped.len() ==> lines.contains(
                "已跳过（未能加入版本控制或标记删除）："@ + skipped[k],
            )
        }),
{
    let skipped = skip_list(plan, fresh, run.ok);
    let said = complaint(label, "：提交前复核状态没读成功，按清单直接提交——"@, run);
    let (lines, _) = after_reading(dir, label, message, plan, fresh, run);
    if 0 <= k < skipped.len() {
        assert(skip_lines(skipped)[k] == "已跳过（未能加入版本控制或标记删除）："@ + skipped[k]);
        assert(lines[said.len() + k] == skip_lines(skipped)[k]);
    }
}

/// The output shows the first line of a message, without white space around it.
pub proof fn law_messages_are_shown_by_their_first_line(line: Seq<char>, rest: Seq<char>)
    requires
        line.len() > 0,
        !text::is_space(line[0]),
        !text::is_space(line.last()),
        !line.contains('\n'),
        rest.len() > 0 && !text::is_space(rest.last()),
    ensures
        message_head(line) == line,
        message_head(line + seq!['\n'] + rest) == line,
        message_head(Seq::empty()) == "（空）"@,
{
    let s = line + seq!['\n'] + rest;
    let n = line.len() as int;
    assert(s[0] == line[0] && s.last() == rest.last());
    assert(text::trim_start(s) == s && text::trim_end(s) == s);
    assert(text::trim_start(line) == line && text::trim_end(line) == line);
    assert forall|j: int| 0 <= j < n implies #[trigger] s[j] != '\n' && line[j] != '\n' by {
        assert(s[j] == line[j]);
        assert(line.contains(line[j]));
    }
    assert(s[n] == '\n');
    text::lemma_index_of_is(s, '\n', n);
    text::lemma_index_of_is(line, '\n', n);
    assert(s.subrange(0, n) =~= line);
    assert(line.last() != '\r');
    assert(text::chomp(line) == line);
    assert(text::lines(s)[0] == line);
    assert(text::lines(line) =~= seq![line]);
}

/// A commit that went well is reported with the number of paths, and with the number of those left
/// out where there are any; one that did not is reported with the reason. Every path that is left
/// out is named in a line of its own, in order.
pub proof fn law_commits_are_reported(
    label: Seq<char>,
    listed: int,
    skipped: Seq<Seq<char>>,
    run: Run,
)
    ensures
        ({
            let t = commit_report(label, listed, skipped.len() as int, run);
            &&& text::begins(t, label)
            &&& !run.ok ==> text::ends(t, run.told())
            &&& run.ok ==> text::occurs(t, text::decimal(listed))
            &&& run.ok && skipped.len() > 0 ==> text::occurs(t, text::decimal(skipped.len() as int))
        }),
        skip_lines(skipped).len() == skipped.len(),
        forall|i: int|
            0 <= i < skipped.len() ==> text::ends(#[trigger] skip_lines(skipped)[i], skipped[i]),
{
    let n = text::decimal(listed);
    let k = text::decimal(skipped.len() as int);
    let t = commit_report(label, listed, skipped.len() as int, run);
    assert(t.subrange(0, label.len() as int) =~= label);
    if !run.ok {
        let why = run.told();
        assert(t.subrange(t.len() - why.len(), t.len() as int) =~= why);
    } else {
        let head = label + "：已提交 "@;
        text::lemma_occurs_between(head, n, " 项"@);
        if skipped.len() > 0 {
            let tail = " 项被跳过（见输出记录）"@;
            text::lemma_occurs_between(head, n, " 项"@ + "，另有 "@ + k + tail);
            assert(t =~= head + n + (" 项"@ + "，另有 "@ + k + tail));
            text::lemma_occurs_between(head + n + " 项"@ + "，另有 "@, k, tail);
            assert(t =~= head + n + " 项"@ + "，另有 "@ + k + tail);
        }
    }
    assert forall|i: int| 0 <= i < skipped.len() implies text::ends(
        #[trigger] skip_lines(skipped)[i],
        skipped[i],
    ) by {
        let l = skip_lines(skipped)[i];
        assert(l.subrange(l.len() - skipped[i].len(), l.len() as int) =~= skipped[i]);
    }
}

} // verus!

