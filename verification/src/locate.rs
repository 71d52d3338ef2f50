//! Finding the client: where it may lie, what the registry says, a shallow scan of the drives, and
//! which of the places to settle for. Files are looked at elsewhere; this says which ones.

use vstd::prelude::*;
use crate::order;
use crate::path;
use crate::text;

verus! {

// ---------------------------------------------------------------- lists of places

/// `list` holds the place `p`, however it is spelled.
pub open spec fn has_place(list: Seq<Seq<char>>, p: Seq<char>) -> bool {
    exists|i: int| 0 <= i < list.len() && path::spelled(#[trigger] list[i]) == path::spelled(p)
}

/// `list` with `p` behind it, unless it holds that place.
pub open spec fn with_place(list: Seq<Seq<char>>, p: Seq<char>) -> Seq<Seq<char>> {
    if has_place(list, p) {
        list
    } else {
        list.push(p)
    }
}

/// `list` with the places in `more` behind it, each place once.
pub open spec fn with_places(list: Seq<Seq<char>>, more: Seq<Seq<char>>) -> Seq<Seq<char>>
    decreases more.len(),
{
    if more.len() == 0 {
        list
    } else {
        with_place(with_places(list, more.drop_last()), more.last())
    }
}

/// The places in `all`, each once, in the order in which they come up.
pub open spec fn distinct(all: Seq<Seq<char>>) -> Seq<Seq<char>> {
    with_places(Seq::empty(), all)
}

proof fn lemma_with_places_twice(list: Seq<Seq<char>>, a: Seq<Seq<char>>, b: Seq<Seq<char>>)
    ensures
        with_places(with_places(list, a), b) == with_places(list, a + b),
    decreases b.len(),
{
    if b.len() == 0 {
        assert(a + b =~= a);
    } else {
        lemma_with_places_twice(list, a, b.drop_last());
        assert((a + b).drop_last() =~= a + b.drop_last());
    }
}

proof fn lemma_with_one(list: Seq<Seq<char>>, p: Seq<char>)
    ensures
        with_places(list, seq![p]) == with_place(list, p),
{
    assert(seq![p].drop_last() =~= Seq::empty());
    assert(with_places(list, seq![p].drop_last()) == list);
}

/// No place is listed twice.
pub open spec fn places_differ(list: Seq<Seq<char>>) -> bool {
    forall|i: int, j: int|
        0 <= i < j < list.len() ==> path::spelled(#[trigger] list[i]) != path::spelled(
            #[trigger] list[j],
        )
}

/// A list of places holds every place that came up, and none twice.
pub proof fn law_places_come_once(list: Seq<Seq<char>>, more: Seq<Seq<char>>)
    requires
        places_differ(list),
    ensures
        places_differ(with_places(list, more)),
        forall|k: int|
            0 <= k < more.len() ==> has_place(with_places(list, more), #[trigger] more[k]),
        forall|k: int| 0 <= k < list.len() ==> has_place(with_places(list, more), #[trigger] list[k]),
    decreases more.len(),
{
    if more.len() == 0 {
        assert forall|k: int| 0 <= k < list.len() implies has_place(
            with_places(list, more),
            #[trigger] list[k],
        ) by {
            assert(with_places(list, more)[k] == list[k]);
        }
    } else {
        let before = with_places(list, more.drop_last());
        let all = with_places(list, more);
        law_places_come_once(list, more.drop_last());
        let p = more.last();
        if !has_place(before, p) {
            assert(all[all.len() - 1] == p);
        }
        assert forall|q: Seq<char>| #[trigger] has_place(before, q) implies has_place(all, q) by {
            let i = choose|i: int|
                0 <= i < before.len() && path::spelled(#[trigger] before[i]) == path::spelled(q);
            assert(all[i] == before[i]);
        }
        assert forall|k: int| 0 <= k < more.len() implies has_place(all, #[trigger] more[k]) by {
            if k < more.len() - 1 {
                assert(more.drop_last()[k] == more[k]);
            }
        }
    }
}

/// A list of places under construction, with the spelling of each.
struct Places {
    list: Vec<String>,
    spelled: Vec<String>,
}

impl Places {
    spec fn wf(self) -> bool {
        &&& self.list@.len() == self.spelled@.len()
        &&& forall|i: int|
            0 <= i < self.list@.len() ==> (#[trigger] self.spelled@[i])@ == path::spelled(
                self.list@[i]@,
            )
    }

    fn add(&mut self, p: String)
        requires
            old(self).wf(),
        ensures
            final(self).wf(),
            text::views(final(self).list@) == with_places(text::views(old(self).list@), seq![p@]),
    {
        let ghost lv = text::views(self.list@);
        let key = path::spelling(p.as_str());
        let known = text::holds(&self.spelled, key.as_str());
        proof {
            lemma_with_one(lv, p@);
            if known {
                let sv = text::views(self.spelled@);
                let i = choose|i: int| 0 <= i < sv.len() && sv[i] == key@;
                assert(self.spelled@[i]@ == key@);
                assert(path::spelled(lv[i]) == path::spelled(p@));
            } else {
                assert forall|i: int| 0 <= i < lv.len() implies path::spelled(#[trigger] lv[i])
                    != path::spelled(p@) by {
                    assert(text::views(self.spelled@)[i] == self.spelled@[i]@);
                    assert(lv[i] == self.list@[i]@);
                }
            }
        }
        if !known {
            self.list.push(p);
            self.spelled.push(key);
            assert(text::views(self.list@) =~= lv.push(p@));
        }
    }

    fn add_joined(&mut self, base: &str, tail: &str)
        requires
            old(self).wf(),
        ensures
            final(self).wf(),
            text::views(final(self).list@) == with_places(
                text::views(old(self).list@),
                seq![path::joined(base@, tail@)],
            ),
    {
        let p = path::join(base, tail);
        self.add(p);
    }

    fn add_below(&mut self, base: &str, subs: &Vec<&str>)
        requires
            old(self).wf(),
        ensures
            final(self).wf(),
            text::views(final(self).list@) == with_places(
                text::views(old(self).list@),
                clients_below(base@, crate::client::words(subs@)),
            ),
    {
        let ghost start = text::views(self.list@);
        let ghost sv = crate::client::words(subs@);
        let ghost all = clients_below(base@, sv);
        let mut i: usize = 0;
        assert(all.take(0) =~= Seq::empty());
        while i < subs.len()
            invariant
                i <= subs.len(),
                self.wf(),
                sv == crate::client::words(subs@),
                all == clients_below(base@, sv),
                text::views(self.list@) == with_places(start, all.take(i as int)),
            decreases subs.len() - i,
        {
            let dir = path::join(base, subs[i]);
            proof {
                assert(all.take(i + 1) =~= all.take(i as int) + seq![all[i as int]]);
                lemma_with_places_twice(start, all.take(i as int), seq![all[i as int]]);
                assert(all[i as int] == path::joined(dir@, "svn.exe"@));
            }
            self.add_joined(dir.as_str(), "svn.exe");
            i += 1;
        }
        assert(all.take(i as int) =~= all);
    }
}

// ---------------------------------------------------------------- where the client may lie

/// What the environment says of where programs lie.
#[derive(Debug)]
pub struct Surroundings {
    /// `SVN_MANAGER_SVN`.
    pub custom: Option<String>,
    /// `SVN_ROOT`, `SVN_HOME` and `Subversion_Home`, those that are set.
    pub homes: Vec<String>,
    /// The directories of `PATH`.
    pub search: Vec<String>,
    /// `ProgramFiles`, `ProgramFiles(x86)`, `ProgramW6432`, `LOCALAPPDATA` and `ProgramData`,
    /// those that are set.
    pub programs: Vec<String>,
    /// `USERPROFILE`.
    pub profile: Option<String>,
    /// `ProgramData`.
    pub program_data: Option<String>,
    /// The drives that there are.
    pub drives: Vec<String>,
}

/// The client in each directory `subs` below `base`.
pub open spec fn clients_below(base: Seq<char>, subs: Seq<Seq<char>>) -> Seq<Seq<char>> {
    Seq::new(subs.len(), |i: int| path::joined(path::joined(base, subs[i]), "svn.exe"@))
}

/// Where installers put clients.
pub open spec fn client_subdirs() -> Seq<Seq<char>> {
    seq![
        "TortoiseSVN/bin"@,
        "Subversion/bin"@,
        "SlikSvn/bin"@,
        "VisualSVN Subversion/bin"@,
        "VisualSVN Server/bin"@,
        "CollabNet/Subversion Client/bin"@,
        "WinSVN/bin"@,
        "Apache Subversion/bin"@,
        "subversion/bin"@,
        "svn/bin"@,
    ]
}

/// Where people put programs.
pub open spec fn search_bases() -> Seq<Seq<char>> {
    seq![
        "Program Files"@,
        "Program Files (x86)"@,
        "Program"@,
        "Program\\Tools"@,
        "Program Files\\Tools"@,
        "Tools"@,
        "Dev"@,
        "Soft"@,
        "Software"@,
        "usr"@,
        "opt"@,
    ]
}

/// Where users have clients of their own.
pub open spec fn profile_subdirs() -> Seq<Seq<char>> {
    seq![
        "scoop\\apps\\subversion\\current\\bin"@,
        "scoop\\apps\\tortoisesvn\\current\\bin"@,
        "AppData\\Local\\Programs\\TortoiseSVN\\bin"@,
    ]
}

/// The client in each of the first `n` homes.
pub open spec fn home_places(homes: Seq<Seq<char>>, n: int) -> Seq<Seq<char>>
    decreases n,
{
    if n <= 0 {
        Seq::empty()
    } else {
        home_places(homes, n - 1) + seq![
            path::joined(path::joined(homes[n - 1], "bin"@), "svn.exe"@),
            path::joined(homes[n - 1], "svn.exe"@),
        ]
    }
}

/// The client in each of the first `n` directories.
pub open spec fn search_places(dirs: Seq<Seq<char>>, n: int) -> Seq<Seq<char>>
    decreases n,
{
    if n <= 0 {
        Seq::empty()
    } else {
        search_places(dirs, n - 1).push(path::joined(dirs[n - 1], "svn.exe"@))
    }
}

/// The client where installers put it below each of the first `n` directories.
pub open spec fn program_places(dirs: Seq<Seq<char>>, n: int) -> Seq<Seq<char>>
    decreases n,
{
    if n <= 0 {
        Seq::empty()
    } else {
        program_places(dirs, n - 1) + clients_below(dirs[n - 1], client_subdirs())
    }
}

/// The client below the first `n` places where people put programs on a drive.
pub open spec fn drive_places(root: Seq<char>, n: int) -> Seq<Seq<char>>
    decreases n,
{
    if n <= 0 {
        Seq::empty()
    } else {
        drive_places(root, n - 1) + clients_below(
            path::joined(root, search_bases()[n - 1]),
            client_subdirs(),
        )
    }
}

/// The client on the first `n` drives.
pub open spec fn drives_places(drives: Seq<Seq<char>>, n: int) -> Seq<Seq<char>>
    decreases n,
{
    if n <= 0 {
        Seq::empty()
    } else {
        drives_places(drives, n - 1) + drive_places(drives[n - 1], search_bases().len() as int)
    }
}

impl Surroundings {
    /// Every place where the client may lie, the likeliest first.
    pub open spec fn places(self) -> Seq<Seq<char>> {
        let homes = text::views(self.homes@);
        let search = text::views(self.search@);
        let programs = text::views(self.programs@);
        let drives = text::views(self.drives@);
        (match self.custom {
            Some(p) => seq![p@],
            None => Seq::empty(),
        }) + home_places(homes, homes.len() as int) + search_places(search, search.len() as int)
            + program_places(programs, programs.len() as int) + (match self.profile {
            Some(p) => clients_below(p@, profile_subdirs()),
            None => Seq::empty(),
        }) + (match self.program_data {
            Some(p) => seq![path::joined(p@, "chocolatey\\bin\\svn.exe"@)],
            None => Seq::empty(),
        }) + drives_places(drives, drives.len() as int)
    }
}

fn subdirs() -> (r: Vec<&'static str>)
    ensures
        crate::client::words(r@) == client_subdirs(),
{
    let mut r: Vec<&'static str> = Vec::new();
    r.push("TortoiseSVN/bin");
    r.push("Subversion/bin");
    r.push("SlikSvn/bin");
    r.push("VisualSVN Subversion/bin");
    r.push("VisualSVN Server/bin");
    r.push("CollabNet/Subversion Client/bin");
    r.push("WinSVN/bin");
    r.push("Apache Subversion/bin");
    r.push("subversion/bin");
    r.push("svn/bin");
    assert(crate::client::words(r@) =~= client_subdirs());
    r
}

fn bases() -> (r: Vec<&'static str>)
    ensures
        crate::client::words(r@) == search_bases(),
{
    let mut r: Vec<&'static str> = Vec::new();
    r.push("Program Files");
    r.push("Program Files (x86)");
    r.push("Program");
    r.push("Program\\Tools");
    r.push("Program Files\\Tools");
    r.push("Tools");
    r.push("Dev");
    r.push("Soft");
    r.push("Software");
    r.push("usr");
    r.push("opt");
    assert(crate::client::words(r@) =~= search_bases());
    r
}

fn own_dirs() -> (r: Vec<&'static str>)
    ensures
        crate::client::words(r@) == profile_subdirs(),
{
    let mut r: Vec<&'static str> = Vec::new();
    r.push("scoop\\apps\\subversion\\current\\bin");
    r.push("scoop\\apps\\tortoisesvn\\current\\bin");
    r.push("AppData\\Local\\Programs\\TortoiseSVN\\bin");
    assert(crate::client::words(r@) =~= profile_subdirs());
    r
}

/// Every place where the client may lie, each once, the likeliest first.
pub fn known_locations(around: &Surroundings) -> (r: Vec<String>)
    ensures
        text::views(r@) == distinct(around.places()),
{
    let subs = subdirs();
    let mut found = Places { list: Vec::new(), spelled: Vec::new() };
    let ghost none: Seq<Seq<char>> = Seq::empty();
    let ghost mut all: Seq<Seq<char>> = Seq::empty();
    assert(text::views(found.list@) =~= none);
    if let Some(p) = &around.custom {
        found.add(p.clone());
        proof {
            all = seq![p@];
        }
    }
    let ghost a0 = all;
    let ghost homes = text::views(around.homes@);
    let mut i: usize = 0;
    assert(a0 + home_places(homes, 0) =~= a0);
    while i < around.homes.len()
        invariant
            i <= around.homes.len(),
            found.wf(),
            homes == text::views(around.homes@),
            all == a0 + home_places(homes, i as int),
            text::views(found.list@) == with_places(none, all),
        decreases around.homes.len() - i,
    {
        let home = around.homes[i].as_str();
        let bin = path::join(home, "bin");
        assert(homes[i as int] == home@);
        proof {
            let one = seq![path::joined(bin@, "svn.exe"@)];
            let two = seq![path::joined(home@, "svn.exe"@)];
            lemma_with_places_twice(none, all, one);
            lemma_with_places_twice(none, all + one, two);
            assert(all + one + two =~= a0 + home_places(homes, i + 1));
            all = all + one + two;
        }
        found.add_joined(bin.as_str(), "svn.exe");
        found.add_joined(home, "svn.exe");
        i += 1;
    }
    let ghost a1 = all;
    let ghost search = text::views(around.search@);
    let mut i: usize = 0;
    assert(a1 + search_places(search, 0) =~= a1);
    while i < around.search.len()
        invariant
            i <= around.search.len(),
            found.wf(),
            search == text::views(around.search@),
            all == a1 + search_places(search, i as int),
            text::views(found.list@) == with_places(none, all),
        decreases around.search.len() - i,
    {
        assert(search[i as int] == around.search@[i as int]@);
        proof {
            let one = seq![path::joined(search[i as int], "svn.exe"@)];
            lemma_with_places_twice(none, all, one);
            assert(all + one =~= a1 + search_places(search, i + 1));
            all = all + one;
        }
        found.add_joined(around.search[i].as_str(), "svn.exe");
        i += 1;
    }
    let ghost a2 = all;
    let ghost programs = text::views(around.programs@);
    let mut i: usize = 0;
    assert(a2 + program_places(programs, 0) =~= a2);
    while i < around.programs.len()
        invariant
            i <= around.programs.len(),
            found.wf(),
            crate::client::words(subs@) == client_subdirs(),
            programs == text::views(around.programs@),
            all == a2 + program_places(programs, i as int),
            text::views(found.list@) == with_places(none, all),
        decreases around.programs.len() - i,
    {
        assert(programs[i as int] == around.programs@[i as int]@);
        proof {
            let more = clients_below(programs[i as int], client_subdirs());
            lemma_with_places_twice(none, all, more);
            assert(all + more =~= a2 + program_places(programs, i + 1));
            all = all + more;
        }
        found.add_below(around.programs[i].as_str(), &subs);
        i += 1;
    }
    let ghost a3 = all;
    let ghost mut own: Seq<Seq<char>> = Seq::empty();
    if let Some(p) = &around.profile {
        let dirs = own_dirs();
        proof {
            own = clients_below(p@, profile_subdirs());
            lemma_with_places_twice(none, all, own);
        }
        found.add_below(p.as_str(), &dirs);
    }
    proof {
        assert(a3 + Seq::<Seq<char>>::empty() =~= a3);
        all = a3 + own;
    }
    let ghost a4 = all;
    let ghost mut choco: Seq<Seq<char>> = Seq::empty();
    if let Some(p) = &around.program_data {
        proof {
            choco = seq![path::joined(p@, "chocolatey\\bin\\svn.exe"@)];
            lemma_with_places_twice(none, all, choco);
        }
        found.add_joined(p.as_str(), "chocolatey\\bin\\svn.exe");
    }
    proof {
        assert(a4 + Seq::<Seq<char>>::empty() =~= a4);
        all = a4 + choco;
    }
    let ghost a5 = all;
    let base_list = bases();
    let ghost drives = text::views(around.drives@);
    let mut i: usize = 0;
    assert(a5 + drives_places(drives, 0) =~= a5);
    while i < around.drives.len()
        invariant
            i <= around.drives.len(),
            found.wf(),
            crate::client::words(subs@) == client_subdirs(),
            crate::client::words(base_list@) == search_bases(),
            drives == text::views(around.drives@),
            all == a5 + drives_places(drives, i as int),
            text::views(found.list@) == with_places(none, all),
        decreases around.drives.len() - i,
    {
        let root = around.drives[i].as_str();
        assert(drives[i as int] == root@);
        let ghost before = all;
        let mut k: usize = 0;
        assert(before + drive_places(root@, 0) =~= before);
        while k < base_list.len()
            invariant
                k <= base_list.len(),
                found.wf(),
                crate::client::words(subs@) == client_subdirs(),
                crate::client::words(base_list@) == search_bases(),
                all == before + drive_places(root@, k as int),
                text::views(found.list@) == with_places(none, all),
            decreases base_list.len() - k,
        {
            let dir = path::join(root, base_list[k]);
            proof {
                assert(crate::client::words(base_list@)[k as int] == base_list@[k as int]@);
                let more = clients_below(dir@, client_subdirs());
                lemma_with_places_twice(none, all, more);
                assert(all + more =~= before + drive_places(root@, k + 1));
                all = all + more;
            }
            found.add_below(dir.as_str(), &subs);
            k += 1;
        }
        assert(crate::client::words(base_list@).len() == base_list@.len());
        assert(all =~= a5 + drives_places(drives, i + 1));
        i += 1;
    }
    assert(all =~= around.places());
    found.list
}

// ---------------------------------------------------------------- the registry

/// The directory that a line of a registry key names, if any.
pub open spec fn registry_value(line: Seq<char>) -> Option<Seq<char>> {
    let i = text::first_at(line, "REG_SZ"@, 0);
    if i < 0 {
        None
    } else {
        let value = text::trim(text::after(line, i + 6));
        if value.len() == 0 || !text::occurs(value, seq![':']) {
            None
        } else {
            Some(value)
        }
    }
}

/// Where the first `n` lines of a registry key say that the client may lie.
pub open spec fn registry_lines(lines: Seq<Seq<char>>, n: int) -> Seq<Seq<char>>
    decreases n,
{
    if n <= 0 {
        Seq::empty()
    } else {
        match registry_value(lines[n - 1]) {
            Some(base) => registry_lines(lines, n - 1) + seq![
                path::joined(path::joined(base, "bin"@), "svn.exe"@),
                path::joined(base, "svn.exe"@),
            ],
            None => registry_lines(lines, n - 1),
        }
    }
}

fn value_in(line: &str) -> (r: Option<String>)
    ensures
        match r {
            Some(t) => registry_value(line@) == Some(t@),
            None => registry_value(line@) is None,
        },
{
    let s = text::chars_of(line);
    let p = text::chars_of("REG_SZ");
    proof {
        reveal_strlit("REG_SZ");
        reveal_strlit(":");
        assert(":"@ =~= seq![':']);
    }
    let n = s.len();
    match text::find_from(&s, &p, 0) {
        Some(i) => {
            assert(i + 6 <= n);
            let rest = text::string_from(&s, i + 6, n);
            let value = text::trimmed(rest.as_str());
            if value.as_str().is_empty() || !text::contains(value.as_str(), ":") {
                None
            } else {
                Some(value)
            }
        },
        None => None,
    }
}

/// Where the reply to a query of the registry says that the client may lie.
pub fn registry_places(out: &str) -> (r: Vec<String>)
    ensures
        text::views(r@) == registry_lines(text::lines(out@), text::lines(out@).len() as int),
{
    let lines = text::lines_of(out);
    let ghost lv = text::views(lines@);
    let mut found: Vec<String> = Vec::new();
    let mut i: usize = 0;
    assert(text::views(found@) =~= Seq::empty());
    while i < lines.len()
        invariant
            i <= lines.len(),
            lv == text::views(lines@),
            text::views(found@) == registry_lines(lv, i as int),
        decreases lines.len() - i,
    {
        assert(lv[i as int] == lines@[i as int]@);
        if let Some(base) = value_in(lines[i].as_str()) {
            let ghost before = text::views(found@);
            let bin = path::join(base.as_str(), "bin");
            let one = path::join(bin.as_str(), "svn.exe");
            let two = path::join(base.as_str(), "svn.exe");
            found.push(one);
            found.push(two);
            assert(text::views(found@) =~= before + seq![one@, two@]);
        }
        i += 1;
    }
    found
}

/// The known places, and behind them those that the registry names, each of these once.
pub fn with_registry(known: Vec<String>, named: &Vec<String>) -> (r: Vec<String>)
    ensures
        text::views(r@) == text::views(known@) + distinct(text::views(named@)),
{
    let ghost nv = text::views(named@);
    let ghost none: Seq<Seq<char>> = Seq::empty();
    let mut found = Places { list: Vec::new(), spelled: Vec::new() };
    let mut i: usize = 0;
    assert(text::views(found.list@) =~= none);
    assert(nv.take(0) =~= none);
    while i < named.len()
        invariant
            i <= named.len(),
            found.wf(),
            nv == text::views(named@),
            none == Seq::<Seq<char>>::empty(),
            text::views(found.list@) == with_places(none, nv.take(i as int)),
        decreases named.len() - i,
    {
        proof {
            assert(nv.take(i + 1) =~= nv.take(i as int) + seq![nv[i as int]]);
            lemma_with_places_twice(none, nv.take(i as int), seq![nv[i as int]]);
        }
        found.add(named[i].clone());
        i += 1;
    }
    assert(nv.take(i as int) =~= nv);
    let mut r = known;
    let ghost kv = text::views(r@);
    let ghost fv = text::views(found.list@);
    let mut k: usize = 0;
    assert(kv + fv.take(0) =~= kv);
    while k < found.list.len()
        invariant
            k <= found.list.len(),
            fv == text::views(found.list@),
            text::views(r@) == kv + fv.take(k as int),
        decreases found.list.len() - k,
    {
        let ghost before = r@;
        r.push(found.list[k].clone());
        assert(text::views(r@) =~= text::views(before).push(fv[k as int]));
        k += 1;
        assert(text::views(r@) =~= kv + fv.take(k as int));
    }
    assert(fv.take(k as int) =~= fv);
    r
}

/// The keys of the registry to ask.
pub fn registry_keys() -> (r: [&'static str; 3])
    ensures
        r@[0]@ == "HKLM\\SOFTWARE\\TortoiseSVN"@,
        r@[1]@ == "HKLM\\SOFTWARE\\WOW6432Node\\TortoiseSVN"@,
        r@[2]@ == "HKCU\\SOFTWARE\\TortoiseSVN"@,
{
    [
        "HKLM\\SOFTWARE\\TortoiseSVN",
        "HKLM\\SOFTWARE\\WOW6432Node\\TortoiseSVN",
        "HKCU\\SOFTWARE\\TortoiseSVN",
    ]
}

// ---------------------------------------------------------------- a shallow scan

/// A name that is never looked into, in small letters.
pub open spec fn is_skipped(name: Seq<char>) -> bool {
    ||| text::begins(name, "windows"@)
    ||| text::begins(name, "$recycle.bin"@)
    ||| text::begins(name, "system volume information"@)
    ||| text::begins(name, "perflogs"@)
    ||| text::begins(name, "recovery"@)
    ||| text::begins(name, "users"@)
    ||| text::begins(name, "appdata"@)
    ||| text::begins(name, "programdata"@)
    ||| text::begins(name, "temp"@)
}

/// Whether a name, given in small letters, is never looked into.
pub fn skips(name: &str) -> (r: bool)
    ensures
        r == is_skipped(name@),
{
    text::has_prefix(name, "windows") || text::has_prefix(name, "$recycle.bin") || text::has_prefix(
        name,
        "system volume information",
    ) || text::has_prefix(name, "perflogs") || text::has_prefix(name, "recovery")
        || text::has_prefix(name, "users") || text::has_prefix(name, "appdata") || text::has_prefix(
        name,
        "programdata",
    ) || text::has_prefix(name, "temp")
}

/// What is in a directory.
#[derive(Debug)]
pub struct Found {
    pub name: String,
    pub path: String,
    pub is_dir: bool,
}

/// What a scan still has to do.
#[derive(Debug)]
pub enum Job {
    /// Look into a directory, so many levels deep.
    Dir(String, usize),
    /// Decide on something in a directory that is looked into so many levels deep. The name is in
    /// small letters.
    Item { name: String, path: String, is_dir: bool, depth: usize },
}

/// The view of a `Job`.
pub enum JobView {
    Dir(Seq<char>, usize),
    Item { name: Seq<char>, path: Seq<char>, is_dir: bool, depth: usize },
}

impl View for Job {
    type V = JobView;

    open spec fn view(&self) -> JobView {
        match *self {
            Job::Dir(path, depth) => JobView::Dir(path@, depth),
            Job::Item { name, path, is_dir, depth } => JobView::Item {
                name: name@,
                path: path@,
                is_dir,
                depth,
            },
        }
    }
}

/// The views of jobs.
pub open spec fn job_views(v: Seq<Job>) -> Seq<JobView> {
    Seq::new(v.len(), |i: int| v[i]@)
}

/// What a scan asks for.
#[derive(Debug)]
pub enum Ask {
    /// What is in this directory, which is looked into so many levels deep.
    List(String, usize),
    /// Whether this is a file.
    Probe(String),
    /// Nothing more.
    Done,
}

/// The view of an `Ask`.
pub enum AskView {
    List(Seq<char>, usize),
    Probe(Seq<char>),
    Done,
}

impl View for Ask {
    type V = AskView;

    open spec fn view(&self) -> AskView {
        match *self {
            Ask::List(dir, depth) => AskView::List(dir@, depth),
            Ask::Probe(file) => AskView::Probe(file@),
            Ask::Done => AskView::Done,
        }
    }
}

/// What a scan asks for next, and what it then still has to do. The last job comes first. A scan
/// that has found enough looks into nothing more, and one that has taken too long ends.
pub open spec fn scan_step(todo: Seq<JobView>, hits: int, late: bool) -> (AskView, Seq<JobView>)
    decreases todo.len(),
{
    if todo.len() == 0 {
        (AskView::Done, Seq::empty())
    } else {
        let rest = todo.drop_last();
        match todo.last() {
            JobView::Dir(dir, depth) => if depth == 0 || hits >= 24 || late {
                scan_step(rest, hits, late)
            } else {
                (AskView::List(dir, depth), rest)
            },
            JobView::Item { name, path, is_dir, depth } => if late {
                (AskView::Done, Seq::empty())
            } else if is_skipped(name) || !is_dir || depth == 0 {
                scan_step(rest, hits, late)
            } else if text::occurs(name, "svn"@) {
                (
                    AskView::Probe(path::joined(path::joined(path, "bin"@), "svn.exe"@)),
                    rest.push(JobView::Dir(path, (depth - 1) as usize)),
                )
            } else if depth == 1 || hits >= 24 {
                scan_step(rest, hits, late)
            } else {
                (AskView::List(path, (depth - 1) as usize), rest)
            },
        }
    }
}

/// A scan of the drives for clients.
#[derive(Debug)]
pub struct Scan {
    pub todo: Vec<Job>,
    pub hits: Vec<String>,
}

/// The drives to scan, the first of them first.
pub open spec fn drive_jobs(drives: Seq<Seq<char>>) -> Seq<JobView> {
    Seq::new(drives.len(), |i: int| JobView::Dir(drives[drives.len() - 1 - i], 3))
}

/// What was found in a directory, the first of it first.
pub open spec fn item_jobs(items: Seq<Found>, depth: usize) -> Seq<JobView> {
    Seq::new(
        items.len(),
        |i: int|
            JobView::Item {
                name: text::lowercase(items[items.len() - 1 - i].name@),
                path: items[items.len() - 1 - i].path@,
                is_dir: items[items.len() - 1 - i].is_dir,
                depth,
            },
    )
}

impl Scan {
    /// A scan of the drives, three levels deep.
    pub fn new(drives: &Vec<String>) -> (r: Scan)
        ensures
            job_views(r.todo@) == drive_jobs(text::views(drives@)),
            r.hits@.len() == 0,
    {
        let ghost dv = text::views(drives@);
        let mut todo: Vec<Job> = Vec::new();
        let mut i: usize = drives.len();
        while i > 0
            invariant
                i <= drives.len(),
                dv == text::views(drives@),
                todo@.len() == drives@.len() - i,
                forall|j: int|
                    0 <= j < todo@.len() ==> (#[trigger] todo@[j])@ == drive_jobs(dv)[j],
            decreases i,
        {
            i -= 1;
            assert(dv[i as int] == drives@[i as int]@);
            todo.push(Job::Dir(drives[i].clone(), 3));
        }
        assert(job_views(todo@) =~= drive_jobs(dv));
        Scan { todo, hits: Vec::new() }
    }

    /// What the scan asks for next. `late` tells that it has taken more than six seconds.
    pub fn next(&mut self, late: bool) -> (r: Ask)
        ensures
            (r@, job_views(final(self).todo@)) == scan_step(
                job_views(old(self).todo@),
                old(self).hits@.len() as int,
                late,
            ),
            final(self).hits == old(self).hits,
    {
        let ghost hits = self.hits;
        let ghost start = scan_step(job_views(self.todo@), hits@.len() as int, late);
        let ghost first = *self;
        loop
            invariant
                self.hits == hits,
                first == *old(self),
                start == scan_step(job_views(first.todo@), hits@.len() as int, late),
                start == scan_step(job_views(self.todo@), hits@.len() as int, late),
                first.hits == hits,
            decreases self.todo@.len(),
        {
            let ghost before = self.todo@;
            match self.todo.pop() {
                None => {
                    assert(job_views(self.todo@) =~= Seq::empty());
                    return Ask::Done;
                },
                Some(job) => {
                    assert(job_views(before).drop_last() =~= job_views(self.todo@));
                    assert(job_views(before).last() == job@);
                    match job {
                        Job::Dir(dir, depth) => {
                            if !(depth == 0 || self.hits.len() >= 24 || late) {
                                return Ask::List(dir, depth);
                            }
                        },
                        Job::Item { name, path: at, is_dir, depth } => {
                            if late {
                                self.todo = Vec::new();
                                assert(job_views(self.todo@) =~= Seq::empty());
                                return Ask::Done;
                            }
                            if !(skips(name.as_str()) || !is_dir || depth == 0) {
                                if text::contains(name.as_str(), "svn") {
                                    let bin = path::join(at.as_str(), "bin");
                                    let file = path::join(bin.as_str(), "svn.exe");
                                    let ghost rest = self.todo@;
                                    let below = Job::Dir(at, depth - 1);
                                    self.todo.push(below);
                                    assert(job_views(self.todo@) =~= job_views(rest).push(below@));
                                    return Ask::Probe(file);
                                }
                                if !(depth == 1 || self.hits.len() >= 24) {
                                    return Ask::List(at, depth - 1);
                                }
                            }
                        },
                    }
                },
            }
        }
    }

    /// Takes in what is in a directory that is looked into `depth` levels deep.
    pub fn listed(&mut self, items: &Vec<Found>, depth: usize)
        ensures
            job_views(final(self).todo@) == job_views(old(self).todo@) + item_jobs(items@, depth),
            final(self).hits == old(self).hits,
    {
        let ghost start = job_views(self.todo@);
        let ghost hits = self.hits;
        let mut i: usize = items.len();
        assert(start + item_jobs(items@, depth).take(0) =~= start);
        while i > 0
            invariant
                i <= items.len(),
                self.hits == hits,
                job_views(self.todo@) == start + item_jobs(items@, depth).take(items@.len() - i),
            decreases i,
        {
            i -= 1;
            let job = Job::Item {
                name: text::lowered(items[i].name.as_str()),
                path: items[i].path.clone(),
                is_dir: items[i].is_dir,
                depth,
            };
            let ghost before = self.todo@;
            self.todo.push(job);
            assert(job_views(self.todo@) =~= job_views(before).push(job@));
            assert(item_jobs(items@, depth).take(items@.len() - i) =~= item_jobs(
                items@,
                depth,
            ).take(items@.len() - i - 1).push(job@));
            assert(job_views(self.todo@) =~= start + item_jobs(items@, depth).take(
                items@.len() - i,
            ));
        }
        assert(item_jobs(items@, depth).take(items@.len() as int) =~= item_jobs(items@, depth));
    }

    /// Takes in a client that was found.
    pub fn hit(&mut self, file: String)
        ensures
            text::views(final(self).hits@) == with_place(text::views(old(self).hits@), file@),
            final(self).todo == old(self).todo,
    {
        let ghost lv = text::views(self.hits@);
        let key = path::spelling(file.as_str());
        let mut i: usize = 0;
        while i < self.hits.len()
            invariant
                i <= self.hits.len(),
                lv == text::views(self.hits@),
                self.todo == old(self).todo,
                key@ == path::spelled(file@),
                forall|j: int|
                    0 <= j < i ==> path::spelled(#[trigger] lv[j]) != path::spelled(file@),
            decreases self.hits.len() - i,
        {
            assert(lv[i as int] == self.hits@[i as int]@);
            let have = path::spelling(self.hits[i].as_str());
            if text::same(have.as_str(), key.as_str()) {
                return;
            }
            i += 1;
        }
        self.hits.push(file);
        assert(text::views(self.hits@) =~= lv.push(file@));
    }
}

/// The roots that drives can have.
pub fn drive_roots() -> (r: Vec<String>)
    ensures
        r@.len() == 24,
        forall|i: int|
            0 <= i < 24 ==> (#[trigger] r@[i])@ == seq![(67 + i) as char, ':', '\\'],
{
    let mut r: Vec<String> = Vec::new();
    let mut c: u8 = 67;
    while c < 91
        invariant
            67 <= c <= 91,
            r@.len() == c - 67,
            forall|i: int|
                0 <= i < c - 67 ==> (#[trigger] r@[i])@ == seq![(67 + i) as char, ':', '\\'],
        decreases 91 - c,
    {
        let mut t = String::new();
        t.push(c as char);
        t.push(':');
        t.push('\\');
        assert(t@ =~= seq![c as char, ':', '\\']);
        r.push(t);
        c += 1;
    }
    r
}

// ---------------------------------------------------------------- settling for one

/// How deep a place lies.
pub open spec fn depth_of(p: Seq<char>) -> int {
    path::part_count(p)
}

/// What hits are ordered by: how deep they lie.
pub open spec fn depth_keys(hits: Seq<Seq<char>>) -> Seq<order::KeyView> {
    Seq::new(
        hits.len(),
        |i: int|
            order::KeyView {
                rank: if depth_of(hits[i]) <= i64::MAX {
                    depth_of(hits[i])
                } else {
                    i64::MAX as int
                },
                first: Seq::empty(),
                second: Seq::empty(),
            },
    )
}

/// Hits with the shallow ones first.
pub open spec fn by_depth(hits: Seq<Seq<char>>) -> Seq<Seq<char>> {
    let perm = choose|perm: Seq<int>| order::stable_order(depth_keys(hits), perm);
    Seq::new(hits.len(), |i: int| hits[perm[i]])
}

/// The places to try: the known ones where there are any, else what a scan found, the shallow
/// ones first.
pub fn candidates(known: Vec<String>, hits: &Vec<String>) -> (r: Vec<String>)
    ensures
        text::views(r@) == (if known@.len() > 0 {
            text::views(known@)
        } else {
            distinct(by_depth(text::views(hits@)))
        }),
{
    if known.len() > 0 {
        return known;
    }
    let ghost hv = text::views(hits@);
    let mut keys: Vec<order::Key> = Vec::new();
    let mut i: usize = 0;
    while i < hits.len()
        invariant
            i <= hits.len(),
            hv == text::views(hits@),
            keys@.len() == i,
            forall|j: int| 0 <= j < i ==> (#[trigger] keys@[j])@ == depth_keys(hv)[j],
        decreases hits.len() - i,
    {
        assert(hv[i as int] == hits@[i as int]@);
        let n = path::parts_in(hits[i].as_str());
        let rank: i64 = if n <= i64::MAX as u128 {
            n as i64
        } else {
            i64::MAX
        };
        let key = order::Key { rank, first: String::new(), second: String::new() };
        assert(key@.first =~= Seq::empty());
        assert(key@.second =~= Seq::empty());
        keys.push(key);
        i += 1;
    }
    assert(order::key_views(keys@) =~= depth_keys(hv));
    let perm = order::order(&keys);
    proof {
        let chosen = choose|p: Seq<int>| order::stable_order(depth_keys(hv), p);
        order::lemma_stable_order_unique(depth_keys(hv), chosen, order::places(perm@));
    }
    let ghost sorted = by_depth(hv);
    let mut found = Places { list: Vec::new(), spelled: Vec::new() };
    let mut k: usize = 0;
    assert(text::views(found.list@) =~= Seq::empty());
    assert(sorted.take(0) =~= Seq::empty());
    while k < perm.len()
        invariant
            k <= perm.len(),
            perm@.len() == hits@.len(),
            hv == text::views(hits@),
            sorted.len() == hits@.len(),
            forall|j: int|
                0 <= j < perm@.len() ==> (#[trigger] perm@[j]) < hits@.len() && sorted[j]
                    == hits@[perm@[j] as int]@,
            found.wf(),
            text::views(found.list@) == distinct(sorted.take(k as int)),
        decreases perm.len() - k,
    {
        let hit = hits[perm[k]].clone();
        proof {
            assert(sorted.take(k + 1) =~= sorted.take(k as int) + seq![hit@]);
            lemma_with_places_twice(Seq::empty(), sorted.take(k as int), seq![hit@]);
        }
        found.add(hit);
        k += 1;
    }
    assert(sorted.take(k as int) =~= sorted);
    found.list
}

/// How far the search for a client that works has come.
#[derive(Debug)]
pub enum Detected {
    /// The client at this place works and is of this version.
    Found(String, String),
    /// The client at this position has to be asked for its version.
    Ask(usize),
    /// No client works.
    Missing,
}

/// The position of the first answer that holds a version, or the number of answers.
pub open spec fn first_answer(answers: Seq<Option<String>>) -> int
    decreases answers.len(),
{
    if answers.len() == 0 || answers[0] is Some {
        0
    } else {
        1 + first_answer(answers.drop_first())
    }
}

/// How far the search for a client that works has come, with the answers of the first places.
pub fn detect(list: &Vec<String>, answers: &Vec<Option<String>>) -> (r: Detected)
    requires
        answers@.len() <= list@.len(),
    ensures
        ({
            let i = first_answer(answers@);
            if i < answers@.len() {
                r matches Detected::Found(exe, version) && exe@ == list@[i]@ && (
                answers@[i] matches Some(v) && version@ == v@)
            } else if answers@.len() < list@.len() {
                r matches Detected::Ask(k) && k == answers@.len()
            } else {
                r is Missing
            }
        }),
{
    let mut i: usize = 0;
    let ghost all = answers@;
    assert(all.subrange(0, all.len() as int) =~= all);
    while i < answers.len()
        invariant
            i <= answers.len(),
            answers@.len() <= list@.len(),
            all == answers@,
            first_answer(all) == i + first_answer(all.subrange(i as int, all.len() as int)),
        decreases answers.len() - i,
    {
        let ghost rest = all.subrange(i as int, all.len() as int);
        assert(rest[0] == all[i as int]);
        assert(rest.drop_first() =~= all.subrange(i + 1, all.len() as int));
        if let Some(v) = &answers[i] {
            return Detected::Found(list[i].clone(), v.clone());
        }
        i += 1;
    }
    if answers.len() < list.len() {
        Detected::Ask(answers.len())
    } else {
        Detected::Missing
    }
}

// ---------------------------------------------------------------- laws

/// Places that are added come behind those that are there, in their order, and nothing else comes.
pub proof fn law_places_keep_their_order(list: Seq<Seq<char>>, more: Seq<Seq<char>>)
    ensures
        list.len() <= with_places(list, more).len(),
        with_places(list, more).take(list.len() as int) == list,
        forall|k: int|
            list.len() <= k < with_places(list, more).len() ==> more.contains(
                #[trigger] with_places(list, more)[k],
            ),
    decreases more.len(),
{
    let all = with_places(list, more);
    if more.len() == 0 {
        assert(all.take(list.len() as int) =~= list);
    } else {
        let fewer = more.drop_last();
        law_places_keep_their_order(list, fewer);
        let before = with_places(list, fewer);
        assert(all.take(list.len() as int) =~= before.take(list.len() as int));
        assert forall|k: int| list.len() <= k < all.len() implies more.contains(
            #[trigger] all[k],
        ) by {
            if k < before.len() {
                assert(all[k] == before[k]);
                let j = choose|j: int| 0 <= j < fewer.len() && fewer[j] == before[k];
                assert(more[j] == all[k]);
            } else {
                assert(more[more.len() - 1] == all[k]);
            }
        }
    }
}

/// A scan looks into a directory only while it has levels left, has found less than 24 clients and
/// is in time. Once it has taken too long it asks for nothing.
pub proof fn law_scans_are_limited(todo: Seq<JobView>, hits: int, late: bool)
    ensures
        late ==> scan_step(todo, hits, late).0 is Done,
        scan_step(todo, hits, late).0 matches AskView::List(dir, depth) ==> depth > 0 && hits < 24,
        scan_step(todo, hits, late).0 matches AskView::List(dir, depth) ==> exists|k: int|
            0 <= k < todo.len() && (#[trigger] todo[k] == JobView::Dir(dir, depth) || (
            todo[k] matches JobView::Item { name, path, is_dir, depth: d } && path == dir && is_dir
                && !is_skipped(name) && d == depth + 1)),
        scan_step(todo, hits, late).1.len() <= todo.len(),
    decreases todo.len(),
{
    if todo.len() > 0 {
        let rest = todo.drop_last();
        law_scans_are_limited(rest, hits, late);
        let n = todo.len() - 1;
        if let AskView::List(dir, depth) = scan_step(todo, hits, late).0 {
            if scan_step(todo, hits, late) == scan_step(rest, hits, late) && exists|k: int|
                0 <= k < rest.len() && (#[trigger] rest[k] == JobView::Dir(dir, depth) || (
                rest[k] matches JobView::Item { name, path, is_dir, depth: d } && path == dir
                    && is_dir && !is_skipped(name) && d == depth + 1)) {
                let k = choose|k: int|
                    0 <= k < rest.len() && (#[trigger] rest[k] == JobView::Dir(dir, depth) || (
                    rest[k] matches JobView::Item { name, path, is_dir, depth: d } && path == dir
                        && is_dir && !is_skipped(name) && d == depth + 1));
                assert(todo[k] == rest[k]);
            } else {
                assert(todo[n] == todo.last());
            }
        }
    }
}

/// A directory whose name speaks of the client is asked for the client in its `bin`, and is looked
/// into afterwards one level less deep. Names that are never looked into, files and directories
/// without levels left are passed over.
pub proof fn law_scans_take_the_last_job(
    rest: Seq<JobView>,
    name: Seq<char>,
    at: Seq<char>,
    is_dir: bool,
    depth: usize,
    hits: int,
)
    ensures
        ({
            let todo = rest.push(JobView::Item { name, path: at, is_dir, depth });
            &&& is_dir && depth > 0 && !is_skipped(name) && crate::commit::stands_in(name, "svn"@)
                ==> scan_step(todo, hits, false) == (
                AskView::Probe(path::joined(path::joined(at, "bin"@), "svn.exe"@)),
                rest.push(JobView::Dir(at, (depth - 1) as usize)),
            )
            &&& is_skipped(name) || !is_dir || depth == 0 ==> scan_step(todo, hits, false)
                == scan_step(rest, hits, false)
            &&& is_dir && depth > 1 && hits < 24 && !is_skipped(name)
                && !crate::commit::stands_in(name, "svn"@) ==> scan_step(todo, hits, false) == (
                AskView::List(at, (depth - 1) as usize),
                rest,
            )
        }),
{
    let todo = rest.push(JobView::Item { name, path: at, is_dir, depth });
    assert(todo.drop_last() =~= rest);
    crate::commit::lemma_stands_in(name, "svn"@);
}

/// Hits are tried shallow ones first; of those that lie equally deep, the one that was found first.
/// None is lost and none comes twice.
pub proof fn law_shallow_hits_come_first(hits: Seq<Seq<char>>) -> (at: Seq<int>)
    requires
        forall|i: int| 0 <= i < hits.len() ==> depth_of(#[trigger] hits[i]) <= i64::MAX,
    ensures
        at.len() == hits.len() && by_depth(hits).len() == hits.len(),
        at.no_duplicates(),
        forall|k: int|
            0 <= k < hits.len() ==> 0 <= at[k] < hits.len() && #[trigger] by_depth(hits)[k]
                == hits[at[k]],
        forall|j: int, k: int|
            0 <= j < k < hits.len() ==> path::part_count(#[trigger] by_depth(hits)[j])
                < path::part_count(#[trigger] by_depth(hits)[k]) || path::part_count(
                by_depth(hits)[j],
            ) == path::part_count(by_depth(hits)[k]) && at[j] < at[k],
{
    let keys = depth_keys(hits);
    order::lemma_order_exists(keys);
    let perm = choose|perm: Seq<int>| order::stable_order(keys, perm);
    let out = by_depth(hits);
    assert forall|j: int, k: int| 0 <= j < k < perm.len() implies perm[j] != perm[k] by {
        order::lemma_places_differ(keys, perm, j, k);
    }
    assert forall|k: int| 0 <= k < hits.len() implies 0 <= perm[k] < hits.len()
        && #[trigger] out[k] == hits[perm[k]] by {
        assert(0 <= perm[k] < keys.len());
    }
    assert forall|j: int, k: int| 0 <= j < k < hits.len() implies path::part_count(
        #[trigger] out[j],
    ) < path::part_count(#[trigger] out[k]) || path::part_count(out[j]) == path::part_count(out[k])
        && perm[j] < perm[k] by {
        order::lemma_places_differ(keys, perm, j, k);
        assert(order::in_order(keys, perm[j], perm[k]));
        assert(0 <= perm[j] < keys.len() && 0 <= perm[k] < keys.len());
        assert(depth_of(hits[perm[j]]) <= i64::MAX && depth_of(hits[perm[k]]) <= i64::MAX);
    }
    perm
}

/// The client that is used is the first one that answers.
pub proof fn law_the_first_answer_counts(answers: Seq<Option<String>>, i: int)
    ensures
        0 <= i < answers.len() && answers[i] is Some && (forall|j: int|
            0 <= j < i ==> (#[trigger] answers[j]) is None) ==> first_answer(answers) == i,
        (forall|j: int| 0 <= j < answers.len() ==> (#[trigger] answers[j]) is None)
            ==> first_answer(answers) == answers.len(),
    decreases answers.len(),
{
    if answers.len() > 0 && answers[0] is None {
        let rest = answers.drop_first();
        law_the_first_answer_counts(rest, i - 1);
        if forall|j: int| 0 <= j < i ==> (#[trigger] answers[j]) is None {
            assert forall|j: int| 0 <= j < i - 1 && j < rest.len() implies (
            #[trigger] rest[j]) is None by {
                assert(rest[j] == answers[j + 1]);
            }
        }
        if forall|j: int| 0 <= j < answers.len() ==> (#[trigger] answers[j]) is None {
            assert forall|j: int| 0 <= j < rest.len() implies (#[trigger] rest[j]) is None by {
                assert(rest[j] == answers[j + 1]);
            }
        }
    }
}

/// A line of the registry names a place where something with a colon stands behind the kind of the
/// value.
pub proof fn law_registry_lines_name_places(front: Seq<char>, value: Seq<char>)
    requires
        forall|i: int| 0 <= i < front.len() ==> #[trigger] front[i] != 'R',
        value.len() > 0,
        !text::is_space(value[0]),
        !text::is_space(value.last()),
        value.contains(':'),
    ensures
        registry_value(front + "REG_SZ"@ + seq![' '] + value) == Some(value),
{
    reveal_strlit("REG_SZ");
    let line = front + "REG_SZ"@ + seq![' '] + value;
    let n = front.len() as int;
    assert(line.subrange(n, n + 6) =~= "REG_SZ"@);
    assert(text::occurs_at(line, "REG_SZ"@, n));
    text::lemma_first_at(line, "REG_SZ"@, 0);
    let i = text::first_at(line, "REG_SZ"@, 0);
    if 0 <= i < n {
        assert(line.subrange(i, i + 6)[0] == 'R');
        assert(line[i] == front[i]);
    }
    assert(i == n);
    let rest = text::after(line, n + 6);
    assert(rest =~= seq![' '] + value);
    assert(rest.subrange(1, rest.len() as int) =~= value);
    assert(text::trim_start(value) == value);
    assert(text::trim_start(rest) == value);
    assert(text::trim_end(value) == value);
    let k = choose|k: int| 0 <= k < value.len() && value[k] == ':';
    assert(value.subrange(k, k + 1) =~= seq![':']);
    assert(text::occurs_at(value, seq![':'], k));
}

} // verus!
