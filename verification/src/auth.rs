//! Who is logged in: the credentials that the client keeps, and which of them belong to a server.

use vstd::prelude::*;
use crate::text;

verus! {

/// A name that the client keeps, with the realm that it is for.
#[derive(Debug)]
pub struct Credential {
    pub realm: String,
    pub user: String,
}

/// The view of a `Credential`.
pub struct CredentialView {
    pub realm: Seq<char>,
    pub user: Seq<char>,
}

impl View for Credential {
    type V = CredentialView;

    open spec fn view(&self) -> CredentialView {
        CredentialView { realm: self.realm@, user: self.user@ }
    }
}

/// The views of credentials.
pub open spec fn credential_views(v: Seq<Credential>) -> Seq<CredentialView> {
    Seq::new(v.len(), |i: int| v[i]@)
}

/// What was read of a list of credentials so far.
pub struct Reading {
    pub kind: Seq<char>,
    pub realm: Seq<char>,
    pub found: Seq<CredentialView>,
}

/// What a line says behind `prefix`, without white space around it.
pub open spec fn value_of(line: Seq<char>, prefix: Seq<char>) -> Option<Seq<char>> {
    if text::begins(text::trim(line), prefix) {
        Some(text::trim(text::after(text::trim(line), prefix.len() as int)))
    } else {
        None
    }
}

/// What is known after one more line. Only names of simple credentials count.
pub open spec fn reading_on(at: Reading, line: Seq<char>) -> Reading {
    match value_of(line, "Credential kind:"@) {
        Some(kind) => Reading { kind, realm: Seq::empty(), found: at.found },
        None => match value_of(line, "Authentication realm:"@) {
            Some(realm) => Reading { realm, ..at },
            None => match value_of(line, "Username:"@) {
                Some(user) => if user.len() > 0 && at.kind == "svn.simple"@ {
                    Reading {
                        found: at.found.push(CredentialView { realm: at.realm, user }),
                        ..at
                    }
                } else {
                    at
                },
                None => at,
            },
        },
    }
}

/// What is known after the first `n` lines.
pub open spec fn reading(lines: Seq<Seq<char>>, n: int) -> Reading
    decreases n,
{
    if n <= 0 {
        Reading { kind: Seq::empty(), realm: Seq::empty(), found: Seq::empty() }
    } else {
        reading_on(reading(lines, n - 1), lines[n - 1])
    }
}

/// The credentials in what `svn auth` writes, in order.
pub open spec fn credentials_in(out: Seq<char>) -> Seq<CredentialView> {
    reading(text::lines(out), text::lines(out).len() as int).found
}

fn value(line: &str, prefix: &str) -> (r: Option<String>)
    ensures
        match r {
            Some(t) => value_of(line@, prefix@) == Some(t@),
            None => value_of(line@, prefix@) is None,
        },
{
    let t = text::trimmed(line);
    match text::without_prefix(t.as_str(), prefix) {
        Some(rest) => Some(text::trimmed(rest.as_str())),
        None => None,
    }
}

/// The credentials in what `svn auth` writes, in order.
pub fn credentials(out: &str) -> (r: Vec<Credential>)
    ensures
        credential_views(r@) == credentials_in(out@),
{
    let lines = text::lines_of(out);
    let ghost lv = text::views(lines@);
    let mut kind: String = String::new();
    let mut realm: String = String::new();
    let mut found: Vec<Credential> = Vec::new();
    let mut i: usize = 0;
    assert(kind@ =~= Seq::empty());
    assert(realm@ =~= Seq::empty());
    assert(credential_views(found@) =~= Seq::empty());
    while i < lines.len()
        invariant
            i <= lines.len(),
            lv == text::views(lines@),
            kind@ == reading(lv, i as int).kind,
            realm@ == reading(lv, i as int).realm,
            credential_views(found@) == reading(lv, i as int).found,
        decreases lines.len() - i,
    {
        assert(lv[i as int] == lines@[i as int]@);
        let line = lines[i].as_str();
        if let Some(v) = value(line, "Credential kind:") {
            kind = v;
            realm = String::new();
            assert(realm@ =~= Seq::empty());
        } else if let Some(v) = value(line, "Authentication realm:") {
            realm = v;
        } else if let Some(user) = value(line, "Username:") {
            if !user.as_str().is_empty() && text::same(kind.as_str(), "svn.simple") {
                let c = Credential { realm: realm.clone(), user };
                let ghost before = found@;
                found.push(c);
                assert(credential_views(found@) =~= credential_views(before).push(c@));
            }
        }
        i += 1;
    }
    found
}

/// The server in what stands between `//` and the path of an address: without the name before an
/// `@` and without the port. In brackets an address may hold colons.
pub open spec fn server_in(authority: Seq<char>) -> Seq<char> {
    let place = text::after_last(authority, '@');
    if place.len() > 0 && place[0] == '[' {
        text::up_to(text::after(place, 1), ']')
    } else {
        text::up_to(place, ':')
    }
}

/// What stands behind the first `//`, or nothing.
pub open spec fn behind_slashes(s: Seq<char>) -> Seq<char> {
    let i = text::first_at(s, "//"@, 0);
    if i < 0 {
        Seq::empty()
    } else {
        text::after(s, i + 2)
    }
}

/// The server in an address.
pub open spec fn host_in(url: Seq<char>) -> Seq<char> {
    server_in(text::up_to(behind_slashes(url), '/'))
}

/// The server in a realm, which names its address first: `<https://host:443> Some Server`.
pub open spec fn realm_host(realm: Seq<char>) -> Seq<char> {
    server_in(text::up_to(text::up_to(behind_slashes(realm), '>'), '/'))
}

fn server_of(authority: &str) -> (r: String)
    ensures
        r@ == server_in(authority@),
{
    let place = text::behind_last(authority, '@');
    let s = text::chars_of(place.as_str());
    if s.len() > 0 && s[0] == '[' {
        let inner = text::string_from(&s, 1, s.len());
        text::before_char(inner.as_str(), ']')
    } else {
        text::before_char(place.as_str(), ':')
    }
}

fn after_slashes(t: &str) -> (r: String)
    ensures
        r@ == behind_slashes(t@),
{
    let s = text::chars_of(t);
    let p = text::chars_of("//");
    proof {
        reveal_strlit("//");
    }
    let n = s.len();
    match text::find_from(&s, &p, 0) {
        Some(i) => {
            assert(i + 2 <= n);
            text::string_from(&s, i + 2, n)
        },
        None => String::new(),
    }
}

/// The server in an address.
pub fn host_of(url: &str) -> (r: String)
    ensures
        r@ == host_in(url@),
{
    let rest = after_slashes(url);
    let front = text::before_char(rest.as_str(), '/');
    server_of(front.as_str())
}

/// The server in a realm.
pub fn host_of_realm(realm: &str) -> (r: String)
    ensures
        r@ == realm_host(realm@),
{
    let rest = after_slashes(realm);
    let front = text::before_char(rest.as_str(), '>');
    let front = text::before_char(front.as_str(), '/');
    server_of(front.as_str())
}

/// The first name whose realm is that of the server `host`, from position `from` on.
pub open spec fn user_at(list: Seq<CredentialView>, host: Seq<char>, from: int) -> Option<Seq<char>>
    decreases list.len() - from,
{
    if from >= list.len() || from < 0 {
        None
    } else if realm_host(list[from].realm) == host {
        Some(list[from].user)
    } else {
        user_at(list, host, from + 1)
    }
}

/// The name to go by: the first one for the server where that is known, else the first one at all.
pub open spec fn user_for(list: Seq<CredentialView>, host: Seq<char>) -> Option<Seq<char>> {
    if host.len() > 0 && user_at(list, host, 0) is Some {
        user_at(list, host, 0)
    } else if list.len() > 0 {
        Some(list[0].user)
    } else {
        None
    }
}

/// The name to go by on `host`, all realms and the host given in small letters.
pub fn choose_user(list: &Vec<Credential>, host: &str) -> (r: Option<String>)
    ensures
        match r {
            Some(t) => user_for(credential_views(list@), host@) == Some(t@),
            None => user_for(credential_views(list@), host@) is None,
        },
{
    let ghost cv = credential_views(list@);
    if !host.is_empty() {
        let mut i: usize = 0;
        while i < list.len()
            invariant
                i <= list.len(),
                host@.len() > 0,
                cv == credential_views(list@),
                user_at(cv, host@, 0) == user_at(cv, host@, i as int),
            decreases list.len() - i,
        {
            assert(cv[i as int] == list@[i as int]@);
            let own = host_of_realm(list[i].realm.as_str());
            if text::same(own.as_str(), host) {
                return Some(list[i].user.clone());
            }
            i += 1;
        }
    }
    if list.len() > 0 {
        assert(cv[0] == list@[0]@);
        Some(list[0].user.clone())
    } else {
        None
    }
}

/// `k` is the first credential for the server `host`.
pub open spec fn first_for(list: Seq<CredentialView>, host: Seq<char>, k: int) -> bool {
    &&& 0 <= k < list.len()
    &&& realm_host(list[k].realm) == host
    &&& forall|i: int| 0 <= i < k ==> realm_host((#[trigger] list[i]).realm) != host
}

proof fn lemma_user_at(list: Seq<CredentialView>, host: Seq<char>, from: int, k: int)
    requires
        0 <= from <= k,
        first_for(list, host, k),
    ensures
        user_at(list, host, from) == Some(list[k].user),
    decreases k - from,
{
    if from < k {
        assert(realm_host(list[from].realm) != host);
        lemma_user_at(list, host, from + 1, k);
    }
}

/// The account on the same server comes first: where there is a credential for the server, the name
/// is that of the first of these, however many for other servers stand before it.
pub proof fn law_the_servers_own_account_comes_first(
    list: Seq<CredentialView>,
    host: Seq<char>,
    k: int,
)
    requires
        host.len() > 0,
        first_for(list, host, k),
    ensures
        user_for(list, host) == Some(list[k].user),
{
    lemma_user_at(list, host, 0, k);
}

/// The credentials with their realms in small letters.
pub open spec fn small_realms(list: Seq<CredentialView>) -> Seq<CredentialView> {
    Seq::new(
        list.len(),
        |i: int|
            CredentialView {
                realm: if list[i].realm.len() == 0 {
                    Seq::empty()
                } else {
                    text::lowercase(list[i].realm)
                },
                user: list[i].user,
            },
    )
}

/// The name that the client logs in with, as the reply of `svn auth` says, on the server of `url`
/// where that is known.
pub open spec fn user_read(run: crate::svn::Run, url: Seq<char>) -> Option<Seq<char>> {
    if run.ok {
        user_for(small_realms(credentials_in(run.out@)), text::lowercase(host_in(url)))
    } else {
        None
    }
}

/// The name that the client logs in with, as the reply of `svn auth` says, on the server of `url`
/// where that is known.
pub fn read_user(run: &crate::svn::Run, url: &str) -> (r: Option<String>)
    ensures
        match r {
            Some(t) => user_read(*run, url@) == Some(t@),
            None => user_read(*run, url@) is None,
        },
{
    if !run.ok {
        return None;
    }
    let list = credentials(run.out.as_str());
    let ghost cv = credential_views(list@);
    let host = host_of(url);
    let host = text::lowered(host.as_str());
    let mut small: Vec<Credential> = Vec::new();
    let mut i: usize = 0;
    while i < list.len()
        invariant
            i <= list.len(),
            cv == credential_views(list@),
            small@.len() == i,
            forall|j: int| 0 <= j < i ==> (#[trigger] small@[j])@ == small_realms(cv)[j],
        decreases list.len() - i,
    {
        assert(cv[i as int] == list@[i as int]@);
        let realm = if list[i].realm.as_str().is_empty() {
            String::new()
        } else {
            text::lowered(list[i].realm.as_str())
        };
        let c = Credential { realm, user: list[i].user.clone() };
        assert(c@.realm =~= small_realms(cv)[i as int].realm);
        small.push(c);
        i += 1;
    }
    assert(credential_views(small@) =~= small_realms(cv));
    choose_user(&small, host.as_str())
}

// ---------------------------------------------------------------- laws

/// `s` holds none of the characters that part an address.
pub open spec fn is_plain(s: Seq<char>) -> bool {
    forall|i: int|
        0 <= i < s.len() ==> #[trigger] s[i] != '/' && s[i] != '@' && s[i] != ':' && s[i] != '['
            && s[i] != '>'
}

/// What may stand before a server: nothing, or a name and an `@`.
pub open spec fn is_login(s: Seq<char>) -> bool {
    s.len() == 0 || s.last() == '@' && forall|i: int|
        0 <= i < s.len() ==> #[trigger] s[i] != '/' && s[i] != '>'
}

/// What may stand behind a server: nothing, or a colon and a port.
pub open spec fn is_port(s: Seq<char>) -> bool {
    s.len() == 0 || s[0] == ':' && forall|i: int|
        0 <= i < s.len() ==> #[trigger] s[i] != '/' && s[i] != '>' && s[i] != '@'
}

proof fn lemma_server(login: Seq<char>, host: Seq<char>, port: Seq<char>)
    requires
        is_login(login),
        is_plain(host),
        is_port(port),
    ensures
        server_in(login + host + port) == host,
{
    let all = login + host + port;
    let place = host + port;
    assert forall|i: int| 0 <= i < place.len() implies #[trigger] place[i] != '@' by {
        if i < host.len() {
            assert(place[i] == host[i]);
        } else {
            assert(place[i] == port[i - host.len()]);
        }
    }
    if login.len() > 0 {
        let name = login.drop_last();
        assert(all =~= name + seq!['@'] + place);
        text::law_after_the_last(name, '@', place);
    } else {
        assert(all =~= place);
        text::law_after_the_last(Seq::empty(), '@', place);
    }
    assert(text::after_last(all, '@') == place);
    if place.len() > 0 {
        if host.len() > 0 {
            assert(place[0] == host[0]);
        } else {
            assert(place[0] == port[0]);
        }
    }
    assert forall|j: int| 0 <= j < host.len() implies #[trigger] place[j] != ':' by {
        assert(place[j] == host[j]);
    }
    if port.len() > 0 {
        assert(place[host.len() as int] == port[0]);
    }
    text::lemma_index_of_is(place, ':', host.len() as int);
    assert(text::up_to(place, ':') =~= host);
}

proof fn lemma_behind_slashes(scheme: Seq<char>, rest: Seq<char>)
    requires
        forall|i: int| 0 <= i < scheme.len() ==> #[trigger] scheme[i] != '/',
    ensures
        behind_slashes(scheme + "//"@ + rest) == rest,
{
    reveal_strlit("//");
    let s = scheme + "//"@ + rest;
    let n = scheme.len() as int;
    assert(s.subrange(n, n + 2) =~= "//"@);
    assert(text::occurs_at(s, "//"@, n));
    text::lemma_first_at(s, "//"@, 0);
    let i = text::first_at(s, "//"@, 0);
    if 0 <= i < n {
        assert(s.subrange(i, i + 2)[0] == '/');
        assert(s[i] == scheme[i]);
    }
    assert(i == n);
    assert(text::after(s, n + 2) =~= rest);
}

/// The server of an address is what stands between the two slashes and the next one, without a name
/// before it and without a port behind it. In a realm the same address stands in angle brackets.
pub proof fn law_servers_are_read(
    scheme: Seq<char>,
    login: Seq<char>,
    host: Seq<char>,
    port: Seq<char>,
    way: Seq<char>,
    title: Seq<char>,
)
    requires
        forall|i: int| 0 <= i < scheme.len() ==> #[trigger] scheme[i] != '/',
        is_login(login),
        is_plain(host),
        is_port(port),
        way.len() > 0 ==> way[0] == '/',
        !way.contains('>'),
    ensures
        host_in(scheme + "//"@ + (login + host + port + way)) == host,
        realm_host(scheme + "//"@ + (login + host + port + way + seq!['>'] + title)) == host,
{
    let place = login + host + port;
    let rest = place + way;
    lemma_behind_slashes(scheme, rest);
    assert(login + host + port + way =~= rest);
    assert forall|j: int| 0 <= j < place.len() implies #[trigger] place[j] != '/' && place[j]
        != '>' by {
        if j < login.len() {
            assert(place[j] == login[j]);
        } else if j < login.len() + host.len() {
            assert(place[j] == host[j - login.len()]);
        } else {
            assert(place[j] == port[j - login.len() - host.len()]);
        }
    }
    let n = place.len() as int;
    assert forall|j: int| 0 <= j < n implies #[trigger] rest[j] != '/' by {
        assert(rest[j] == place[j]);
    }
    if way.len() > 0 {
        assert(rest[n] == way[0]);
    }
    text::lemma_index_of_is(rest, '/', n);
    assert(text::up_to(rest, '/') =~= place);
    lemma_server(login, host, port);
    let titled = rest + seq!['>'] + title;
    lemma_behind_slashes(scheme, titled);
    assert(login + host + port + way + seq!['>'] + title =~= titled);
    assert forall|j: int| 0 <= j < rest.len() implies #[trigger] titled[j] != '>' by {
        assert(titled[j] == rest[j]);
        if j < n {
            assert(rest[j] == place[j]);
        } else {
            assert(rest[j] == way[j - n]);
            assert(way.contains(way[j - n]));
        }
    }
    assert(titled[rest.len() as int] == '>');
    text::lemma_index_of_is(titled, '>', rest.len() as int);
    assert(text::up_to(titled, '>') =~= rest);
}

/// Where no credential is for the server, or none is known, the first one of all gives the name.
pub proof fn law_else_the_first_account_is_used(list: Seq<CredentialView>, host: Seq<char>)
    requires
        host.len() == 0 || forall|i: int|
            0 <= i < list.len() ==> realm_host((#[trigger] list[i]).realm) != host,
    ensures
        list.len() > 0 ==> user_for(list, host) == Some(list[0].user),
        list.len() == 0 ==> user_for(list, host) is None,
{
    if host.len() > 0 {
        lemma_user_nowhere(list, host, 0);
    }
}

proof fn lemma_user_nowhere(list: Seq<CredentialView>, host: Seq<char>, from: int)
    requires
        0 <= from,
        forall|i: int| 0 <= i < list.len() ==> realm_host((#[trigger] list[i]).realm) != host,
    ensures
        user_at(list, host, from) is None,
    decreases list.len() - from,
{
    if from < list.len() {
        assert(realm_host(list[from].realm) != host);
        lemma_user_nowhere(list, host, from + 1);
    }
}

/// The text has no white space at either end.
pub open spec fn is_bare(s: Seq<char>) -> bool {
    s.len() > 0 && !text::is_space(s[0]) && !text::is_space(s.last())
}

proof fn lemma_value(name: Seq<char>, value: Seq<char>)
    requires
        is_bare(name),
        is_bare(value),
    ensures
        value_of(name + seq![' '] + value, name) == Some(value),
{
    let line = name + seq![' '] + value;
    assert(line[0] == name[0] && line.last() == value.last());
    assert(text::trim_start(line) == line);
    assert(text::trim_end(line) == line);
    assert(line.subrange(0, name.len() as int) =~= name);
    let rest = text::after(line, name.len() as int);
    assert(rest =~= seq![' '] + value);
    assert(rest.subrange(1, rest.len() as int) =~= value);
    assert(text::trim_start(value) == value);
    assert(text::trim_start(rest) == value);
    assert(text::trim_end(value) == value);
}

proof fn lemma_no_value(line: Seq<char>, name: Seq<char>)
    requires
        is_bare(line),
        name.len() > 0,
        line[0] != name[0],
    ensures
        value_of(line, name) is None,
{
    assert(text::trim_start(line) == line);
    assert(text::trim_end(line) == line);
    if text::begins(line, name) {
        assert(line.subrange(0, name.len() as int)[0] == name[0]);
    }
}

/// A credential is read from its three lines, its kind, its realm and its name, whatever stands
/// before them. Only simple ones count: one of another kind adds nothing.
pub proof fn law_credentials_are_read(
    lines: Seq<Seq<char>>,
    n: int,
    kind: Seq<char>,
    realm: Seq<char>,
    user: Seq<char>,
)
    requires
        0 <= n && n + 3 <= lines.len(),
        is_bare(kind),
        is_bare(realm),
        is_bare(user),
        lines[n] == "Credential kind:"@ + seq![' '] + kind,
        lines[n + 1] == "Authentication realm:"@ + seq![' '] + realm,
        lines[n + 2] == "Username:"@ + seq![' '] + user,
    ensures
        reading(lines, n + 3).found == if kind == "svn.simple"@ {
            reading(lines, n).found.push(CredentialView { realm, user })
        } else {
            reading(lines, n).found
        },
{
    reveal_strlit("Credential kind:");
    reveal_strlit("Authentication realm:");
    reveal_strlit("Username:");
    lemma_value("Credential kind:"@, kind);
    lemma_value("Authentication realm:"@, realm);
    lemma_value("Username:"@, user);
    assert(lines[n + 1][0] == 'A' && lines[n + 1].last() == realm.last());
    assert(lines[n + 2][0] == 'U' && lines[n + 2].last() == user.last());
    lemma_no_value(lines[n + 1], "Credential kind:"@);
    lemma_no_value(lines[n + 2], "Credential kind:"@);
    lemma_no_value(lines[n + 2], "Authentication realm:"@);
    let a = reading(lines, n);
    let b = reading(lines, n + 1);
    let c = reading(lines, n + 2);
    assert(b == reading_on(a, lines[n]));
    assert(b.kind == kind && b.found == a.found);
    assert(c == reading_on(b, lines[n + 1]));
    assert(c.kind == kind && c.realm == realm && c.found == a.found);
    assert(reading(lines, n + 3) == reading_on(c, lines[n + 2]));
}

/// Whether the name of the server is written in capital or in small letters makes no difference,
/// and without an answer nobody is known.
pub proof fn law_servers_go_by_small_letters(
    run: crate::svn::Run,
    url: Seq<char>,
    other: Seq<char>,
)
    ensures
        text::lowercase(host_in(url)) == text::lowercase(host_in(other)) ==> user_read(run, url)
            == user_read(run, other),
        !run.ok ==> user_read(run, url) is None,
        run.ok && credentials_in(run.out@).len() > 0 ==> user_read(run, url) is Some,
        user_read(run, url) matches Some(name) ==> exists|i: int|
            0 <= i < credentials_in(run.out@).len() && (#[trigger] credentials_in(run.out@)[i]).user
                == name,
{
    let all = credentials_in(run.out@);
    let list = small_realms(all);
    let host = text::lowercase(host_in(url));
    if run.ok && all.len() > 0 {
        lemma_user_is_listed(list, host, 0);
        if let Some(name) = user_read(run, url) {
            if user_at(list, host, 0) is Some && host.len() > 0 {
                let i = choose|i: int| 0 <= i < list.len() && (#[trigger] list[i]).user == name;
                assert(all[i].user == name);
            } else {
                assert(list[0].user == name);
                assert(all[0].user == name);
            }
        }
    }
}

proof fn lemma_user_is_listed(list: Seq<CredentialView>, host: Seq<char>, from: int)
    requires
        0 <= from,
    ensures
        user_at(list, host, from) matches Some(name) ==> exists|i: int|
            0 <= i < list.len() && (#[trigger] list[i]).user == name,
    decreases list.len() - from,
{
    if from < list.len() {
        lemma_user_is_listed(list, host, from + 1);
    }
}

} // verus!

