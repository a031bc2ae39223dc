//! GitHub items: which part of GitHub a URL names, what is imported from the replies of its API,
//! and how imports are written as a post.

use vstd::prelude::*;

use crate::outside::{self, UrlModel, UrlParts};
use crate::external::opt_parts;
use crate::paths::{self, ItemId};
use crate::sort::{self, Key, SortKey};
use crate::state;
use crate::text;

verus! {

/// Who imports are posted by.
pub const GITHUB_SYSTEM_PRINCIPAL: &'static str = "system:github-resolver";

/// How long an item is not imported again, in milliseconds.
pub const GITHUB_RESOLVER_COOLDOWN_MS: i64 = 15_000;

/// How many pages of a list are read.
pub const GITHUB_MAX_PAGES: usize = 3;

/// How many entries a full page has.
pub const GITHUB_PAGE_SIZE: usize = 100;

/// An item found on another site.
#[derive(Debug, Clone, PartialEq, Eq)]
pub struct ResolvedChild {
    pub url: String,
    pub title: String,
    pub body: Option<String>,
}

/// The mathematical value of a [`ResolvedChild`].
pub struct ChildModel {
    pub url: Seq<char>,
    pub title: Seq<char>,
    pub body: Option<Seq<char>>,
}

impl View for ResolvedChild {
    type V = ChildModel;

    open spec fn view(&self) -> ChildModel {
        ChildModel { url: self.url@, title: self.title@, body: text::opt_view(self.body) }
    }
}

impl ResolvedChild {
    /// A copy of the child.
    pub fn copy(&self) -> (r: ResolvedChild)
        ensures
            r@ == self@,
    {
        ResolvedChild {
            url: self.url.clone(),
            title: self.title.clone(),
            body: state::copy_opt(&self.body),
        }
    }
}

// ---------------------------------------------------------------------------
// Routes
// ---------------------------------------------------------------------------

/// The texts in small letters.
pub open spec fn lowered_all(v: Seq<Seq<char>>) -> Seq<Seq<char>> {
    Seq::new(v.len(), |i: int| text::lower_ascii(v[i]))
}

fn lower_each(v: &Vec<String>) -> (r: Vec<String>)
    ensures
        text::views(r@) == lowered_all(text::views(v@)),
{
    let mut r: Vec<String> = Vec::new();
    let mut i: usize = 0;
    while i < v.len()
        invariant
            i <= v.len(),
            r.len() == i,
            forall|j: int| 0 <= j < i ==> (#[trigger] r@[j])@ == text::lower_ascii(v@[j]@),
        decreases v.len() - i,
    {
        r.push(lower_text(v[i].as_str()));
        i = i + 1;
    }
    assert(text::views(r@) =~= lowered_all(text::views(v@)));
    r
}

fn lower_text(s: &str) -> (r: String)
    ensures
        r@ == text::lower_ascii(s@),
{
    text::string(&text::lowered_ascii(&text::chars(s)))
}

/// Whether a host is GitHub.
pub open spec fn is_github(host: Option<Seq<char>>) -> bool {
    match host {
        Some(h) => text::lower_ascii(h) == "github.com"@,
        None => false,
    }
}

fn github_host(host: &Option<String>) -> (r: bool)
    ensures
        r == is_github(text::opt_view(*host)),
{
    match host {
        Some(h) => text::same_chars(
            &text::lowered_ascii(&text::chars(h.as_str())),
            &text::chars("github.com"),
        ),
        None => false,
    }
}

/// The path segments of a GitHub URL in small letters, without empty ones; none for another
/// URL.
pub open spec fn segments_of(parts: Option<UrlModel>) -> Option<Seq<Seq<char>>> {
    match parts {
        Some(u) => if is_github(u.host) {
            Some(
                match u.segments {
                    Some(s) => lowered_all(text::nonempty(s)),
                    None => Seq::empty(),
                },
            )
        } else {
            None
        },
        None => None,
    }
}

/// The path segments of a GitHub URL, given what it consists of.
pub fn segments_from(parts: &Option<UrlParts>) -> (r: Option<Vec<String>>)
    ensures
        match r {
            Some(s) => segments_of(opt_parts(*parts)) == Some(text::views(s@)),
            None => segments_of(opt_parts(*parts)) is None,
        },
{
    match parts {
        Some(u) => {
            if !github_host(&u.host) {
                return None;
            }
            match &u.segments {
                Some(s) => Some(lower_each(&text::without_empty(s))),
                None => {
                    let none: Vec<String> = Vec::new();
                    assert(text::views(none@) =~= Seq::empty());
                    Some(none)
                },
            }
        },
        None => None,
    }
}

/// The path segments of an item on GitHub.
pub fn github_segments(item: &ItemId) -> (r: Option<Vec<String>>)
    ensures
        match r {
            Some(s) => segments_of(outside::parsed(item@)) == Some(text::views(s@)),
            None => segments_of(outside::parsed(item@)) is None,
        },
{
    let parts: Option<UrlParts> = outside::read_url(item.as_str());
    segments_from(&parts)
}

/// A resolver for GitHub: where its API is, and the token for it.
#[derive(Clone)]
pub struct GitHubResolver {
    pub api_base_url: String,
    pub token: Option<String>,
}

impl GitHubResolver {
    /// A resolver as configured: the public API where no base is set, no token where none is.
    pub fn configured(api_base_url: Option<&str>, token: Option<&str>) -> (r: GitHubResolver)
        ensures
            r.api_base_url@ == api_base(text::opt_str(api_base_url)),
            text::opt_view(r.token) == filled(text::opt_str(token)),
    {
        GitHubResolver {
            api_base_url: github_api_base(api_base_url),
            token: github_api_token(token),
        }
    }

    /// Whether an item is on GitHub.
    pub fn can_resolve_children(&self, item: &ItemId) -> (r: bool)
        ensures
            r == (segments_of(outside::parsed(item@)) is Some),
    {
        github_segments(item).is_some()
    }

    /// The URL of a request for a path of the API.
    pub fn request_url(&self, path: &str) -> (r: String)
        ensures
            r@ == self.api_base_url@ + "/"@ + text::trim_char_start(path@, '/'),
    {
        github_api_url(self.api_base_url.as_str(), path)
    }
}

/// What the children of a GitHub path are.
#[derive(Debug, PartialEq, Eq)]
pub enum GithubRoute {
    Nothing,
    Repos { owner: String },
    Sections { owner: String, repo: String },
    Issues { owner: String, repo: String },
    Pulls { owner: String, repo: String },
    Commits { owner: String, repo: String },
    Releases { owner: String, repo: String },
}

/// The mathematical value of a [`GithubRoute`].
pub enum RouteModel {
    Nothing,
    Repos { owner: Seq<char> },
    Sections { owner: Seq<char>, repo: Seq<char> },
    Issues { owner: Seq<char>, repo: Seq<char> },
    Pulls { owner: Seq<char>, repo: Seq<char> },
    Commits { owner: Seq<char>, repo: Seq<char> },
    Releases { owner: Seq<char>, repo: Seq<char> },
}

impl View for GithubRoute {
    type V = RouteModel;

    open spec fn view(&self) -> RouteModel {
        match *self {
            GithubRoute::Nothing => RouteModel::Nothing,
            GithubRoute::Repos { owner } => RouteModel::Repos { owner: owner@ },
            GithubRoute::Sections { owner, repo } => RouteModel::Sections {
                owner: owner@,
                repo: repo@,
            },
            GithubRoute::Issues { owner, repo } => RouteModel::Issues {
                owner: owner@,
                repo: repo@,
            },
            GithubRoute::Pulls { owner, repo } => RouteModel::Pulls { owner: owner@, repo: repo@ },
            GithubRoute::Commits { owner, repo } => RouteModel::Commits {
                owner: owner@,
                repo: repo@,
            },
            GithubRoute::Releases { owner, repo } => RouteModel::Releases {
                owner: owner@,
                repo: repo@,
            },
        }
    }
}

/// What the children of a path are: the repositories of an owner, the sections of a
/// repository, or the entries of a section.
pub open spec fn route_of(segs: Seq<Seq<char>>) -> RouteModel {
    if segs.len() == 1 {
        RouteModel::Repos { owner: segs[0] }
    } else if segs.len() == 2 {
        RouteModel::Sections { owner: segs[0], repo: segs[1] }
    } else if segs.len() == 3 && segs[2] == "issues"@ {
        RouteModel::Issues { owner: segs[0], repo: segs[1] }
    } else if segs.len() == 3 && segs[2] == "pulls"@ {
        RouteModel::Pulls { owner: segs[0], repo: segs[1] }
    } else if segs.len() == 3 && segs[2] == "commits"@ {
        RouteModel::Commits { owner: segs[0], repo: segs[1] }
    } else if segs.len() == 3 && segs[2] == "releases"@ {
        RouteModel::Releases { owner: segs[0], repo: segs[1] }
    } else {
        RouteModel::Nothing
    }
}

/// What the children of a path are.
pub fn github_route(segs: &Vec<String>) -> (r: GithubRoute)
    ensures
        r@ == route_of(text::views(segs@)),
{
    let ghost sv = text::views(segs@);
    assert(sv.len() == segs@.len());
    if segs.len() == 1 {
        assert(sv[0] == segs@[0]@);
        return GithubRoute::Repos { owner: segs[0].clone() };
    }
    if segs.len() != 2 && segs.len() != 3 {
        return GithubRoute::Nothing;
    }
    assert(sv[0] == segs@[0]@ && sv[1] == segs@[1]@);
    let owner: String = segs[0].clone();
    let repo: String = segs[1].clone();
    if segs.len() == 2 {
        return GithubRoute::Sections { owner, repo };
    }
    assert(sv[2] == segs@[2]@);
    let section: &str = segs[2].as_str();
    if text::same(section, "issues") {
        GithubRoute::Issues { owner, repo }
    } else if text::same(section, "pulls") {
        GithubRoute::Pulls { owner, repo }
    } else if text::same(section, "commits") {
        GithubRoute::Commits { owner, repo }
    } else if text::same(section, "releases") {
        GithubRoute::Releases { owner, repo }
    } else {
        GithubRoute::Nothing
    }
}

/// The path of the API that lists the children of a route; none where nothing is asked.
pub open spec fn api_path(route: RouteModel) -> Option<Seq<char>> {
    match route {
        RouteModel::Nothing => None,
        RouteModel::Sections { .. } => None,
        RouteModel::Repos { owner } => Some(
            "/users/"@ + owner + "/repos?per_page=100&sort=updated&type=owner"@,
        ),
        RouteModel::Issues { owner, repo } => Some(
            "/repos/"@ + owner + "/"@ + repo + "/issues?state=open&per_page=100"@,
        ),
        RouteModel::Pulls { owner, repo } => Some(
            "/repos/"@ + owner + "/"@ + repo + "/pulls?state=open&per_page=100"@,
        ),
        RouteModel::Commits { owner, repo } => Some(
            "/repos/"@ + owner + "/"@ + repo + "/commits?per_page=100"@,
        ),
        RouteModel::Releases { owner, repo } => Some(
            "/repos/"@ + owner + "/"@ + repo + "/releases?per_page=100"@,
        ),
    }
}

/// The path of the API that lists the children of a route.
pub fn github_api_path(route: &GithubRoute) -> (r: Option<String>)
    ensures
        text::opt_view(r) == api_path(route@),
{
    match route {
        GithubRoute::Nothing => None,
        GithubRoute::Sections { .. } => None,
        GithubRoute::Repos { owner } => Some(
            text::cat3("/users/", owner.as_str(), "/repos?per_page=100&sort=updated&type=owner"),
        ),
        GithubRoute::Issues { owner, repo } => Some(
            text::cat5(
                "/repos/",
                owner.as_str(),
                "/",
                repo.as_str(),
                "/issues?state=open&per_page=100",
            ),
        ),
        GithubRoute::Pulls { owner, repo } => Some(
            text::cat5(
                "/repos/",
                owner.as_str(),
                "/",
                repo.as_str(),
                "/pulls?state=open&per_page=100",
            ),
        ),
        GithubRoute::Commits { owner, repo } => Some(
            text::cat5("/repos/", owner.as_str(), "/", repo.as_str(), "/commits?per_page=100"),
        ),
        GithubRoute::Releases { owner, repo } => Some(
            text::cat5("/repos/", owner.as_str(), "/", repo.as_str(), "/releases?per_page=100"),
        ),
    }
}

/// The base URL of the API: as configured, unless that is blank, without slashes at the end.
pub open spec fn api_base(configured: Option<Seq<char>>) -> Seq<char> {
    text::trim_char_end(
        match configured {
            Some(s) => if text::trim(s).len() > 0 {
                s
            } else {
                "https://api.github.com"@
            },
            None => "https://api.github.com"@,
        },
        '/',
    )
}

/// The base URL of the API.
pub fn github_api_base(configured: Option<&str>) -> (r: String)
    ensures
        r@ == api_base(text::opt_str(configured)),
{
    let base: Vec<char> = match configured {
        Some(s) => {
            let c: Vec<char> = text::chars(s);
            if text::trimmed(&c).len() > 0 {
                c
            } else {
                text::chars("https://api.github.com")
            }
        },
        None => text::chars("https://api.github.com"),
    };
    text::string(&text::without_trailing(&base, '/'))
}

/// The token for the API: as configured, unless that is blank.
pub fn github_api_token(configured: Option<&str>) -> (r: Option<String>)
    ensures
        text::opt_view(r) == filled(text::opt_str(configured)),
{
    match configured {
        Some(s) => if text::trimmed(&text::chars(s)).len() > 0 {
            Some(s.to_owned())
        } else {
            None
        },
        None => None,
    }
}

/// The URL of an API request.
pub fn github_api_url(base: &str, path: &str) -> (r: String)
    ensures
        r@ == base@ + "/"@ + text::trim_char_start(path@, '/'),
{
    let tail: String = text::string(&text::without_leading(&text::chars(path), '/'));
    text::cat3(base, "/", tail.as_str())
}

/// The path of one page of a list.
pub open spec fn page_path(path: Seq<char>, page: nat) -> Seq<char> {
    path + (if path.contains('?') {
        "&"@
    } else {
        "?"@
    }) + "page="@ + text::decimal(page)
}

/// The path of one page of a list.
pub fn github_page_path(path: &str, page: usize) -> (r: String)
    ensures
        r@ == page_path(path@, page as nat),
{
    let sep: &str = if text::has_char(&text::chars(path), '?') {
        "&"
    } else {
        "?"
    };
    let n: String = text::size(page);
    text::cat4(path, sep, "page=", n.as_str())
}

/// Whether another page is read behind one: it was full, and it was not the last that is read.
pub fn another_page(page: usize, entries: usize) -> (r: bool)
    ensures
        r == (entries >= GITHUB_PAGE_SIZE && page < GITHUB_MAX_PAGES),
{
    entries >= GITHUB_PAGE_SIZE && page < GITHUB_MAX_PAGES
}

// ---------------------------------------------------------------------------
// Sections
// ---------------------------------------------------------------------------

/// The sections of a repository with their descriptions.
pub open spec fn repo_sections(owner: Seq<char>, repo: Seq<char>) -> Seq<ChildModel> {
    let base = "https://github.com/"@ + owner + "/"@ + repo + "/"@;
    seq![
        ChildModel {
            url: base + "issues"@,
            title: "issues"@,
            body: Some("GitHub issues for this repository."@),
        },
        ChildModel {
            url: base + "pulls"@,
            title: "pulls"@,
            body: Some("GitHub pull requests for this repository."@),
        },
        ChildModel {
            url: base + "commits"@,
            title: "commits"@,
            body: Some("GitHub commits for this repository."@),
        },
        ChildModel {
            url: base + "releases"@,
            title: "releases"@,
            body: Some("GitHub releases for this repository."@),
        },
    ]
}

fn section(base: &str, name: &str, body: &str) -> (r: ResolvedChild)
    ensures
        r@ == (ChildModel { url: base@ + name@, title: name@, body: Some(body@) }),
{
    ResolvedChild {
        url: text::cat(base, name),
        title: name.to_owned(),
        body: Some(body.to_owned()),
    }
}

/// The sections of a repository.
pub fn github_repo_sections(owner: &str, repo: &str) -> (r: Vec<ResolvedChild>)
    ensures
        state::rows(r@) == repo_sections(owner@, repo@),
{
    let base: String = text::cat5("https://github.com/", owner, "/", repo, "/");
    let mut r: Vec<ResolvedChild> = Vec::new();
    r.push(section(base.as_str(), "issues", "GitHub issues for this repository."));
    r.push(section(base.as_str(), "pulls", "GitHub pull requests for this repository."));
    r.push(section(base.as_str(), "commits", "GitHub commits for this repository."));
    r.push(section(base.as_str(), "releases", "GitHub releases for this repository."));
    assert(state::rows(r@) =~= repo_sections(owner@, repo@));
    r
}

// ---------------------------------------------------------------------------
// Replies of the API
// ---------------------------------------------------------------------------

/// A repository in a reply. A field is there where the reply has a string for it.
pub struct GithubRepo {
    pub name: Option<String>,
    pub full_name: Option<String>,
    pub description: Option<String>,
    pub html_url: Option<String>,
    pub language: Option<String>,
}

/// An issue or a pull request in a reply.
pub struct GithubIssue {
    pub number: Option<i64>,
    pub title: Option<String>,
    pub state: Option<String>,
    /// Who opened it.
    pub login: Option<String>,
    pub labels: Vec<String>,
    pub html_url: Option<String>,
    pub body: Option<String>,
    /// Whether a list of issues marks the entry as a pull request.
    pub is_pull: bool,
}

/// A commit in a reply.
pub struct GithubCommit {
    pub sha: Option<String>,
    pub message: Option<String>,
    pub author_name: Option<String>,
    pub author_date: Option<String>,
    pub login: Option<String>,
    pub html_url: Option<String>,
}

/// A release in a reply.
pub struct GithubRelease {
    pub tag_name: Option<String>,
    pub name: Option<String>,
    pub draft: bool,
    pub prerelease: bool,
    pub login: Option<String>,
    pub published_at: Option<String>,
    pub html_url: Option<String>,
    pub body: Option<String>,
}

/// A field, unless it is blank.
pub open spec fn filled(s: Option<Seq<char>>) -> Option<Seq<char>> {
    match s {
        Some(t) => if text::trim(t).len() > 0 {
            Some(t)
        } else {
            None
        },
        None => None,
    }
}

/// A field, unless it is blank.
pub fn github_string(s: &Option<String>) -> (r: Option<&str>)
    ensures
        text::opt_str(r) == filled(text::opt_view(*s)),
{
    match s {
        Some(t) => if text::trimmed(&text::chars(t.as_str())).len() > 0 {
            Some(t.as_str())
        } else {
            None
        },
        None => None,
    }
}

/// A text, or another where it is missing.
pub open spec fn or_else(s: Option<Seq<char>>, other: Seq<char>) -> Seq<char> {
    match s {
        Some(t) => t,
        None => other,
    }
}

/// Lines with one more, where there is one.
pub open spec fn with_line(lines: Seq<Seq<char>>, label: Seq<char>, s: Option<Seq<char>>) -> Seq<Seq<char>> {
    match s {
        Some(t) => lines.push(label + t),
        None => lines,
    }
}

/// Lines with a blank one and a paragraph, where there is one.
pub open spec fn with_paragraph(lines: Seq<Seq<char>>, label: Seq<char>, s: Option<Seq<char>>) -> Seq<
    Seq<char>,
> {
    match s {
        Some(t) => lines.push(Seq::empty()).push(label + t),
        None => lines,
    }
}

fn push_text(lines: &mut Vec<String>, s: String)
    ensures
        text::views(final(lines)@) == text::views(old(lines)@).push(s@),
{
    let ghost before = text::views(lines@);
    let ghost sv = s@;
    lines.push(s);
    assert(text::views(lines@) =~= before.push(sv));
}

fn push_line(lines: &mut Vec<String>, label: &str, s: Option<&str>)
    ensures
        text::views(final(lines)@) == with_line(
            text::views(old(lines)@),
            label@,
            text::opt_str(s),
        ),
{
    match s {
        Some(t) => push_text(lines, text::cat(label, t)),
        None => {},
    }
}

fn push_paragraph(lines: &mut Vec<String>, label: &str, s: Option<&str>)
    ensures
        text::views(final(lines)@) == with_paragraph(
            text::views(old(lines)@),
            label@,
            text::opt_str(s),
        ),
{
    match s {
        Some(t) => {
            let none: String = String::new();
            assert(none@ =~= Seq::empty());
            push_text(lines, none);
            push_text(lines, text::cat(label, t));
        },
        None => {},
    }
}

/// The lines of the body of a repository.
pub open spec fn repo_lines(r: GithubRepo) -> Seq<Seq<char>> {
    let name = match filled(text::opt_view(r.full_name)) {
        Some(n) => n,
        None => or_else(filled(text::opt_view(r.name)), "GitHub repository"@),
    };
    let a = with_paragraph(seq![name], ""@, filled(text::opt_view(r.description)));
    let b = with_paragraph(a, "Source: "@, filled(text::opt_view(r.html_url)));
    with_line(b, "Language: "@, filled(text::opt_view(r.language)))
}

/// The body of a repository: its name, its description, where it is and its language.
pub fn github_repo_body(repo: &GithubRepo) -> (r: String)
    ensures
        r@ == text::join(repo_lines(*repo), "\n"@),
{
    let name: &str = match github_string(&repo.full_name) {
        Some(n) => n,
        None => match github_string(&repo.name) {
            Some(n) => n,
            None => "GitHub repository",
        },
    };
    let mut lines: Vec<String> = Vec::new();
    lines.push(name.to_owned());
    assert(text::views(lines@) =~= seq![name@]);
    push_paragraph(&mut lines, "", github_string(&repo.description));
    push_paragraph(&mut lines, "Source: ", github_string(&repo.html_url));
    push_line(&mut lines, "Language: ", github_string(&repo.language));
    text::joined(&lines, "\n")
}

/// The labels that are not blank.
pub open spec fn filled_labels(v: Seq<Seq<char>>) -> Seq<Seq<char>>
    decreases v.len(),
{
    if v.len() == 0 {
        Seq::empty()
    } else if text::trim(v.last()).len() > 0 {
        filled_labels(v.drop_last()).push(v.last())
    } else {
        filled_labels(v.drop_last())
    }
}

/// The labels of an issue that are not blank.
pub fn github_labels(issue: &GithubIssue) -> (r: Vec<String>)
    ensures
        text::views(r@) == filled_labels(text::views(issue.labels@)),
{
    let ghost lv = text::views(issue.labels@);
    let mut r: Vec<String> = Vec::new();
    let mut i: usize = 0;
    assert(text::views(r@) =~= filled_labels(lv.take(0)));
    while i < issue.labels.len()
        invariant
            i <= issue.labels.len(),
            lv == text::views(issue.labels@),
            text::views(r@) == filled_labels(lv.take(i as int)),
        decreases issue.labels.len() - i,
    {
        assert(lv.take(i + 1).drop_last() =~= lv.take(i as int));
        assert(lv.take(i + 1).last() == issue.labels@[i as int]@);
        if text::trimmed(&text::chars(issue.labels[i].as_str())).len() > 0 {
            push_text(&mut r, issue.labels[i].clone());
        }
        i = i + 1;
    }
    assert(lv.take(lv.len() as int) =~= lv);
    r
}

/// The number of an issue as it stands in front of the title.
pub open spec fn number_mark(n: Option<i64>) -> Seq<char> {
    match n {
        Some(k) => "#"@ + text::decimal_int(k as int) + " "@,
        None => Seq::empty(),
    }
}

/// The lines of the body of an issue or a pull request.
pub open spec fn issue_lines(i: GithubIssue, noun: Seq<char>) -> Seq<Seq<char>> {
    let first = noun + " "@ + number_mark(i.number) + or_else(
        filled(text::opt_view(i.title)),
        "Untitled"@,
    );
    let a = seq![first].push("State: "@ + or_else(filled(text::opt_view(i.state)), "unknown"@));
    let b = with_line(a, "Author: @"@, filled(text::opt_view(i.login)));
    let labels = filled_labels(text::views(i.labels@));
    let c = if labels.len() > 0 {
        b.push("Labels: "@ + text::join(labels, ", "@))
    } else {
        b
    };
    let d = with_line(c, "Source: "@, filled(text::opt_view(i.html_url)));
    with_paragraph(d, ""@, filled(text::opt_view(i.body)))
}

/// The body of an issue or a pull request, as text to be read.
pub fn github_issue_body(issue: &GithubIssue, noun: &str) -> (r: String)
    ensures
        r@ == text::join(issue_lines(*issue, noun@), "\n"@),
{
    let number: String = match issue.number {
        Some(n) => {
            let d: String = text::integer(n);
            text::cat3("#", d.as_str(), " ")
        },
        None => {
            let none: String = String::new();
            assert(none@ =~= Seq::empty());
            none
        },
    };
    let title: &str = match github_string(&issue.title) {
        Some(t) => t,
        None => "Untitled",
    };
    let state: &str = match github_string(&issue.state) {
        Some(s) => s,
        None => "unknown",
    };
    let mut lines: Vec<String> = Vec::new();
    lines.push(text::cat4(noun, " ", number.as_str(), title));
    assert(text::views(lines@) =~= seq![
        noun@ + " "@ + number_mark(issue.number) + or_else(
            filled(text::opt_view(issue.title)),
            "Untitled"@,
        ),
    ]);
    push_text(&mut lines, text::cat("State: ", state));
    push_line(&mut lines, "Author: @", github_string(&issue.login));
    let labels: Vec<String> = github_labels(issue);
    assert(text::views(labels@).len() == labels@.len());
    if labels.len() > 0 {
        let all: String = text::joined(&labels, ", ");
        push_text(&mut lines, text::cat("Labels: ", all.as_str()));
    }
    push_line(&mut lines, "Source: ", github_string(&issue.html_url));
    push_paragraph(&mut lines, "", github_string(&issue.body));
    text::joined(&lines, "\n")
}

/// The lines of the body of a commit.
pub open spec fn commit_lines(c: GithubCommit) -> Seq<Seq<char>> {
    let sha = or_else(filled(text::opt_view(c.sha)), "unknown"@);
    let a = seq!["commit "@ + text::head(sha, 7)];
    let b = with_line(a, "Author: "@, filled(text::opt_view(c.author_name)));
    let d = with_line(b, "GitHub user: @"@, filled(text::opt_view(c.login)));
    let e = with_line(d, "Date: "@, text::opt_view(c.author_date));
    let f = with_line(e, "Source: "@, filled(text::opt_view(c.html_url)));
    f.push(Seq::empty()).push(or_else(text::opt_view(c.message), "commit"@))
}

fn short_sha(sha: &str) -> (r: String)
    ensures
        r@ == text::head(sha@, 7),
{
    text::string(&text::first_chars(&text::chars(sha), 7))
}

/// The body of a commit, as text to be read.
pub fn github_commit_body(commit: &GithubCommit) -> (r: String)
    ensures
        r@ == text::join(commit_lines(*commit), "\n"@),
{
    let sha: &str = match github_string(&commit.sha) {
        Some(s) => s,
        None => "unknown",
    };
    let short: String = short_sha(sha);
    let mut lines: Vec<String> = Vec::new();
    lines.push(text::cat("commit ", short.as_str()));
    assert(text::views(lines@) =~= seq!["commit "@ + text::head(sha@, 7)]);
    push_line(&mut lines, "Author: ", github_string(&commit.author_name));
    push_line(&mut lines, "GitHub user: @", github_string(&commit.login));
    let date: Option<&str> = match &commit.author_date {
        Some(d) => Some(d.as_str()),
        None => None,
    };
    push_line(&mut lines, "Date: ", date);
    push_line(&mut lines, "Source: ", github_string(&commit.html_url));
    let none: String = String::new();
    assert(none@ =~= Seq::empty());
    push_text(&mut lines, none);
    let message: String = match &commit.message {
        Some(m) => m.clone(),
        None => "commit".to_owned(),
    };
    push_text(&mut lines, message);
    text::joined(&lines, "\n")
}

/// The lines of the body of a release.
pub open spec fn release_lines(r: GithubRelease) -> Seq<Seq<char>> {
    let tag = or_else(filled(text::opt_view(r.tag_name)), "untagged"@);
    let title = or_else(filled(text::opt_view(r.name)), tag);
    let a = seq!["release "@ + title].push("Tag: "@ + tag);
    let b = if r.draft {
        a.push("Draft: yes"@)
    } else {
        a
    };
    let c = if r.prerelease {
        b.push("Prerelease: yes"@)
    } else {
        b
    };
    let d = with_line(c, "Author: @"@, filled(text::opt_view(r.login)));
    let e = with_line(d, "Published: "@, filled(text::opt_view(r.published_at)));
    let f = with_line(e, "Source: "@, filled(text::opt_view(r.html_url)));
    with_paragraph(f, ""@, filled(text::opt_view(r.body)))
}

/// The body of a release, as text to be read.
pub fn github_release_body(release: &GithubRelease) -> (r: String)
    ensures
        r@ == text::join(release_lines(*release), "\n"@),
{
    let tag: &str = match github_string(&release.tag_name) {
        Some(t) => t,
        None => "untagged",
    };
    let title: &str = match github_string(&release.name) {
        Some(t) => t,
        None => tag,
    };
    let mut lines: Vec<String> = Vec::new();
    lines.push(text::cat("release ", title));
    assert(text::views(lines@) =~= seq!["release "@ + title@]);
    push_text(&mut lines, text::cat("Tag: ", tag));
    if release.draft {
        push_text(&mut lines, "Draft: yes".to_owned());
    }
    if release.prerelease {
        push_text(&mut lines, "Prerelease: yes".to_owned());
    }
    push_line(&mut lines, "Author: @", github_string(&release.login));
    push_line(&mut lines, "Published: ", github_string(&release.published_at));
    push_line(&mut lines, "Source: ", github_string(&release.html_url));
    push_paragraph(&mut lines, "", github_string(&release.body));
    text::joined(&lines, "\n")
}

// ---------------------------------------------------------------------------
// Lists
// ---------------------------------------------------------------------------

/// What children are ordered by.
pub open spec fn url_keys(v: Seq<ChildModel>) -> Seq<Key> {
    Seq::new(v.len(), |i: int| Key { major: 0, minor: 0, text: v[i].url })
}

/// Children in the order of their URLs.
pub open spec fn by_url(v: Seq<ChildModel>) -> Seq<ChildModel> {
    sort::pick(v, sort::stable_order(url_keys(v)))
}

fn sort_by_url(v: &Vec<ResolvedChild>) -> (r: Vec<ResolvedChild>)
    ensures
        state::rows(r@) == by_url(state::rows(v@)),
{
    let ghost rows = state::rows(v@);
    let mut keys: Vec<SortKey> = Vec::new();
    let mut i: usize = 0;
    while i < v.len()
        invariant
            i <= v.len(),
            keys.len() == i,
            rows == state::rows(v@),
            forall|j: int| 0 <= j < i ==> (#[trigger] keys@[j])@ == url_keys(rows)[j],
        decreases v.len() - i,
    {
        keys.push(SortKey { major: 0, minor: 0, text: v[i].url.clone() });
        i = i + 1;
    }
    assert(sort::key_views(keys@) =~= url_keys(rows));
    let order: Vec<usize> = sort::order_by(&keys);
    let mut r: Vec<ResolvedChild> = Vec::new();
    let mut k: usize = 0;
    while k < order.len()
        invariant
            k <= order.len(),
            r.len() == k,
            forall|j: int| 0 <= j < order@.len() ==> (#[trigger] order@[j]) < v@.len(),
            forall|j: int| 0 <= j < k ==> (#[trigger] r@[j])@ == v@[order@[j] as int]@,
        decreases order.len() - k,
    {
        r.push(v[order[k]].copy());
        k = k + 1;
    }
    proof {
        let o = sort::ints(order@);
        assert forall|j: int| 0 <= j < r@.len() implies #[trigger] state::rows(r@)[j]
            == sort::pick(rows, o)[j] by {
            assert(r@[j]@ == v@[order@[j] as int]@);
            assert(o[j] == order@[j] as int);
        }
        assert(state::rows(r@) =~= sort::pick(rows, o));
    }
    r
}

fn push_child(out: &mut Vec<ResolvedChild>, c: ResolvedChild)
    ensures
        state::rows(final(out)@) == state::rows(old(out)@).push(c@),
{
    proof {
        state::lemma_rows_push(out@, c);
    }
    out.push(c);
}

/// The child for a repository; none for one without a name.
pub open spec fn repo_child(owner: Seq<char>, r: GithubRepo) -> Option<ChildModel> {
    let name = or_else(text::opt_view(r.name), Seq::empty());
    if name.len() == 0 {
        None
    } else {
        let full = text::lower_ascii(or_else(text::opt_view(r.full_name), owner + "/"@ + name));
        Some(
            ChildModel {
                url: "https://github.com/"@ + full,
                title: full,
                body: Some(text::join(repo_lines(r), "\n"@)),
            },
        )
    }
}

/// The children for some repositories.
pub open spec fn repo_children(owner: Seq<char>, v: Seq<GithubRepo>) -> Seq<ChildModel>
    decreases v.len(),
{
    if v.len() == 0 {
        Seq::empty()
    } else {
        match repo_child(owner, v.last()) {
            Some(c) => repo_children(owner, v.drop_last()).push(c),
            None => repo_children(owner, v.drop_last()),
        }
    }
}

/// The repositories of an owner.
pub fn list_repos(owner: &str, repos: &Vec<GithubRepo>) -> (r: Vec<ResolvedChild>)
    ensures
        state::rows(r@) == by_url(repo_children(owner@, repos@)),
{
    let mut out: Vec<ResolvedChild> = Vec::new();
    let mut i: usize = 0;
    assert(state::rows(out@) =~= repo_children(owner@, repos@.take(0)));
    while i < repos.len()
        invariant
            i <= repos.len(),
            state::rows(out@) == repo_children(owner@, repos@.take(i as int)),
        decreases repos.len() - i,
    {
        assert(repos@.take(i + 1).drop_last() =~= repos@.take(i as int));
        let repo: &GithubRepo = &repos[i];
        assert(repos@.take(i + 1).last() == *repo);
        match &repo.name {
            Some(name) => {
                if !name.as_str().is_empty() {
                    let full: String = match &repo.full_name {
                        Some(f) => lower_text(f.as_str()),
                        None => {
                            let f: String = text::cat3(owner, "/", name.as_str());
                            lower_text(f.as_str())
                        },
                    };
                    let url: String = text::cat("https://github.com/", full.as_str());
                    push_child(
                        &mut out,
                        ResolvedChild { url, title: full, body: Some(github_repo_body(repo)) },
                    );
                }
            },
            None => {},
        }
        i = i + 1;
    }
    assert(repos@.take(repos@.len() as int) =~= repos@);
    sort_by_url(&out)
}

/// The child for an issue or a pull request; none without a number.
pub open spec fn issue_child(
    owner: Seq<char>,
    repo: Seq<char>,
    section: Seq<char>,
    untitled: Seq<char>,
    noun: Seq<char>,
    i: GithubIssue,
) -> Option<ChildModel> {
    match i.number {
        None => None,
        Some(n) => Some(
            ChildModel {
                url: "https://github.com/"@ + owner + "/"@ + repo + section + text::decimal_int(
                    n as int,
                ),
                title: "#"@ + text::decimal_int(n as int) + " "@ + or_else(
                    text::opt_view(i.title),
                    untitled,
                ),
                body: Some(text::join(issue_lines(i, noun), "\n"@)),
            },
        ),
    }
}

fn child_of_issue(
    owner: &str,
    repo: &str,
    section: &str,
    untitled: &str,
    noun: &str,
    issue: &GithubIssue,
) -> (r: Option<ResolvedChild>)
    ensures
        match r {
            Some(c) => issue_child(owner@, repo@, section@, untitled@, noun@, *issue) == Some(c@),
            None => issue_child(owner@, repo@, section@, untitled@, noun@, *issue) is None,
        },
{
    match issue.number {
        None => None,
        Some(n) => {
            let d: String = text::integer(n);
            let base: String = text::cat5("https://github.com/", owner, "/", repo, section);
            let title: &str = match &issue.title {
                Some(t) => t.as_str(),
                None => untitled,
            };
            Some(
                ResolvedChild {
                    url: text::cat(base.as_str(), d.as_str()),
                    title: text::cat4("#", d.as_str(), " ", title),
                    body: Some(github_issue_body(issue, noun)),
                },
            )
        },
    }
}

/// The children for some issues; those that are pull requests are left out.
pub open spec fn issue_children(owner: Seq<char>, repo: Seq<char>, v: Seq<GithubIssue>) -> Seq<
    ChildModel,
>
    decreases v.len(),
{
    if v.len() == 0 {
        Seq::empty()
    } else {
        let front = issue_children(owner, repo, v.drop_last());
        if v.last().is_pull {
            front
        } else {
            match issue_child(owner, repo, "/issues/"@, "Untitled issue"@, "issue"@, v.last()) {
                Some(c) => front.push(c),
                None => front,
            }
        }
    }
}

/// The open issues of a repository.
pub fn list_issues(owner: &str, repo: &str, issues: &Vec<GithubIssue>) -> (r: Vec<ResolvedChild>)
    ensures
        state::rows(r@) == by_url(issue_children(owner@, repo@, issues@)),
{
    let mut out: Vec<ResolvedChild> = Vec::new();
    let mut i: usize = 0;
    assert(state::rows(out@) =~= issue_children(owner@, repo@, issues@.take(0)));
    while i < issues.len()
        invariant
            i <= issues.len(),
            state::rows(out@) == issue_children(owner@, repo@, issues@.take(i as int)),
        decreases issues.len() - i,
    {
        assert(issues@.take(i + 1).drop_last() =~= issues@.take(i as int));
        assert(issues@.take(i + 1).last() == issues@[i as int]);
        if !issues[i].is_pull {
            match child_of_issue(owner, repo, "/issues/", "Untitled issue", "issue", &issues[i]) {
                Some(c) => push_child(&mut out, c),
                None => {},
            }
        }
        i = i + 1;
    }
    assert(issues@.take(issues@.len() as int) =~= issues@);
    sort_by_url(&out)
}

/// The children for some pull requests.
pub open spec fn pull_children(owner: Seq<char>, repo: Seq<char>, v: Seq<GithubIssue>) -> Seq<
    ChildModel,
>
    decreases v.len(),
{
    if v.len() == 0 {
        Seq::empty()
    } else {
        let front = pull_children(owner, repo, v.drop_last());
        match issue_child(
            owner,
            repo,
            "/pulls/"@,
            "Untitled pull request"@,
            "pull request"@,
            v.last(),
        ) {
            Some(c) => front.push(c),
            None => front,
        }
    }
}

/// The open pull requests of a repository.
pub fn list_pulls(owner: &str, repo: &str, pulls: &Vec<GithubIssue>) -> (r: Vec<ResolvedChild>)
    ensures
        state::rows(r@) == by_url(pull_children(owner@, repo@, pulls@)),
{
    let mut out: Vec<ResolvedChild> = Vec::new();
    let mut i: usize = 0;
    assert(state::rows(out@) =~= pull_children(owner@, repo@, pulls@.take(0)));
    while i < pulls.len()
        invariant
            i <= pulls.len(),
            state::rows(out@) == pull_children(owner@, repo@, pulls@.take(i as int)),
        decreases pulls.len() - i,
    {
        assert(pulls@.take(i + 1).drop_last() =~= pulls@.take(i as int));
        assert(pulls@.take(i + 1).last() == pulls@[i as int]);
        match child_of_issue(
            owner,
            repo,
            "/pulls/",
            "Untitled pull request",
            "pull request",
            &pulls[i],
        ) {
            Some(c) => push_child(&mut out, c),
            None => {},
        }
        i = i + 1;
    }
    assert(pulls@.take(pulls@.len() as int) =~= pulls@);
    sort_by_url(&out)
}

/// The first line of the message of a commit, or `commit` where that is blank.
pub open spec fn commit_title(message: Option<Seq<char>>) -> Seq<char> {
    match message {
        Some(m) => or_else(filled(Some(text::first_line(m))), "commit"@),
        None => "commit"@,
    }
}

/// The child for a commit; none without a hash.
pub open spec fn commit_child(owner: Seq<char>, repo: Seq<char>, c: GithubCommit) -> Option<ChildModel> {
    match filled(text::opt_view(c.sha)) {
        None => None,
        Some(sha) => Some(
            ChildModel {
                url: or_else(
                    filled(text::opt_view(c.html_url)),
                    "https://github.com/"@ + owner + "/"@ + repo + "/commit/"@ + sha,
                ),
                title: text::head(sha, 7) + " "@ + commit_title(text::opt_view(c.message)),
                body: Some(text::join(commit_lines(c), "\n"@)),
            },
        ),
    }
}

fn child_of_commit(owner: &str, repo: &str, commit: &GithubCommit) -> (r: Option<ResolvedChild>)
    ensures
        match r {
            Some(c) => commit_child(owner@, repo@, *commit) == Some(c@),
            None => commit_child(owner@, repo@, *commit) is None,
        },
{
    let sha: &str = match github_string(&commit.sha) {
        Some(s) => s,
        None => {
            return None;
        },
    };
    let short: String = short_sha(sha);
    let title: String = match &commit.message {
        Some(m) => {
            let line: Vec<char> = text::head_line(&text::chars(m.as_str()));
            if text::trimmed(&line).len() > 0 {
                text::string(&line)
            } else {
                "commit".to_owned()
            }
        },
        None => "commit".to_owned(),
    };
    let url: String = match github_string(&commit.html_url) {
        Some(u) => u.to_owned(),
        None => {
            let base: String = text::cat5("https://github.com/", owner, "/", repo, "/commit/");
            text::cat(base.as_str(), sha)
        },
    };
    Some(
        ResolvedChild {
            url,
            title: text::cat3(short.as_str(), " ", title.as_str()),
            body: Some(github_commit_body(commit)),
        },
    )
}

/// The children for some commits.
pub open spec fn commit_children(owner: Seq<char>, repo: Seq<char>, v: Seq<GithubCommit>) -> Seq<
    ChildModel,
>
    decreases v.len(),
{
    if v.len() == 0 {
        Seq::empty()
    } else {
        match commit_child(owner, repo, v.last()) {
            Some(c) => commit_children(owner, repo, v.drop_last()).push(c),
            None => commit_children(owner, repo, v.drop_last()),
        }
    }
}

/// The commits of a repository.
pub fn list_commits(owner: &str, repo: &str, commits: &Vec<GithubCommit>) -> (r: Vec<ResolvedChild>)
    ensures
        state::rows(r@) == by_url(commit_children(owner@, repo@, commits@)),
{
    let mut out: Vec<ResolvedChild> = Vec::new();
    let mut i: usize = 0;
    assert(state::rows(out@) =~= commit_children(owner@, repo@, commits@.take(0)));
    while i < commits.len()
        invariant
            i <= commits.len(),
            state::rows(out@) == commit_children(owner@, repo@, commits@.take(i as int)),
        decreases commits.len() - i,
    {
        assert(commits@.take(i + 1).drop_last() =~= commits@.take(i as int));
        assert(commits@.take(i + 1).last() == commits@[i as int]);
        match child_of_commit(owner, repo, &commits[i]) {
            Some(c) => push_child(&mut out, c),
            None => {},
        }
        i = i + 1;
    }
    assert(commits@.take(commits@.len() as int) =~= commits@);
    sort_by_url(&out)
}

/// The child for a release; none without a tag.
pub open spec fn release_child(owner: Seq<char>, repo: Seq<char>, r: GithubRelease) -> Option<ChildModel> {
    match filled(text::opt_view(r.tag_name)) {
        None => None,
        Some(tag) => Some(
            ChildModel {
                url: or_else(
                    filled(text::opt_view(r.html_url)),
                    "https://github.com/"@ + owner + "/"@ + repo + "/releases/tag/"@ + tag,
                ),
                title: or_else(filled(text::opt_view(r.name)), tag),
                body: Some(text::join(release_lines(r), "\n"@)),
            },
        ),
    }
}

fn child_of_release(owner: &str, repo: &str, release: &GithubRelease) -> (r: Option<ResolvedChild>)
    ensures
        match r {
            Some(c) => release_child(owner@, repo@, *release) == Some(c@),
            None => release_child(owner@, repo@, *release) is None,
        },
{
    let tag: &str = match github_string(&release.tag_name) {
        Some(t) => t,
        None => {
            return None;
        },
    };
    let title: &str = match github_string(&release.name) {
        Some(n) => n,
        None => tag,
    };
    let url: String = match github_string(&release.html_url) {
        Some(u) => u.to_owned(),
        None => {
            let base: String = text::cat5("https://github.com/", owner, "/", repo, "/releases/tag/");
            text::cat(base.as_str(), tag)
        },
    };
    Some(
        ResolvedChild { url, title: title.to_owned(), body: Some(github_release_body(release)) },
    )
}

/// The children for some releases.
pub open spec fn release_children(owner: Seq<char>, repo: Seq<char>, v: Seq<GithubRelease>) -> Seq<
    ChildModel,
>
    decreases v.len(),
{
    if v.len() == 0 {
        Seq::empty()
    } else {
        match release_child(owner, repo, v.last()) {
            Some(c) => release_children(owner, repo, v.drop_last()).push(c),
            None => release_children(owner, repo, v.drop_last()),
        }
    }
}

/// The releases of a repository.
pub fn list_releases(owner: &str, repo: &str, releases: &Vec<GithubRelease>) -> (r: Vec<
    ResolvedChild,
>)
    ensures
        state::rows(r@) == by_url(release_children(owner@, repo@, releases@)),
{
    let mut out: Vec<ResolvedChild> = Vec::new();
    let mut i: usize = 0;
    assert(state::rows(out@) =~= release_children(owner@, repo@, releases@.take(0)));
    while i < releases.len()
        invariant
            i <= releases.len(),
            state::rows(out@) == release_children(owner@, repo@, releases@.take(i as int)),
        decreases releases.len() - i,
    {
        assert(releases@.take(i + 1).drop_last() =~= releases@.take(i as int));
        assert(releases@.take(i + 1).last() == releases@[i as int]);
        match child_of_release(owner, repo, &releases[i]) {
            Some(c) => push_child(&mut out, c),
            None => {},
        }
        i = i + 1;
    }
    assert(releases@.take(releases@.len() as int) =~= releases@);
    sort_by_url(&out)
}

// ---------------------------------------------------------------------------
// Imports as posts
// ---------------------------------------------------------------------------

/// `s` without leading copies of `-/`.
pub open spec fn without_dashes(s: Seq<char>) -> Seq<char>
    decreases s.len(),
{
    if s.len() >= 2 && s[0] == '-' && s[1] == '/' {
        without_dashes(s.skip(2))
    } else {
        s
    }
}

/// The thread that an import goes to.
pub open spec fn import_tag(key: Seq<char>) -> Seq<char> {
    "import:"@ + text::replace(
        text::replace(without_dashes(paths::display(key)), "/"@, ":"@),
        "?"@,
        ":"@,
    )
}

/// The thread that the import of an item goes to.
pub fn resolver_thread_tag(item: &ItemId) -> (r: String)
    ensures
        r@ == import_tag(item@),
{
    let shown: Vec<char> = text::chars(item.display_path().as_str());
    let mut i: usize = 0;
    assert(shown@.skip(0) =~= shown@);
    while shown.len() - i >= 2 && shown[i] == '-' && shown[i + 1] == '/'
        invariant
            i <= shown.len(),
            without_dashes(shown@) == without_dashes(shown@.skip(i as int)),
        decreases shown.len() - i,
    {
        assert(shown@.skip(i as int).skip(2) =~= shown@.skip(i + 2));
        i = i + 2;
    }
    let tail: Vec<char> = text::cut(&shown, i, shown.len());
    assert(tail@ =~= shown@.skip(i as int));
    proof {
        reveal_strlit("/");
        reveal_strlit("?");
    }
    let a: Vec<char> = text::replaced(&tail, "/", ":");
    let b: Vec<char> = text::replaced(&a, "?", ":");
    let s: String = text::string(&b);
    text::cat("import:", s.as_str())
}

/// A text that can stand between braces: braces become parentheses, fences are broken up, and
/// only the first four thousand characters stay.
pub open spec fn sanitized(s: Seq<char>) -> Seq<char> {
    text::head(
        text::replace(
            text::replace(text::replace(s, "{"@, "("@), "}"@, ")"@),
            "```"@,
            "` ` `"@,
        ),
        4000,
    )
}

/// Makes a text fit to stand between braces.
pub fn sanitize_body(s: &str) -> (r: String)
    ensures
        r@ == sanitized(s@),
{
    proof {
        reveal_strlit("{");
        reveal_strlit("}");
        reveal_strlit("```");
    }
    let a: Vec<char> = text::replaced(&text::chars(s), "{", "(");
    let b: Vec<char> = text::replaced(&a, "}", ")");
    let c: Vec<char> = text::replaced(&b, "```", "` ` `");
    text::string(&text::first_chars(&c, 4000))
}

proof fn lemma_replace_keeps_out(s: Seq<char>, pat: Seq<char>, to: Seq<char>, c: char, i: int)
    requires
        !to.contains(c),
        pat.len() > 0,
        !s.contains(c) || pat == seq![c],
    ensures
        !text::replace_from(s, pat, to, i).contains(c),
    decreases s.len() - i,
{
    let r = text::replace_from(s, pat, to, i);
    if 0 <= i < s.len() {
        if text::occurs_at(s, pat, i) {
            let rest = text::replace_from(s, pat, to, i + pat.len());
            lemma_replace_keeps_out(s, pat, to, c, i + pat.len() as int);
            if r.contains(c) {
                let k = choose|k: int| 0 <= k < r.len() && r[k] == c;
                if k < to.len() {
                    assert(to[k] == c);
                } else {
                    assert(rest[k - to.len()] == c);
                }
            }
        } else {
            let rest = text::replace_from(s, pat, to, i + 1);
            lemma_replace_keeps_out(s, pat, to, c, i + 1);
            if r.contains(c) {
                let k = choose|k: int| 0 <= k < r.len() && r[k] == c;
                if k == 0 {
                    assert(s[i] == c);
                    assert(s.contains(c));
                    assert(s.subrange(i, i + 1) =~= seq![c]);
                } else {
                    assert(rest[k - 1] == c);
                }
            }
        }
    }
}

/// A text made fit to stand between braces holds no braces, and is no longer than four thousand
/// characters.
pub proof fn law_sanitized_has_no_braces(s: Seq<char>)
    ensures
        !sanitized(s).contains('{'),
        !sanitized(s).contains('}'),
        sanitized(s).len() <= 4000,
{
    reveal_strlit("{");
    reveal_strlit("}");
    reveal_strlit("(");
    reveal_strlit(")");
    reveal_strlit("```");
    reveal_strlit("` ` `");
    assert("{"@ =~= seq!['{']);
    assert("}"@ =~= seq!['}']);
    assert("("@ =~= seq!['(']);
    assert(")"@ =~= seq![')']);
    assert("` ` `"@ =~= seq!['`', ' ', '`', ' ', '`']);
    let a = text::replace(s, "{"@, "("@);
    let b = text::replace(a, "}"@, ")"@);
    let c = text::replace(b, "```"@, "` ` `"@);
    lemma_replace_keeps_out(s, "{"@, "("@, '{', 0);
    lemma_replace_keeps_out(a, "}"@, ")"@, '{', 0);
    lemma_replace_keeps_out(a, "}"@, ")"@, '}', 0);
    lemma_replace_keeps_out(b, "```"@, "` ` `"@, '{', 0);
    lemma_replace_keeps_out(b, "```"@, "` ` `"@, '}', 0);
    let t = sanitized(s);
    assert forall|k: int| 0 <= k < t.len() implies t[k] != '{' && t[k] != '}' by {
        assert(t[k] == c[k]);
        assert(c.contains(c[k]));
    }
}

/// What stands between the braces of an imported item: its body, or its title where that is
/// blank. A fenced body stays as it is.
pub open spec fn import_body(c: ChildModel) -> Seq<char> {
    let body = or_else(filled(c.body), c.title);
    if text::has_prefix(text::trim_start(body), "```"@) {
        text::trim(body)
    } else {
        sanitized(body)
    }
}

/// An imported item as a post writes it.
pub open spec fn import_text(c: ChildModel) -> Seq<char> {
    c.url + " {\n"@ + import_body(c) + "\n}\n\n"@
}

/// Imported items as a post writes them.
pub open spec fn dsl_of(v: Seq<ChildModel>) -> Seq<char>
    decreases v.len(),
{
    if v.len() == 0 {
        Seq::empty()
    } else {
        dsl_of(v.drop_last()) + import_text(v.last())
    }
}

/// Imported items as a post writes them.
pub fn children_to_dsl(children: &Vec<ResolvedChild>) -> (r: String)
    ensures
        r@ == dsl_of(state::rows(children@)),
{
    let ghost cv = state::rows(children@);
    let mut out: String = String::new();
    let mut i: usize = 0;
    assert(out@ =~= dsl_of(cv.take(0)));
    while i < children.len()
        invariant
            i <= children.len(),
            cv == state::rows(children@),
            out@ == dsl_of(cv.take(i as int)),
        decreases children.len() - i,
    {
        assert(cv.take(i + 1).drop_last() =~= cv.take(i as int));
        assert(cv.take(i + 1).last() == children@[i as int]@);
        let child: &ResolvedChild = &children[i];
        let body: &str = match github_string(&child.body) {
            Some(b) => b,
            None => child.title.as_str(),
        };
        let b: Vec<char> = text::chars(body);
        let inner: String = if text::starts_with(&text::trimmed_start(&b), "```") {
            text::string(&text::trimmed(&b))
        } else {
            sanitize_body(body)
        };
        let piece: String = text::cat4(child.url.as_str(), " {\n", inner.as_str(), "\n}\n\n");
        out.append(piece.as_str());
        i = i + 1;
    }
    assert(cv.take(cv.len() as int) =~= cv);
    out
}

/// What a post writes of two lists of items, one behind the other, is what it writes of the
/// first, and then what it writes of the second.
pub proof fn law_imports_follow_each_other(a: Seq<ChildModel>, b: Seq<ChildModel>)
    ensures
        dsl_of(a + b) == dsl_of(a) + dsl_of(b),
    decreases b.len(),
{
    if b.len() == 0 {
        assert(a + b =~= a);
        assert(dsl_of(a) + dsl_of(b) =~= dsl_of(a));
    } else {
        law_imports_follow_each_other(a, b.drop_last());
        assert((a + b).drop_last() =~= a + b.drop_last());
        assert((a + b).last() == b.last());
        assert(dsl_of(a + b) =~= dsl_of(a) + dsl_of(b));
    }
}

/// A single item is written as its URL and, between braces on lines of their own, its body; its
/// title stands there where it has no body but white space.
pub proof fn law_import_of_one(c: ChildModel)
    ensures
        dsl_of(seq![c]) == c.url + " {\n"@ + import_body(c) + "\n}\n\n"@,
        match c.body {
            Some(b) => text::trim(b).len() > 0 ==> import_body(c) == import_body(
                ChildModel { url: c.url, title: b, body: None },
            ),
            None => true,
        },
        match c.body {
            Some(b) => text::trim(b).len() == 0 ==> import_body(c) == import_body(
                ChildModel { url: c.url, title: c.title, body: None },
            ),
            None => text::has_prefix(text::trim_start(c.title), "```"@) ==> import_body(c)
                == text::trim(c.title),
        },
        c.body is None && !text::has_prefix(text::trim_start(c.title), "```"@) ==> import_body(c)
            == sanitized(c.title),
{
    let one = seq![c];
    assert(one.drop_last() =~= Seq::empty());
    assert(dsl_of(one.drop_last()) =~= Seq::empty());
    assert(one.last() == c);
    assert(dsl_of(one) =~= import_text(c));
}

/// Every item of an import is written: its URL stands in the post, with its own body behind it.
pub proof fn law_every_import_is_written(v: Seq<ChildModel>, i: int)
    requires
        0 <= i < v.len(),
    ensures
        exists|at: int|
            0 <= at && #[trigger] text::occurs_at(
                dsl_of(v),
                v[i].url + " {\n"@ + import_body(v[i]) + "\n}\n\n"@,
                at,
            ),
{
    let a = v.take(i);
    let one = seq![v[i]];
    let b = v.skip(i + 1);
    let piece = v[i].url + " {\n"@ + import_body(v[i]) + "\n}\n\n"@;
    assert(v =~= a + one + b);
    law_imports_follow_each_other(a + one, b);
    law_imports_follow_each_other(a, one);
    law_import_of_one(v[i]);
    let at = dsl_of(a).len() as int;
    assert(dsl_of(v).subrange(at, at + piece.len()) =~= piece);
    assert(text::occurs_at(dsl_of(v), piece, at));
}

proof fn lemma_replace_one(s: Seq<char>, c: char, d: char, i: int)
    requires
        0 <= i <= s.len(),
    ensures
        text::replace_from(s, seq![c], seq![d], i) == Seq::new(
            (s.len() - i) as nat,
            |k: int|
                if s[i + k] == c {
                    d
                } else {
                    s[i + k]
                },
        ),
    decreases s.len() - i,
{
    let want = Seq::new(
        (s.len() - i) as nat,
        |k: int|
            if s[i + k] == c {
                d
            } else {
                s[i + k]
            },
    );
    if i < s.len() {
        lemma_replace_one(s, c, d, i + 1);
        let one = s.subrange(i, i + 1);
        assert(one =~= seq![s[i]]);
        if s[i] == c {
            assert(text::occurs_at(s, seq![c], i));
        } else {
            assert(one[0] != seq![c][0]);
        }
        assert(text::replace_from(s, seq![c], seq![d], i) =~= want);
    } else {
        assert(text::replace_from(s, seq![c], seq![d], i) =~= want);
    }
}

proof fn lemma_replace_absent(s: Seq<char>, pat: Seq<char>, to: Seq<char>, i: int)
    requires
        0 <= i <= s.len(),
        pat.len() > 0,
        forall|j: int| 0 <= j ==> !#[trigger] text::occurs_at(s, pat, j),
    ensures
        text::replace_from(s, pat, to, i) == s.skip(i),
    decreases s.len() - i,
{
    if i < s.len() {
        assert(!text::occurs_at(s, pat, i));
        lemma_replace_absent(s, pat, to, i + 1);
    }
    assert(text::replace_from(s, pat, to, i) =~= s.skip(i));
}

/// A text without fences is kept, character by character, but for its braces, which become
/// parentheses; only its first four thousand characters stay.
pub proof fn law_sanitizing_keeps_the_rest(s: Seq<char>)
    requires
        forall|j: int|
            0 <= j && j + 2 < s.len() ==> !(#[trigger] s[j] == '`' && s[j + 1] == '`' && s[j + 2]
                == '`'),
    ensures
        sanitized(s).len() == if s.len() <= 4000 {
            s.len()
        } else {
            4000
        },
        forall|k: int|
            0 <= k < sanitized(s).len() ==> #[trigger] sanitized(s)[k] == if s[k] == '{' {
                '('
            } else if s[k] == '}' {
                ')'
            } else {
                s[k]
            },
{
    reveal_strlit("{");
    reveal_strlit("}");
    reveal_strlit("(");
    reveal_strlit(")");
    reveal_strlit("```");
    assert("{"@ =~= seq!['{']);
    assert("}"@ =~= seq!['}']);
    assert("("@ =~= seq!['(']);
    assert(")"@ =~= seq![')']);
    let fence = seq!['`', '`', '`'];
    assert("```"@ =~= fence);
    let a = text::replace(s, "{"@, "("@);
    lemma_replace_one(s, '{', '(', 0);
    let b = text::replace(a, "}"@, ")"@);
    lemma_replace_one(a, '}', ')', 0);
    assert forall|j: int| 0 <= j implies !#[trigger] text::occurs_at(b, fence, j) by {
        if text::occurs_at(b, fence, j) {
            let cut = b.subrange(j, j + 3);
            assert(cut[0] == '`' && cut[1] == '`' && cut[2] == '`');
            assert(b[j] == '`' && b[j + 1] == '`' && b[j + 2] == '`');
            assert(s[j] == '`');
            assert(false);
        }
    }
    lemma_replace_absent(b, fence, "` ` `"@, 0);
    assert(b.skip(0) =~= b);
}

// ---------------------------------------------------------------------------
// Runs
// ---------------------------------------------------------------------------

/// When an item was last imported into a room.
pub struct ResolverRun {
    pub key: String,
    pub last_ms: i64,
}

/// The mathematical value of a [`ResolverRun`].
pub struct RunModel {
    pub key: Seq<char>,
    pub last_ms: int,
}

impl View for ResolverRun {
    type V = RunModel;

    open spec fn view(&self) -> RunModel {
        RunModel { key: self.key@, last_ms: self.last_ms as int }
    }
}

/// What a run is known by: the room and the item.
pub open spec fn run_key(room: Seq<char>, item: Seq<char>) -> Seq<char> {
    "github:"@ + text::trim(room) + ":"@ + item
}

/// What a run is known by.
pub fn resolver_run_key(room: &str, item: &ItemId) -> (r: String)
    ensures
        r@ == run_key(room@, item@),
{
    let t: String = text::trim_str(room);
    text::cat4("github:", t.as_str(), ":", item.as_str())
}

/// The keys of some runs.
pub open spec fn run_keys(v: Seq<RunModel>) -> Seq<Seq<char>> {
    Seq::new(v.len(), |i: int| v[i].key)
}

/// How long a run has to wait, in milliseconds; nothing below one.
pub open spec fn wait_ms(runs: Seq<RunModel>, key: Seq<char>, now: int) -> int {
    match text::position(run_keys(runs), key) {
        Some(i) => GITHUB_RESOLVER_COOLDOWN_MS - (now - runs[i].last_ms),
        None => 0,
    }
}

/// The runs after one was started: its time is noted.
pub open spec fn runs_after(runs: Seq<RunModel>, key: Seq<char>, now: int) -> Seq<RunModel> {
    match text::position(run_keys(runs), key) {
        Some(i) => runs.update(i, RunModel { key, last_ms: now }),
        None => runs.push(RunModel { key, last_ms: now }),
    }
}

/// What a reader is told who has to wait.
pub open spec fn cooldown_text(wait: int) -> Seq<char> {
    "GitHub resolver cooldown: try again in "@ + text::decimal(((wait + 999) / 1000) as nat) + "s"@
}

/// Starts a run, unless the same ran a short time ago: then it is left, and the reader is told
/// how long to wait.
pub fn start_run(runs: &mut Vec<ResolverRun>, key: &str, now: i64) -> (r: Result<(), String>)
    ensures
        match r {
            Ok(()) => wait_ms(state::rows(old(runs)@), key@, now as int) <= 0 && state::rows(
                final(runs)@,
            ) == runs_after(state::rows(old(runs)@), key@, now as int),
            Err(msg) => wait_ms(state::rows(old(runs)@), key@, now as int) > 0 && msg@
                == cooldown_text(wait_ms(state::rows(old(runs)@), key@, now as int))
                && final(runs)@ == old(runs)@,
        },
{
    let ghost before = state::rows(runs@);
    let ghost keys = run_keys(before);
    let mut i: usize = 0;
    while i < runs.len() && !text::same(runs[i].key.as_str(), key)
        invariant
            i <= runs.len(),
            before == state::rows(runs@),
            keys == run_keys(before),
            text::position(keys.take(i as int), key@) is None,
        decreases runs.len() - i,
    {
        assert(keys[i as int] == runs@[i as int].key@);
        assert(keys.take(i + 1).drop_last() =~= keys.take(i as int));
        i = i + 1;
    }
    if i == runs.len() {
        assert(keys.take(keys.len() as int) =~= keys);
        let run = ResolverRun { key: key.to_owned(), last_ms: now };
        proof {
            state::lemma_rows_push(runs@, run);
        }
        runs.push(run);
        return Ok(());
    }
    proof {
        assert(keys[i as int] == runs@[i as int].key@);
        assert(keys.take(i + 1).drop_last() =~= keys.take(i as int));
        assert(text::position(keys.take(i + 1), key@) == Some(i as int));
        text::lemma_position_prefix(keys, key@, i + 1);
    }
    let remaining: i128 = (GITHUB_RESOLVER_COOLDOWN_MS as i128) - (now as i128
        - runs[i].last_ms as i128);
    if remaining > 0 {
        let secs: u64 = ((remaining + 999) / 1000) as u64;
        let n: String = text::number(secs);
        return Err(text::cat3("GitHub resolver cooldown: try again in ", n.as_str(), "s"));
    }
    let run = ResolverRun { key: key.to_owned(), last_ms: now };
    let ghost old_runs = runs@;
    runs.set(i, run);
    assert(state::rows(runs@) =~= before.update(i as int, RunModel { key: key@, last_ms: now as int }));
    Ok(())
}

/// A run that was started has to wait if it is asked for again within the cooldown.
pub proof fn law_cooldown_holds(runs: Seq<RunModel>, key: Seq<char>, now: int, later: int)
    requires
        now <= later < now + GITHUB_RESOLVER_COOLDOWN_MS,
    ensures
        wait_ms(runs_after(runs, key, now), key, later) > 0,
{
    let after = runs_after(runs, key, now);
    text::lemma_position(run_keys(runs), key);
    text::lemma_position(run_keys(after), key);
    match text::position(run_keys(runs), key) {
        Some(i) => {
            assert(run_keys(after)[i] == key);
            assert(run_keys(after) =~= run_keys(runs));
        },
        None => {
            assert(run_keys(after)[runs.len() as int] == key);
            assert forall|j: int| 0 <= j < runs.len() implies run_keys(after)[j] != key by {
                assert(run_keys(runs)[j] != key);
            }
        },
    }
}

/// What a failed post is reported as.
pub fn writer_error(msg: &str, hint: Option<&str>) -> (r: String)
    ensures
        r@ == match hint {
            Some(h) => msg@ + ": "@ + h@,
            None => msg@,
        },
{
    match hint {
        Some(h) => text::cat3(msg, ": ", h),
        None => msg.to_owned(),
    }
}

// ---------------------------------------------------------------------------
// What is imported
// ---------------------------------------------------------------------------

/// Children are ordered by their URLs; none is lost and none is added.
pub proof fn law_children_in_order(v: Seq<ChildModel>, c: ChildModel)
    ensures
        by_url(v).len() == v.len(),
        by_url(v).contains(c) <==> v.contains(c),
        forall|i: int, j: int|
            0 <= i < j < by_url(v).len() ==> !text::text_lt(
                (#[trigger] by_url(v)[j]).url,
                (#[trigger] by_url(v)[i]).url,
            ),
{
    let keys = url_keys(v);
    sort::lemma_sorted_rows(v, keys);
    let o = sort::stable_order(keys);
    let r = by_url(v);
    assert forall|i: int, j: int| 0 <= i < j < r.len() implies !text::text_lt(
        (#[trigger] r[j]).url,
        (#[trigger] r[i]).url,
    ) by {
        assert(!sort::key_lt(keys[o[j]], keys[o[i]]));
    }
}

/// Every entry of a reply becomes a child, in the order of the reply: a repository with a name,
/// an issue or a pull request with a number, a commit with a hash, a release with a tag. Of the
/// issues, those that are pull requests are left out.
#[verifier::rlimit(50)]
pub proof fn law_every_entry_becomes_a_child(
    owner: Seq<char>,
    repo: Seq<char>,
    repos: Seq<GithubRepo>,
    r: GithubRepo,
    issues: Seq<GithubIssue>,
    i: GithubIssue,
    commits: Seq<GithubCommit>,
    c: GithubCommit,
    releases: Seq<GithubRelease>,
    l: GithubRelease,
)
    ensures
        repo_children(owner, Seq::empty()).len() == 0,
        issue_children(owner, repo, Seq::empty()).len() == 0,
        pull_children(owner, repo, Seq::empty()).len() == 0,
        commit_children(owner, repo, Seq::empty()).len() == 0,
        release_children(owner, repo, Seq::empty()).len() == 0,
        repo_children(owner, repos.push(r)) == match repo_child(owner, r) {
            Some(x) => repo_children(owner, repos).push(x),
            None => repo_children(owner, repos),
        },
        i.is_pull ==> issue_children(owner, repo, issues.push(i)) == issue_children(
            owner,
            repo,
            issues,
        ),
        !i.is_pull ==> issue_children(owner, repo, issues.push(i)) == match issue_child(
            owner,
            repo,
            "/issues/"@,
            "Untitled issue"@,
            "issue"@,
            i,
        ) {
            Some(x) => issue_children(owner, repo, issues).push(x),
            None => issue_children(owner, repo, issues),
        },
        pull_children(owner, repo, issues.push(i)) == match issue_child(
            owner,
            repo,
            "/pulls/"@,
            "Untitled pull request"@,
            "pull request"@,
            i,
        ) {
            Some(x) => pull_children(owner, repo, issues).push(x),
            None => pull_children(owner, repo, issues),
        },
        commit_children(owner, repo, commits.push(c)) == match commit_child(owner, repo, c) {
            Some(x) => commit_children(owner, repo, commits).push(x),
            None => commit_children(owner, repo, commits),
        },
        release_children(owner, repo, releases.push(l)) == match release_child(owner, repo, l) {
            Some(x) => release_children(owner, repo, releases).push(x),
            None => release_children(owner, repo, releases),
        },
{
    assert(repos.push(r).drop_last() =~= repos);
    assert(issues.push(i).drop_last() =~= issues);
    assert(commits.push(c).drop_last() =~= commits);
    assert(releases.push(l).drop_last() =~= releases);
}

/// Where the children lead and what they are called.
#[verifier::rlimit(50)]
pub proof fn law_children_of_replies(
    owner: Seq<char>,
    repo: Seq<char>,
    r: GithubRepo,
    i: GithubIssue,
    c: GithubCommit,
    l: GithubRelease,
)
    ensures
        match text::opt_view(r.name) {
            Some(n) => if n.len() == 0 {
                repo_child(owner, r) is None
            } else {
                let x = repo_child(owner, r);
                let full = match text::opt_view(r.full_name) {
                    Some(f) => text::lower_ascii(f),
                    None => text::lower_ascii(owner + "/"@ + n),
                };
                x is Some && x.unwrap().url == "https://github.com/"@ + full && x.unwrap().title == full
            },
            None => repo_child(owner, r) is None,
        },
        match i.number {
            Some(n) => {
                let x = issue_child(owner, repo, "/issues/"@, "Untitled issue"@, "issue"@, i);
                &&& x is Some
                &&& x.unwrap().url == "https://github.com/"@ + owner + "/"@ + repo + "/issues/"@
                    + text::decimal_int(n as int)
                &&& x.unwrap().title == "#"@ + text::decimal_int(n as int) + " "@ + match text::opt_view(
                    i.title,
                ) {
                    Some(t) => t,
                    None => "Untitled issue"@,
                }
            },
            None => issue_child(owner, repo, "/issues/"@, "Untitled issue"@, "issue"@, i) is None,
        },
        match text::opt_view(c.sha) {
            Some(sha) => text::trim(sha).len() > 0 && text::opt_view(c.html_url) is None ==> {
                let x = commit_child(owner, repo, c);
                &&& x is Some
                &&& x.unwrap().url == "https://github.com/"@ + owner + "/"@ + repo + "/commit/"@ + sha
                &&& sha.len() >= 7 ==> x.unwrap().title == sha.take(7) + " "@ + commit_title(
                    text::opt_view(c.message),
                )
            },
            None => commit_child(owner, repo, c) is None,
        },
        match text::opt_view(l.tag_name) {
            Some(tag) => text::trim(tag).len() > 0 && text::opt_view(l.html_url) is None
                && text::opt_view(l.name) is None ==> {
                let x = release_child(owner, repo, l);
                &&& x is Some
                &&& x.unwrap().url == "https://github.com/"@ + owner + "/"@ + repo
                    + "/releases/tag/"@ + tag
                &&& x.unwrap().title == tag
            },
            None => release_child(owner, repo, l) is None,
        },
{
    if c.sha is Some && c.sha.unwrap()@.len() == 7 {
        assert(c.sha.unwrap()@.take(7) =~= c.sha.unwrap()@);
    }
}

/// An owner has repositories, a repository has sections, and four of these list entries; nothing
/// else on GitHub has children.
pub proof fn law_routes(o: Seq<char>, r: Seq<char>, x: Seq<char>, y: Seq<char>)
    ensures
        route_of(seq![o]) == (RouteModel::Repos { owner: o }),
        route_of(seq![o, r]) == (RouteModel::Sections { owner: o, repo: r }),
        route_of(seq![o, r, "issues"@]) == (RouteModel::Issues { owner: o, repo: r }),
        route_of(seq![o, r, "pulls"@]) == (RouteModel::Pulls { owner: o, repo: r }),
        route_of(seq![o, r, "commits"@]) == (RouteModel::Commits { owner: o, repo: r }),
        route_of(seq![o, r, "releases"@]) == (RouteModel::Releases { owner: o, repo: r }),
        x != "issues"@ && x != "pulls"@ && x != "commits"@ && x != "releases"@ ==> route_of(
            seq![o, r, x],
        ) is Nothing,
        route_of(Seq::empty()) is Nothing,
        route_of(seq![o, r, x, y]) is Nothing,
        api_path(RouteModel::Sections { owner: o, repo: r }) is None,
        api_path(RouteModel::Issues { owner: o, repo: r }) == Some(
            "/repos/"@ + o + "/"@ + r + "/issues?state=open&per_page=100"@,
        ),
        api_path(RouteModel::Pulls { owner: o, repo: r }) == Some(
            "/repos/"@ + o + "/"@ + r + "/pulls?state=open&per_page=100"@,
        ),
        api_path(RouteModel::Commits { owner: o, repo: r }) == Some(
            "/repos/"@ + o + "/"@ + r + "/commits?per_page=100"@,
        ),
        api_path(RouteModel::Releases { owner: o, repo: r }) == Some(
            "/repos/"@ + o + "/"@ + r + "/releases?per_page=100"@,
        ),
        api_path(RouteModel::Repos { owner: o }) == Some(
            "/users/"@ + o + "/repos?per_page=100&sort=updated&type=owner"@,
        ),
{
    reveal_strlit("issues");
    reveal_strlit("pulls");
    reveal_strlit("commits");
    reveal_strlit("releases");
    assert("issues"@.len() == 6 && "pulls"@.len() == 5 && "commits"@.len() == 7 && "releases"@.len()
        == 8);
}

/// A page of a list is asked for behind the query of the list, or with a query of its own.
pub proof fn law_page_paths(path: Seq<char>, page: nat)
    ensures
        path.contains('?') ==> page_path(path, page) == path + "&page="@ + text::decimal(page),
        !path.contains('?') ==> page_path(path, page) == path + "?page="@ + text::decimal(page),
{
    reveal_strlit("&");
    reveal_strlit("?");
    reveal_strlit("page=");
    reveal_strlit("&page=");
    reveal_strlit("?page=");
    assert(path + "&"@ + "page="@ + text::decimal(page) =~= path + "&page="@ + text::decimal(page));
    assert(path + "?"@ + "page="@ + text::decimal(page) =~= path + "?page="@ + text::decimal(page));
}

/// A run has to wait until fifteen seconds after the last run of the same key, and not at all
/// where there was none. Starting one notes its time and touches no other.
pub proof fn law_runs(runs: Seq<RunModel>, key: Seq<char>, now: int, i: int, other: Seq<char>, later: int)
    ensures
        (forall|k: int| 0 <= k < runs.len() ==> (#[trigger] runs[k]).key != key) ==> wait_ms(
            runs,
            key,
            now,
        ) == 0,
        0 <= i < runs.len() && runs[i].key == key && (forall|k: int|
            0 <= k < i ==> (#[trigger] runs[k]).key != key) ==> wait_ms(runs, key, now) == 15000 - (
        now - runs[i].last_ms),
        other != key ==> wait_ms(runs_after(runs, key, now), other, later) == wait_ms(
            runs,
            other,
            later,
        ),
        wait_ms(runs_after(runs, key, now), key, later) == 15000 - (later - now),
{
    let ks = run_keys(runs);
    text::lemma_position(ks, key);
    text::lemma_position(ks, other);
    match text::position(ks, key) {
        Some(k) => {
            assert(ks[k] == runs[k].key);
            if 0 <= i < runs.len() && runs[i].key == key {
                assert(ks[i] == key);
            }
        },
        None => {
            if 0 <= i < runs.len() {
                assert(ks[i] == runs[i].key);
            }
        },
    }
    let after = runs_after(runs, key, now);
    let ka = run_keys(after);
    text::lemma_position(ka, key);
    text::lemma_position(ka, other);
    match text::position(ks, key) {
        Some(k) => {
            assert(ka =~= ks);
        },
        None => {
            assert(ka =~= ks.push(key));
            if other != key {
                lemma_position_push(ks, key, other);
            }
            assert(ka[runs.len() as int] == key);
            assert forall|j: int| 0 <= j < runs.len() implies ka[j] != key by {
                assert(ks[j] != key);
            }
        },
    }
}

proof fn lemma_position_push(ks: Seq<Seq<char>>, key: Seq<char>, other: Seq<char>)
    requires
        other != key,
    ensures
        text::position(ks.push(key), other) == text::position(ks, other),
{
    assert(ks.push(key).drop_last() =~= ks);
}

/// The waiting time is told in whole seconds, rounded up.
pub proof fn law_waiting_time(wait: int)
    requires
        wait > 0,
    ensures
        exists|s: nat|
            #[trigger] text::decimal(s).len() > 0 && 1000 * s >= wait && 1000 * (s - 1) < wait
                && cooldown_text(wait) == "GitHub resolver cooldown: try again in "@ + text::decimal(s)
                + "s"@,
{
    let s = ((wait + 999) / 1000) as nat;
    text::law_decimal_is_read_back(s);
    assert(text::decimal(s).len() > 0);
}

proof fn lemma_no_char(s: Seq<char>, c: char, d: char)
    requires
        c != d,
    ensures
        !text::replace(s, seq![c], seq![d]).contains(c),
        text::replace(s, seq![c], seq![d]).len() == s.len(),
        forall|k: int|
            0 <= k < s.len() ==> #[trigger] text::replace(s, seq![c], seq![d])[k] == if s[k] == c {
                d
            } else {
                s[k]
            },
{
    lemma_replace_one(s, c, d, 0);
}

/// The thread of an import is named after the item, with colons for its slashes and question
/// marks.
pub proof fn law_import_threads(key: Seq<char>, k: int)
    ensures
        import_tag(key).len() == 7 + without_dashes(paths::display(key)).len(),
        import_tag(key).take(7) == "import:"@,
        0 <= k < without_dashes(paths::display(key)).len() ==> import_tag(key)[7 + k] == {
            let c = without_dashes(paths::display(key))[k];
            if c == '/' || c == '?' {
                ':'
            } else {
                c
            }
        },
{
    reveal_strlit("import:");
    reveal_strlit("/");
    reveal_strlit(":");
    reveal_strlit("?");
    assert("/"@ =~= seq!['/']);
    assert(":"@ =~= seq![':']);
    assert("?"@ =~= seq!['?']);
    let s = without_dashes(paths::display(key));
    lemma_no_char(s, '/', ':');
    let a = text::replace(s, "/"@, ":"@);
    lemma_no_char(a, '?', ':');
    assert(import_tag(key).take(7) =~= "import:"@);
}

/// A field counts where it has more than white space, and then it counts as it stands.
pub proof fn law_filled_fields(t: Seq<char>)
    ensures
        text::trim(t).len() > 0 ==> filled(Some(t)) == Some(t),
        text::trim(t).len() == 0 ==> filled(Some(t)) is None,
        filled(None) is None,
        or_else(Some(t), Seq::empty()) == t,
        or_else(None, t) == t,
{
}

/// What the body of an imported issue says, line by line: what it is, with its number and its
/// title, its state, its author, its labels, where it comes from, and its text behind a blank
/// line.
pub proof fn law_body_of_an_issue(i: GithubIssue, noun: Seq<char>)
    requires
        i.number is Some,
        i.title is Some,
        text::trim(i.title.unwrap()@).len() > 0,
        i.state is Some,
        text::trim(i.state.unwrap()@).len() > 0,
        i.login is Some,
        text::trim(i.login.unwrap()@).len() > 0,
        i.html_url is Some,
        text::trim(i.html_url.unwrap()@).len() > 0,
        i.body is Some,
        text::trim(i.body.unwrap()@).len() > 0,
        i.labels@.len() == 0,
    ensures
        issue_lines(i, noun).len() == 6,
        issue_lines(i, noun)[0] == noun + " #"@ + text::decimal_int(i.number.unwrap() as int) + " "@
            + i.title.unwrap()@,
        issue_lines(i, noun)[1] == "State: "@ + i.state.unwrap()@,
        issue_lines(i, noun)[2] == "Author: @"@ + i.login.unwrap()@,
        issue_lines(i, noun)[3] == "Source: "@ + i.html_url.unwrap()@,
        issue_lines(i, noun)[4].len() == 0,
        issue_lines(i, noun)[5] == i.body.unwrap()@,
{
    reveal_strlit("");
    reveal_strlit(" ");
    reveal_strlit("#");
    reveal_strlit(" #");
    assert(text::views(i.labels@).len() == 0);
    let n = text::decimal_int(i.number.unwrap() as int);
    assert(noun + " "@ + ("#"@ + n + " "@) + i.title.unwrap()@ =~= noun + " #"@ + n + " "@
        + i.title.unwrap()@);
    assert(""@ + i.body.unwrap()@ =~= i.body.unwrap()@);
}

/// The path of a page of GitHub has its segments in small letters, without the empty ones; a page
/// of another host has none.
pub proof fn law_paths_on_github(u: UrlModel, a: Seq<char>, b: Seq<char>)
    requires
        a.len() > 0,
        b.len() > 0,
        u.segments == Some(seq![a, b, Seq::<char>::empty()]),
    ensures
        u.host is None ==> segments_of(Some(u)) is None,
        segments_of(None) is None,
        u.host is Some && text::lower_ascii(u.host.unwrap()) == "github.com"@ ==> segments_of(Some(u))
            == Some(seq![text::lower_ascii(a), text::lower_ascii(b)]),
        u.host is Some && text::lower_ascii(u.host.unwrap()) != "github.com"@ ==> segments_of(Some(u))
            is None,
{
    let e = Seq::<char>::empty();
    let v = seq![a, b, e];
    assert(v.drop_last() =~= seq![a, b]);
    assert(v.last() == e);
    assert(seq![a, b].drop_last() =~= seq![a]);
    assert(seq![a, b].last() == b);
    assert(seq![a].drop_last() =~= Seq::empty());
    assert(seq![a].last() == a);
    assert(text::nonempty(seq![a].drop_last()) =~= Seq::empty());
    assert(text::nonempty(seq![a]) =~= seq![a]);
    assert(text::nonempty(seq![a, b]) =~= seq![a, b]);
    assert(text::nonempty(v) =~= seq![a, b]);
    assert(lowered_all(seq![a, b]) =~= seq![text::lower_ascii(a), text::lower_ascii(b)]);
}

/// The API is that of GitHub, unless another one is configured, which is used without slashes at
/// its end.
pub proof fn law_api_base(s: Seq<char>)
    ensures
        api_base(None) == "https://api.github.com"@,
        text::trim(s).len() == 0 ==> api_base(Some(s)) == "https://api.github.com"@,
        text::trim(s).len() > 0 ==> api_base(Some(s)) == text::trim_char_end(s, '/'),
{
    reveal_strlit("https://api.github.com");
    let b = "https://api.github.com"@;
    assert(b.last() == 'm');
    assert(text::trim_char_end(b, '/') == b);
}

/// A repository has four sections, each under its own path.
pub proof fn law_sections(o: Seq<char>, r: Seq<char>)
    ensures
        repo_sections(o, r).len() == 4,
        repo_sections(o, r)[0].url == "https://github.com/"@ + o + "/"@ + r + "/issues"@,
        repo_sections(o, r)[1].url == "https://github.com/"@ + o + "/"@ + r + "/pulls"@,
        repo_sections(o, r)[2].url == "https://github.com/"@ + o + "/"@ + r + "/commits"@,
        repo_sections(o, r)[3].url == "https://github.com/"@ + o + "/"@ + r + "/releases"@,
        forall|i: int| 0 <= i < 4 ==> (#[trigger] repo_sections(o, r)[i]).body is Some,
{
    reveal_strlit("/");
    reveal_strlit("issues");
    reveal_strlit("pulls");
    reveal_strlit("commits");
    reveal_strlit("releases");
    reveal_strlit("/issues");
    reveal_strlit("/pulls");
    reveal_strlit("/commits");
    reveal_strlit("/releases");
    let base = "https://github.com/"@ + o + "/"@ + r;
    assert(base + "/"@ + "issues"@ =~= base + "/issues"@);
    assert(base + "/"@ + "pulls"@ =~= base + "/pulls"@);
    assert(base + "/"@ + "commits"@ =~= base + "/commits"@);
    assert(base + "/"@ + "releases"@ =~= base + "/releases"@);
}

/// What the body of an imported repository says, line by line: its full name, its description and
/// its source behind blank lines, and its language.
pub proof fn law_body_of_a_repository(r: GithubRepo)
    requires
        r.full_name is Some,
        text::trim(r.full_name.unwrap()@).len() > 0,
        r.description is Some,
        text::trim(r.description.unwrap()@).len() > 0,
        r.html_url is Some,
        text::trim(r.html_url.unwrap()@).len() > 0,
        r.language is Some,
        text::trim(r.language.unwrap()@).len() > 0,
    ensures
        repo_lines(r).len() == 6,
        repo_lines(r)[0] == r.full_name.unwrap()@,
        repo_lines(r)[1].len() == 0,
        repo_lines(r)[2] == r.description.unwrap()@,
        repo_lines(r)[3].len() == 0,
        repo_lines(r)[4] == "Source: "@ + r.html_url.unwrap()@,
        repo_lines(r)[5] == "Language: "@ + r.language.unwrap()@,
{
    reveal_strlit("");
    assert(""@ + r.description.unwrap()@ =~= r.description.unwrap()@);
}

/// What the body of an imported commit says, line by line: seven characters of its hash, its
/// author, who that is on GitHub, the date, the source, and its message behind a blank line.
pub proof fn law_body_of_a_commit(c: GithubCommit)
    requires
        c.sha is Some,
        text::trim(c.sha.unwrap()@).len() > 0,
        c.author_name is Some,
        text::trim(c.author_name.unwrap()@).len() > 0,
        c.login is Some,
        text::trim(c.login.unwrap()@).len() > 0,
        c.author_date is Some,
        c.html_url is Some,
        text::trim(c.html_url.unwrap()@).len() > 0,
        c.message is Some,
    ensures
        commit_lines(c).len() == 7,
        commit_lines(c)[0] == "commit "@ + text::head(c.sha.unwrap()@, 7),
        commit_lines(c)[1] == "Author: "@ + c.author_name.unwrap()@,
        commit_lines(c)[2] == "GitHub user: @"@ + c.login.unwrap()@,
        commit_lines(c)[3] == "Date: "@ + c.author_date.unwrap()@,
        commit_lines(c)[4] == "Source: "@ + c.html_url.unwrap()@,
        commit_lines(c)[5].len() == 0,
        commit_lines(c)[6] == c.message.unwrap()@,
{
}

/// What the body of an imported release says, line by line: its name, its tag, whether it is a
/// draft or early, its author, when it came out, its source, and its text behind a blank line.
pub proof fn law_body_of_a_release(r: GithubRelease)
    requires
        r.tag_name is Some,
        text::trim(r.tag_name.unwrap()@).len() > 0,
        r.name is Some,
        text::trim(r.name.unwrap()@).len() > 0,
        r.login is None,
        r.published_at is None,
        r.html_url is Some,
        text::trim(r.html_url.unwrap()@).len() > 0,
        r.body is Some,
        text::trim(r.body.unwrap()@).len() > 0,
    ensures
        release_lines(r)[0] == "release "@ + r.name.unwrap()@,
        release_lines(r)[1] == "Tag: "@ + r.tag_name.unwrap()@,
        !r.draft && !r.prerelease ==> release_lines(r).len() == 5 && release_lines(r)[2] == "Source: "@
            + r.html_url.unwrap()@ && release_lines(r)[3].len() == 0 && release_lines(r)[4]
            == r.body.unwrap()@,
        r.draft && !r.prerelease ==> release_lines(r).len() == 6 && release_lines(r)[2]
            == "Draft: yes"@,
        !r.draft && r.prerelease ==> release_lines(r).len() == 6 && release_lines(r)[2]
            == "Prerelease: yes"@,
{
    reveal_strlit("");
    assert(""@ + r.body.unwrap()@ =~= r.body.unwrap()@);
}

/// Runs are told apart by the room and the item.
pub proof fn law_run_keys(room: Seq<char>, item: Seq<char>)
    ensures
        run_key(room, item) == "github:"@ + text::trim(room) + ":"@ + item,
{
}

/// The body of a child is made of its lines, each on a line of its own.
pub proof fn law_bodies_of_children(
    owner: Seq<char>,
    repo: Seq<char>,
    r: GithubRepo,
    i: GithubIssue,
    c: GithubCommit,
    l: GithubRelease,
)
    ensures
        repo_child(owner, r) is Some ==> repo_child(owner, r).unwrap().body == Some(
            text::join(repo_lines(r), seq!['\n']),
        ),
        i.number is Some ==> issue_child(
            owner,
            repo,
            "/issues/"@,
            "Untitled issue"@,
            "issue"@,
            i,
        ).unwrap().body == Some(text::join(issue_lines(i, "issue"@), seq!['\n'])),
        i.number is Some ==> issue_child(
            owner,
            repo,
            "/pulls/"@,
            "Untitled pull request"@,
            "pull request"@,
            i,
        ).unwrap().body == Some(text::join(issue_lines(i, "pull request"@), seq!['\n'])),
        commit_child(owner, repo, c) is Some ==> commit_child(owner, repo, c).unwrap().body == Some(
            text::join(commit_lines(c), seq!['\n']),
        ),
        release_child(owner, repo, l) is Some ==> release_child(owner, repo, l).unwrap().body == Some(
            text::join(release_lines(l), seq!['\n']),
        ),
{
    reveal_strlit("\n");
    assert("\n"@ =~= seq!['\n']);
}

} // verus!
