//! The identity of GitHub items: one spelling for each URL, and what a URL in that spelling
//! names.

use vstd::prelude::*;

use crate::external::opt_parts;
use crate::github::{self, ChildModel, ResolvedChild};
use crate::outside::{self, UrlModel, UrlParts};
use crate::state;
use crate::text;

verus! {

/// Whether a resolver for GitHub serves a host.
pub fn matches_host(host: &str) -> (r: bool)
    ensures
        r == (text::lower_ascii(text::trim(host@)) == "github.com"@),
{
    let h: Vec<char> = text::lowered_ascii(&text::trimmed(&text::chars(host)));
    text::same_chars(&h, &text::chars("github.com"))
}

/// Whether a pair of a query is kept: not the tab of a page, nor what was searched for.
pub open spec fn keeps_pair(key: Seq<char>) -> bool {
    text::lower_ascii(key) != "tab"@ && text::lower_ascii(key) != "q"@
}

/// The pairs of a query that are kept.
pub open spec fn kept_pairs(v: Seq<(Seq<char>, Seq<char>)>) -> Seq<(Seq<char>, Seq<char>)>
    decreases v.len(),
{
    if v.len() == 0 {
        Seq::empty()
    } else if keeps_pair(v.last().0) {
        kept_pairs(v.drop_last()).push(v.last())
    } else {
        kept_pairs(v.drop_last())
    }
}

fn keep_pairs(v: &Vec<(String, String)>) -> (r: Vec<(String, String)>)
    ensures
        outside::pair_views(r@) == kept_pairs(outside::pair_views(v@)),
        r@.len() <= v@.len(),
{
    let ghost pv = outside::pair_views(v@);
    let mut r: Vec<(String, String)> = Vec::new();
    let mut i: usize = 0;
    assert(outside::pair_views(r@) =~= kept_pairs(pv.take(0)));
    while i < v.len()
        invariant
            i <= v.len(),
            r@.len() <= i,
            pv == outside::pair_views(v@),
            outside::pair_views(r@) == kept_pairs(pv.take(i as int)),
        decreases v.len() - i,
    {
        assert(pv.take(i + 1).drop_last() =~= pv.take(i as int));
        assert(pv.take(i + 1).last() == (v@[i as int].0@, v@[i as int].1@));
        let k: Vec<char> = text::lowered_ascii(&text::chars(v[i].0.as_str()));
        if !text::same_chars(&k, &text::chars("tab")) && !text::same_chars(&k, &text::chars("q")) {
            let ghost before = outside::pair_views(r@);
            r.push((v[i].0.clone(), v[i].1.clone()));
            assert(outside::pair_views(r@) =~= before.push(pv[i as int]));
        }
        i = i + 1;
    }
    assert(pv.take(pv.len() as int) =~= pv);
    r
}

/// A text without `.git` at its end.
pub open spec fn without_git(s: Seq<char>) -> Seq<char> {
    match text::strip_suffix(s, ".git"@) {
        Some(t) => t,
        None => s,
    }
}

fn strip_git(s: &str) -> (r: String)
    ensures
        r@ == without_git(s@),
{
    match text::without_suffix(&text::chars(s), ".git") {
        Some(t) => text::string(&t),
        None => s.to_owned(),
    }
}

/// A path without slashes at its end, down to a single one.
pub open spec fn trim_path(p: Seq<char>) -> Seq<char>
    decreases p.len(),
{
    if p.len() > 1 && p.last() == '/' {
        trim_path(p.drop_last())
    } else {
        p
    }
}

/// The path of some segments: the last without `.git`, nothing behind it.
pub open spec fn clean_path(segs: Seq<Seq<char>>) -> Seq<char> {
    if segs.len() == 0 {
        Seq::empty()
    } else {
        trim_path(
            "/"@ + text::join(
                segs.update(segs.len() - 1, without_git(segs.last())),
                "/"@,
            ),
        )
    }
}

fn path_for(segs: &Vec<String>) -> (r: String)
    ensures
        r@ == clean_path(text::views(segs@)),
{
    let ghost sv = text::views(segs@);
    assert(sv.len() == segs@.len());
    if segs.len() == 0 {
        let none: String = String::new();
        assert(none@ =~= Seq::empty());
        return none;
    }
    let mut fixed: Vec<String> = text::copies(segs);
    let n: usize = segs.len() - 1;
    let last: String = strip_git(segs[n].as_str());
    assert(sv.last() == segs@[n as int]@);
    let ghost lv = last@;
    assert(text::views(fixed@).len() == fixed@.len());
    let ghost fv = text::views(fixed@);
    fixed.set(n, last);
    assert(text::views(fixed@) =~= fv.update(n as int, lv));
    let joined: String = text::joined(&fixed, "/");
    let whole: String = text::cat("/", joined.as_str());
    let p: Vec<char> = text::chars(whole.as_str());
    let mut k: usize = p.len();
    assert(p@.take(p@.len() as int) =~= p@);
    while k > 1 && p[k - 1] == '/'
        invariant
            k <= p.len(),
            trim_path(p@) == trim_path(p@.take(k as int)),
        decreases k,
    {
        assert(p@.take(k as int).drop_last() =~= p@.take(k - 1));
        k = k - 1;
    }
    let r: Vec<char> = text::cut(&p, 0, k);
    assert(r@ =~= p@.take(k as int));
    text::string(&r)
}

/// How the URL of an item is made the one spelling of its page: text that is no URL stays, the
/// rest goes through the identity of HTTP URLs.
pub enum ItemUrl {
    AsIs(String),
    Identify(String),
}

/// The mathematical value of an [`ItemUrl`].
pub enum ItemUrlModel {
    AsIs(Seq<char>),
    Identify(Seq<char>),
}

impl View for ItemUrl {
    type V = ItemUrlModel;

    open spec fn view(&self) -> ItemUrlModel {
        match *self {
            ItemUrl::AsIs(s) => ItemUrlModel::AsIs(s@),
            ItemUrl::Identify(s) => ItemUrlModel::Identify(s@),
        }
    }
}

/// What is done to the URL of an item, given what it consists of.
pub enum ItemUrlStep {
    /// It is no URL, and stays.
    AsIs,
    /// It is not on GitHub, and goes through the identity of HTTP URLs as it is.
    Identify,
    /// It gets this path, and these pairs in place of its query.
    Rewrite { path: String, pairs: Vec<(String, String)> },
    /// It is longer than a URL that can be rewritten.
    TooLong,
}

/// The mathematical value of an [`ItemUrlStep`].
pub enum ItemUrlStepModel {
    AsIs,
    Identify,
    Rewrite { path: Seq<char>, pairs: Seq<(Seq<char>, Seq<char>)> },
    TooLong,
}

impl View for ItemUrlStep {
    type V = ItemUrlStepModel;

    open spec fn view(&self) -> ItemUrlStepModel {
        match *self {
            ItemUrlStep::AsIs => ItemUrlStepModel::AsIs,
            ItemUrlStep::Identify => ItemUrlStepModel::Identify,
            ItemUrlStep::Rewrite { path, pairs } => ItemUrlStepModel::Rewrite {
                path: path@,
                pairs: outside::pair_views(pairs@),
            },
            ItemUrlStep::TooLong => ItemUrlStepModel::TooLong,
        }
    }
}

/// The segments of a URL, none where it has no path.
pub open spec fn segments_of(u: UrlModel) -> Seq<Seq<char>> {
    match u.segments {
        Some(v) => v,
        None => Seq::empty(),
    }
}

/// What is done to the URL of an item, given what it consists of and the pairs of its query: on
/// GitHub it loses the tab and the search of a page, `.git`, and slashes at the end, unless its
/// query or its fragment lies beyond 32 bits.
pub open spec fn item_url_step(
    parts: Option<UrlModel>,
    pairs: Seq<(Seq<char>, Seq<char>)>,
) -> ItemUrlStepModel {
    match parts {
        None => ItemUrlStepModel::AsIs,
        Some(u) => if !github::is_github(u.host) {
            ItemUrlStepModel::Identify
        } else {
            let path = clean_path(segments_of(u));
            let kept = kept_pairs(pairs);
            if outside::pairs_readable(u) && outside::rewritable(u, path, kept) {
                ItemUrlStepModel::Rewrite { path, pairs: kept }
            } else {
                ItemUrlStepModel::TooLong
            }
        },
    }
}

/// The URL of an item after a step, none where it is too long.
pub open spec fn item_url_after(s: Seq<char>, step: ItemUrlStepModel) -> Option<ItemUrlModel> {
    match step {
        ItemUrlStepModel::AsIs => Some(ItemUrlModel::AsIs(s)),
        ItemUrlStepModel::Identify => Some(ItemUrlModel::Identify(s)),
        ItemUrlStepModel::Rewrite { path, pairs } => {
            let rewritten = if pairs.len() == 0 {
                outside::url_at_path(s, path)
            } else {
                outside::url_at_path_with_pairs(s, path, pairs)
            };
            match rewritten {
                Some(t) => Some(ItemUrlModel::Identify(t)),
                None => Some(ItemUrlModel::AsIs(s)),
            }
        },
        ItemUrlStepModel::TooLong => None,
    }
}

proof fn lemma_trim_path(p: Seq<char>)
    ensures
        text::has_prefix(p, trim_path(p)),
        p.len() > 0 ==> trim_path(p).len() > 0,
    decreases p.len(),
{
    if p.len() > 1 && p.last() == '/' {
        lemma_trim_path(p.drop_last());
        let t = trim_path(p.drop_last());
        assert(p.subrange(0, t.len() as int) =~= p.drop_last().subrange(0, t.len() as int));
    } else {
        assert(p.subrange(0, p.len() as int) =~= p);
    }
}

/// The cleaned path of a URL is the beginning of its path.
proof fn lemma_clean_path(u: UrlModel)
    requires
        u.segments == outside::path_pieces(u.path),
        u.path.len() == 0 || u.path[0] == '/',
    ensures
        outside::begins_path(u, clean_path(segments_of(u))),
{
    reveal_strlit("/");
    assert("/"@ =~= seq!['/']);
    let path = clean_path(segments_of(u));
    if u.path.len() > 0 {
        assert(u.path.subrange(0, 1) =~= "/"@);
        let t = u.path.skip(1);
        let segs = text::split(t, '/');
        text::lemma_split_nonempty(t, '/');
        text::law_split_join(t, '/');
        let last = without_git(segs.last());
        text::lemma_join_last(segs, last, "/"@);
        text::lemma_join_last(segs, segs.last(), "/"@);
        assert(segs.update(segs.len() - 1, segs.last()) =~= segs);
        let j = text::join(segs.update(segs.len() - 1, last), "/"@);
        assert(j.len() <= t.len() && j =~= t.take(j.len() as int));
        let whole = "/"@ + j;
        assert(whole =~= u.path.take(whole.len() as int));
        lemma_trim_path(whole);
        assert(path == trim_path(whole));
        assert(u.path.subrange(0, path.len() as int) =~= whole.subrange(0, path.len() as int));
    } else {
        assert(u.path.subrange(0, 0) =~= path);
    }
}

fn segments_or_none(u: &UrlParts) -> (r: Vec<String>)
    ensures
        text::views(r@) == segments_of(u@),
{
    match &u.segments {
        Some(v) => text::copies(v),
        None => {
            let none: Vec<String> = Vec::new();
            assert(text::views(none@) =~= Seq::empty());
            none
        },
    }
}

/// What is done to the URL of an item, given what it consists of and the pairs of its query.
pub fn item_url_for(parts: &Option<UrlParts>, pairs: &Vec<(String, String)>) -> (r: ItemUrlStep)
    ensures
        r@ == item_url_step(opt_parts(*parts), outside::pair_views(pairs@)),
{
    let u: &UrlParts = match parts {
        Some(u) => u,
        None => {
            return ItemUrlStep::AsIs;
        },
    };
    if !on_github(u) {
        return ItemUrlStep::Identify;
    }
    let path: String = path_for(&segments_or_none(u));
    let kept: Vec<(String, String)> = keep_pairs(pairs);
    if outside::can_read_pairs(u) && outside::can_rewrite(u, path.as_str(), &kept) {
        ItemUrlStep::Rewrite { path, pairs: kept }
    } else {
        ItemUrlStep::TooLong
    }
}

/// The pairs of the query of a URL, none where the text is no URL.
pub open spec fn pairs_in(s: Seq<char>) -> Seq<(Seq<char>, Seq<char>)> {
    match outside::url_pairs(s) {
        Some(v) => v,
        None => Seq::empty(),
    }
}

fn on_github(u: &UrlParts) -> (r: bool)
    ensures
        r == github::is_github(u@.host),
{
    match &u.host {
        Some(h) => text::same_chars(
            &text::lowered_ascii(&text::chars(h.as_str())),
            &text::chars("github.com"),
        ),
        None => false,
    }
}

/// The URL of an item; none where its query or its fragment lies beyond the 32 bits in which a
/// URL that is rewritten keeps such places.
pub fn normalize_github_item_url(s: &str) -> (r: Option<ItemUrl>)
    ensures
        match r {
            Some(u) => item_url_after(s@, item_url_step(outside::parsed(s@), pairs_in(s@))) == Some(
                u@,
            ),
            None => item_url_step(outside::parsed(s@), pairs_in(s@)) is TooLong,
        },
{
    let parts: Option<UrlParts> = outside::read_url(s);
    let none: Vec<(String, String)> = Vec::new();
    let pairs: Vec<(String, String)> = match &parts {
        Some(u) => if on_github(u) && outside::can_read_pairs(u) {
            match outside::read_url_pairs(s) {
                Some(v) => v,
                None => none,
            }
        } else {
            none
        },
        None => none,
    };
    let step: ItemUrlStep = item_url_for(&parts, &pairs);
    match step {
        ItemUrlStep::AsIs => Some(ItemUrl::AsIs(s.to_owned())),
        ItemUrlStep::Identify => Some(ItemUrl::Identify(s.to_owned())),
        ItemUrlStep::TooLong => None,
        ItemUrlStep::Rewrite { path, pairs } => {
            assert(outside::pair_views(pairs@).len() == pairs@.len());
            proof {
                lemma_clean_path(parts.unwrap()@);
            }
            let rewritten: Option<String> = if pairs.len() == 0 {
                assert(outside::pair_views(pairs@) =~= Seq::empty());
                outside::set_url_path(s, path.as_str())
            } else {
                outside::set_url_path_and_pairs(s, path.as_str(), &pairs)
            };
            match rewritten {
                Some(t) => Some(ItemUrl::Identify(t)),
                None => Some(ItemUrl::AsIs(s.to_owned())),
            }
        },
    }
}

/// The text behind the identity of HTTP URLs, where that knows the URL.
pub fn with_identity(u: ItemUrl, identity: Option<String>) -> (r: String)
    ensures
        r@ == match u {
            ItemUrl::AsIs(s) => s@,
            ItemUrl::Identify(s) => match identity {
                Some(t) => t@,
                None => s@,
            },
        },
{
    match u {
        ItemUrl::AsIs(s) => s,
        ItemUrl::Identify(s) => match identity {
            Some(t) => t,
            None => s,
        },
    }
}

/// Nothing of a tab or a search is left in the pairs that are kept.
pub proof fn law_kept_pairs(v: Seq<(Seq<char>, Seq<char>)>, i: int)
    requires
        0 <= i < kept_pairs(v).len(),
    ensures
        keeps_pair(kept_pairs(v)[i].0),
        v.contains(kept_pairs(v)[i]),
    decreases v.len(),
{
    let front = kept_pairs(v.drop_last());
    if i < front.len() {
        law_kept_pairs(v.drop_last(), i);
        let k = choose|k: int| 0 <= k < v.drop_last().len() && v.drop_last()[k] == front[i];
        assert(v[k] == front[i]);
    } else {
        assert(v[v.len() - 1] == kept_pairs(v)[i]);
    }
}

// ---------------------------------------------------------------------------
// Paths
// ---------------------------------------------------------------------------

/// Segments in small letters, each without `.git`.
pub open spec fn plain_segments(v: Seq<Seq<char>>) -> Seq<Seq<char>> {
    Seq::new(v.len(), |i: int| text::lower_ascii(without_git(v[i])))
}

/// The path of an item on GitHub, given what its URL consists of: over HTTPS, at least one
/// segment.
pub open spec fn path_of(parts: Option<UrlModel>) -> Option<Seq<Seq<char>>> {
    match parts {
        Some(u) => if text::lower_ascii(u.scheme) == "https"@ && github::is_github(u.host) {
            match u.segments {
                Some(v) => if v.len() > 0 {
                    Some(plain_segments(v))
                } else {
                    None
                },
                None => None,
            }
        } else {
            None
        },
        None => None,
    }
}

/// The path of an item on GitHub, given what its URL consists of.
pub fn path_from(parts: &Option<UrlParts>) -> (r: Option<Vec<String>>)
    ensures
        match r {
            Some(v) => path_of(opt_parts(*parts)) == Some(text::views(v@)),
            None => path_of(opt_parts(*parts)) is None,
        },
{
    let u: &UrlParts = match parts {
        Some(u) => u,
        None => {
            return None;
        },
    };
    let scheme: Vec<char> = text::lowered_ascii(&text::chars(u.scheme.as_str()));
    if !text::same_chars(&scheme, &text::chars("https")) || !on_github(u) {
        return None;
    }
    let segs: &Vec<String> = match &u.segments {
        Some(v) => v,
        None => {
            return None;
        },
    };
    let ghost sv = text::views(segs@);
    assert(sv.len() == segs@.len());
    if segs.len() == 0 {
        return None;
    }
    let mut r: Vec<String> = Vec::new();
    let mut i: usize = 0;
    while i < segs.len()
        invariant
            i <= segs.len(),
            r.len() == i,
            sv == text::views(segs@),
            forall|j: int|
                0 <= j < i ==> (#[trigger] r@[j])@ == text::lower_ascii(without_git(sv[j])),
        decreases segs.len() - i,
    {
        assert(sv[i as int] == segs@[i as int]@);
        let plain: String = strip_git(segs[i].as_str());
        r.push(text::string(&text::lowered_ascii(&text::chars(plain.as_str()))));
        i = i + 1;
    }
    assert(text::views(r@) =~= plain_segments(sv));
    Some(r)
}

/// The path of an item on GitHub whose URL has its one spelling.
pub fn parse_github_path(url: &str) -> (r: Option<Vec<String>>)
    ensures
        match r {
            Some(v) => path_of(outside::parsed(url@)) == Some(text::views(v@)),
            None => path_of(outside::parsed(url@)) is None,
        },
{
    let parts: Option<UrlParts> = outside::read_url(url);
    path_from(&parts)
}

/// The parts of a repository that can be browsed.
pub open spec fn structural_children(org: Seq<char>, repo: Seq<char>) -> Seq<ChildModel> {
    let base = "https://github.com/"@ + org + "/"@ + repo + "/"@;
    seq![
        ChildModel { url: base + "issues"@, title: "Issues"@, body: None },
        ChildModel { url: base + "pulls"@, title: "Pull requests"@, body: None },
        ChildModel { url: base + "commits"@, title: "Commits"@, body: None },
        ChildModel { url: base + "releases"@, title: "Releases"@, body: None },
        ChildModel { url: base + "wiki"@, title: "Wiki"@, body: None },
    ]
}

fn facet(base: &str, tail: &str, title: &str) -> (r: ResolvedChild)
    ensures
        r@ == (ChildModel { url: base@ + tail@, title: title@, body: None }),
{
    ResolvedChild { url: text::cat(base, tail), title: title.to_owned(), body: None }
}

/// The parts of a repository that can be browsed, by their URLs before these get their one
/// spelling.
pub fn structural_repo_children(org: &str, repo: &str) -> (r: Vec<ResolvedChild>)
    ensures
        state::rows(r@) == structural_children(org@, repo@),
{
    let base: String = text::cat5("https://github.com/", org, "/", repo, "/");
    let mut r: Vec<ResolvedChild> = Vec::new();
    r.push(facet(base.as_str(), "issues", "Issues"));
    r.push(facet(base.as_str(), "pulls", "Pull requests"));
    r.push(facet(base.as_str(), "commits", "Commits"));
    r.push(facet(base.as_str(), "releases", "Releases"));
    r.push(facet(base.as_str(), "wiki", "Wiki"));
    assert(state::rows(r@) =~= structural_children(org@, repo@));
    r
}

/// The item for a repository of an owner, by its URL before that gets its one spelling.
pub open spec fn listed_repo(owner: Seq<char>, r: github::GithubRepo) -> ChildModel {
    let name = github::or_else(text::opt_view(r.name), "?"@);
    let html = github::or_else(text::opt_view(r.html_url), Seq::empty());
    ChildModel {
        url: if html.len() > 0 {
            html
        } else {
            "https://github.com/"@ + owner + "/"@ + name
        },
        title: name,
        body: github::filled(text::opt_view(r.description)),
    }
}

/// The item for a repository of an owner.
pub fn repo_item(owner: &str, repo: &github::GithubRepo) -> (r: ResolvedChild)
    ensures
        r@ == listed_repo(owner@, *repo),
{
    let name: String = match &repo.name {
        Some(n) => n.clone(),
        None => "?".to_owned(),
    };
    let from_name: String = text::cat4("https://github.com/", owner, "/", name.as_str());
    let url: String = match &repo.html_url {
        Some(u) => if u.as_str().is_empty() {
            from_name
        } else {
            u.clone()
        },
        None => from_name,
    };
    let body: Option<String> = match github::github_string(&repo.description) {
        Some(d) => Some(d.to_owned()),
        None => None,
    };
    ResolvedChild { url, title: name, body }
}

/// The item for an issue, by its URL before that gets its one spelling.
pub open spec fn listed_issue(
    org: Seq<char>,
    repo: Seq<char>,
    section: Seq<char>,
    mark: Seq<char>,
    untitled: Seq<char>,
    number: nat,
    i: github::GithubIssue,
) -> ChildModel {
    let html = github::or_else(text::opt_view(i.html_url), Seq::empty());
    ChildModel {
        url: if html.len() > 0 {
            html
        } else {
            "https://github.com/"@ + org + "/"@ + repo + section + text::decimal(number)
        },
        title: mark + text::decimal(number) + " "@ + github::or_else(
            text::opt_view(i.title),
            untitled,
        ),
        body: None,
    }
}

fn item_of_issue(
    org: &str,
    repo: &str,
    section: &str,
    mark: &str,
    untitled: &str,
    number: u64,
    issue: &github::GithubIssue,
) -> (r: ResolvedChild)
    ensures
        r@ == listed_issue(org@, repo@, section@, mark@, untitled@, number as nat, *issue),
{
    let n: String = text::number(number);
    let base: String = text::cat5("https://github.com/", org, "/", repo, section);
    let from_number: String = text::cat(base.as_str(), n.as_str());
    let url: String = match &issue.html_url {
        Some(u) => if u.as_str().is_empty() {
            from_number
        } else {
            u.clone()
        },
        None => from_number,
    };
    let title: &str = match &issue.title {
        Some(t) => t.as_str(),
        None => untitled,
    };
    ResolvedChild { url, title: text::cat4(mark, n.as_str(), " ", title), body: None }
}

/// The item for an issue that a list shows under a number; none for a pull request.
pub fn issue_item(org: &str, repo: &str, number: u64, issue: &github::GithubIssue) -> (r: Option<
    ResolvedChild,
>)
    ensures
        match r {
            Some(c) => !issue.is_pull && c@ == listed_issue(
                org@,
                repo@,
                "/issues/"@,
                "#"@,
                "issue"@,
                number as nat,
                *issue,
            ),
            None => issue.is_pull,
        },
{
    if issue.is_pull {
        None
    } else {
        Some(item_of_issue(org, repo, "/issues/", "#", "issue", number, issue))
    }
}

/// The item for a pull request that a list shows under a number.
pub fn pull_item(org: &str, repo: &str, number: u64, pull: &github::GithubIssue) -> (r:
    ResolvedChild)
    ensures
        r@ == listed_issue(
            org@,
            repo@,
            "/pulls/"@,
            "PR #"@,
            "PR"@,
            number as nat,
            *pull,
        ),
{
    item_of_issue(org, repo, "/pulls/", "PR #", "PR", number, pull)
}

/// The items of the first `n` repositories of a reply, in order.
pub open spec fn listed_repos(owner: Seq<char>, v: Seq<github::GithubRepo>, n: int) -> Seq<ChildModel>
    decreases n,
{
    if n <= 0 {
        Seq::empty()
    } else {
        listed_repos(owner, v, n - 1).push(listed_repo(owner, v[n - 1]))
    }
}

/// The items of the repositories of a reply.
pub fn repo_items(owner: &str, v: &Vec<github::GithubRepo>) -> (r: Vec<ResolvedChild>)
    ensures
        state::rows(r@) == listed_repos(owner@, v@, v@.len() as int),
{
    let mut r: Vec<ResolvedChild> = Vec::new();
    let mut i: usize = 0;
    assert(state::rows(r@) =~= listed_repos(owner@, v@, 0));
    while i < v.len()
        invariant
            i <= v.len(),
            state::rows(r@) == listed_repos(owner@, v@, i as int),
        decreases v.len() - i,
    {
        let c: ResolvedChild = repo_item(owner, &v[i]);
        proof {
            state::lemma_rows_push(r@, c);
        }
        r.push(c);
        i = i + 1;
    }
    r
}

/// An issue or a pull request of a reply with the number that it is listed under.
pub struct NumberedIssue {
    pub number: Option<u64>,
    pub issue: github::GithubIssue,
}

/// The number under which an entry is listed, zero where it has none.
pub open spec fn listed_number(e: NumberedIssue) -> nat {
    match e.number {
        Some(n) => n as nat,
        None => 0,
    }
}

fn number_of(e: &NumberedIssue) -> (r: u64)
    ensures
        r == listed_number(*e),
{
    match e.number {
        Some(n) => n,
        None => 0,
    }
}

/// The items of the issues among the first `n` entries of a reply, in order, without the pull
/// requests.
pub open spec fn listed_issues(
    org: Seq<char>,
    repo: Seq<char>,
    v: Seq<NumberedIssue>,
    n: int,
) -> Seq<ChildModel>
    decreases n,
{
    if n <= 0 {
        Seq::empty()
    } else {
        let front = listed_issues(org, repo, v, n - 1);
        let e = v[n - 1];
        if e.issue.is_pull {
            front
        } else {
            front.push(
                listed_issue(org, repo, "/issues/"@, "#"@, "issue"@, listed_number(e), e.issue),
            )
        }
    }
}

/// The items of the issues of a reply.
pub fn issue_items(org: &str, repo: &str, v: &Vec<NumberedIssue>) -> (r: Vec<ResolvedChild>)
    ensures
        state::rows(r@) == listed_issues(org@, repo@, v@, v@.len() as int),
{
    let mut r: Vec<ResolvedChild> = Vec::new();
    let mut i: usize = 0;
    assert(state::rows(r@) =~= listed_issues(org@, repo@, v@, 0));
    while i < v.len()
        invariant
            i <= v.len(),
            state::rows(r@) == listed_issues(org@, repo@, v@, i as int),
        decreases v.len() - i,
    {
        match issue_item(org, repo, number_of(&v[i]), &v[i].issue) {
            Some(c) => {
                proof {
                    state::lemma_rows_push(r@, c);
                }
                r.push(c);
            },
            None => {},
        }
        i = i + 1;
    }
    r
}

/// The items of the first `n` pull requests of a reply, in order.
pub open spec fn listed_pulls(
    org: Seq<char>,
    repo: Seq<char>,
    v: Seq<NumberedIssue>,
    n: int,
) -> Seq<ChildModel>
    decreases n,
{
    if n <= 0 {
        Seq::empty()
    } else {
        listed_pulls(org, repo, v, n - 1).push(
            listed_issue(
                org,
                repo,
                "/pulls/"@,
                "PR #"@,
                "PR"@,
                listed_number(v[n - 1]),
                v[n - 1].issue,
            ),
        )
    }
}

/// The items of the pull requests of a reply.
pub fn pull_items(org: &str, repo: &str, v: &Vec<NumberedIssue>) -> (r: Vec<ResolvedChild>)
    ensures
        state::rows(r@) == listed_pulls(org@, repo@, v@, v@.len() as int),
{
    let mut r: Vec<ResolvedChild> = Vec::new();
    let mut i: usize = 0;
    assert(state::rows(r@) =~= listed_pulls(org@, repo@, v@, 0));
    while i < v.len()
        invariant
            i <= v.len(),
            state::rows(r@) == listed_pulls(org@, repo@, v@, i as int),
        decreases v.len() - i,
    {
        let c: ResolvedChild = pull_item(org, repo, number_of(&v[i]), &v[i].issue);
        proof {
            state::lemma_rows_push(r@, c);
        }
        r.push(c);
        i = i + 1;
    }
    r
}

// ---------------------------------------------------------------------------
// Listing children
// ---------------------------------------------------------------------------

/// How long a listing is kept, in milliseconds.
pub const LIST_CACHE_MS: u128 = 90_000;

/// What is asked for to list the children of an item.
#[derive(Debug, PartialEq, Eq)]
pub enum ListRoute {
    OrgRepos { org: String },
    UserRepos { user: String },
    Issues { org: String, repo: String },
    Pulls { org: String, repo: String },
}

/// The mathematical value of a [`ListRoute`].
pub enum ListModel {
    OrgRepos { org: Seq<char> },
    UserRepos { user: Seq<char> },
    Issues { org: Seq<char>, repo: Seq<char> },
    Pulls { org: Seq<char>, repo: Seq<char> },
}

impl View for ListRoute {
    type V = ListModel;

    open spec fn view(&self) -> ListModel {
        match *self {
            ListRoute::OrgRepos { org } => ListModel::OrgRepos { org: org@ },
            ListRoute::UserRepos { user } => ListModel::UserRepos { user: user@ },
            ListRoute::Issues { org, repo } => ListModel::Issues { org: org@, repo: repo@ },
            ListRoute::Pulls { org, repo } => ListModel::Pulls { org: org@, repo: repo@ },
        }
    }
}

/// How the children of an item are come by.
#[derive(Debug, PartialEq, Eq)]
pub enum ListStep {
    /// It has none.
    Nothing,
    /// As they were listed a short while ago.
    Cached,
    /// They are the parts of a repository.
    Sections { org: String, repo: String },
    /// They are asked for.
    Ask(ListRoute),
}

/// The mathematical value of a [`ListStep`].
pub enum ListStepModel {
    Nothing,
    Cached,
    Sections { org: Seq<char>, repo: Seq<char> },
    Ask(ListModel),
}

impl View for ListStep {
    type V = ListStepModel;

    open spec fn view(&self) -> ListStepModel {
        match *self {
            ListStep::Nothing => ListStepModel::Nothing,
            ListStep::Cached => ListStepModel::Cached,
            ListStep::Sections { org, repo } => ListStepModel::Sections { org: org@, repo: repo@ },
            ListStep::Ask(r) => ListStepModel::Ask(r@),
        }
    }
}

/// How the children of an item with a path are come by, given how long ago they were last
/// listed: an owner has repositories, a repository has its parts, and two of these are listed.
pub open spec fn first_listing(
    path: Option<Seq<Seq<char>>>,
    age_ms: Option<nat>,
) -> ListStepModel {
    match path {
        None => ListStepModel::Nothing,
        Some(p) => if age_ms is Some && age_ms.unwrap() < LIST_CACHE_MS {
            ListStepModel::Cached
        } else if p.len() == 1 {
            ListStepModel::Ask(ListModel::OrgRepos { org: p[0] })
        } else if p.len() == 2 {
            ListStepModel::Sections { org: p[0], repo: p[1] }
        } else if p.len() == 3 && p[2] == "issues"@ {
            ListStepModel::Ask(ListModel::Issues { org: p[0], repo: p[1] })
        } else if p.len() == 3 && p[2] == "pulls"@ {
            ListStepModel::Ask(ListModel::Pulls { org: p[0], repo: p[1] })
        } else {
            ListStepModel::Nothing
        },
    }
}

/// How the children of an item with a path are come by, given how long ago they were last
/// listed.
pub fn list_first(path: &Option<Vec<String>>, age_ms: Option<u128>) -> (r: ListStep)
    ensures
        r@ == first_listing(
            match *path {
                Some(p) => Some(text::views(p@)),
                None => None,
            },
            match age_ms {
                Some(a) => Some(a as nat),
                None => None,
            },
        ),
{
    let p: &Vec<String> = match path {
        Some(p) => p,
        None => {
            return ListStep::Nothing;
        },
    };
    match age_ms {
        Some(a) => {
            if a < LIST_CACHE_MS {
                return ListStep::Cached;
            }
        },
        None => {},
    }
    let ghost pv = text::views(p@);
    assert(pv.len() == p@.len());
    if p.len() == 1 {
        assert(pv[0] == p@[0]@);
        return ListStep::Ask(ListRoute::OrgRepos { org: p[0].clone() });
    }
    if p.len() == 2 {
        assert(pv[0] == p@[0]@ && pv[1] == p@[1]@);
        return ListStep::Sections { org: p[0].clone(), repo: p[1].clone() };
    }
    if p.len() == 3 {
        assert(pv[0] == p@[0]@ && pv[1] == p@[1]@ && pv[2] == p@[2]@);
        if text::same(p[2].as_str(), "issues") {
            return ListStep::Ask(ListRoute::Issues { org: p[0].clone(), repo: p[1].clone() });
        }
        if text::same(p[2].as_str(), "pulls") {
            return ListStep::Ask(ListRoute::Pulls { org: p[0].clone(), repo: p[1].clone() });
        }
    }
    ListStep::Nothing
}

/// The URL of a listing.
pub open spec fn listing_url(m: ListModel) -> Seq<char> {
    match m {
        ListModel::OrgRepos { org } => "https://api.github.com/orgs/"@ + org
            + "/repos?per_page=100&type=all"@,
        ListModel::UserRepos { user } => "https://api.github.com/users/"@ + user
            + "/repos?per_page=100&type=all"@,
        ListModel::Issues { org, repo } => "https://api.github.com/repos/"@ + org + "/"@ + repo
            + "/issues?state=open&per_page=50"@,
        ListModel::Pulls { org, repo } => "https://api.github.com/repos/"@ + org + "/"@ + repo
            + "/pulls?state=open&per_page=50"@,
    }
}

/// The URL of a listing.
pub fn list_url(route: &ListRoute) -> (r: String)
    ensures
        r@ == listing_url(route@),
{
    match route {
        ListRoute::OrgRepos { org } => text::cat3(
            "https://api.github.com/orgs/",
            org.as_str(),
            "/repos?per_page=100&type=all",
        ),
        ListRoute::UserRepos { user } => text::cat3(
            "https://api.github.com/users/",
            user.as_str(),
            "/repos?per_page=100&type=all",
        ),
        ListRoute::Issues { org, repo } => text::cat5(
            "https://api.github.com/repos/",
            org.as_str(),
            "/",
            repo.as_str(),
            "/issues?state=open&per_page=50",
        ),
        ListRoute::Pulls { org, repo } => text::cat5(
            "https://api.github.com/repos/",
            org.as_str(),
            "/",
            repo.as_str(),
            "/pulls?state=open&per_page=50",
        ),
    }
}

/// What the status of a reply means for a listing.
#[derive(Debug, PartialEq, Eq)]
pub enum ListReply {
    /// The reply holds the children.
    Items,
    /// Another request is made.
    Ask(ListRoute),
    /// The listing failed with a message.
    Failed(String),
}

/// The mathematical value of a [`ListReply`].
pub enum ListReplyModel {
    Items,
    Ask(ListModel),
    Failed(Seq<char>),
}

impl View for ListReply {
    type V = ListReplyModel;

    open spec fn view(&self) -> ListReplyModel {
        match *self {
            ListReply::Items => ListReplyModel::Items,
            ListReply::Ask(r) => ListReplyModel::Ask(r@),
            ListReply::Failed(t) => ListReplyModel::Failed(t@),
        }
    }
}

/// What a failed listing is called.
pub open spec fn listing_noun(m: ListModel) -> Seq<char> {
    match m {
        ListModel::OrgRepos { .. } => "org repos"@,
        ListModel::UserRepos { .. } => "user repos"@,
        ListModel::Issues { .. } => "issues"@,
        ListModel::Pulls { .. } => "pulls"@,
    }
}

/// What follows a reply with a status, which is shown as a text: where there is no organisation
/// of a name, the repositories of the user of that name are asked for.
pub open spec fn after_reply(m: ListModel, status: int, shown: Seq<char>) -> ListReplyModel {
    if m is OrgRepos && status == 404 {
        ListReplyModel::Ask(ListModel::UserRepos { user: m->OrgRepos_org })
    } else if 200 <= status < 300 {
        ListReplyModel::Items
    } else {
        ListReplyModel::Failed("GitHub "@ + listing_noun(m) + ": HTTP "@ + shown)
    }
}

/// What follows a reply with a status, which is shown as a text.
pub fn list_after(route: &ListRoute, status: u16, shown: &str) -> (r: ListReply)
    ensures
        r@ == after_reply(route@, status as int, shown@),
{
    match route {
        ListRoute::OrgRepos { org } => {
            if status == 404 {
                return ListReply::Ask(ListRoute::UserRepos { user: org.clone() });
            }
        },
        _ => {},
    }
    if 200 <= status && status < 300 {
        return ListReply::Items;
    }
    let noun: &str = match route {
        ListRoute::OrgRepos { .. } => "org repos",
        ListRoute::UserRepos { .. } => "user repos",
        ListRoute::Issues { .. } => "issues",
        ListRoute::Pulls { .. } => "pulls",
    };
    ListReply::Failed(text::cat4("GitHub ", noun, ": HTTP ", shown))
}

/// A listing makes at most two requests: what is asked for instead of an organisation is never
/// asked for again in another way.
pub proof fn law_listing_ends(m: ListModel, status: int, shown: Seq<char>, again: int, text: Seq<char>)
    requires
        after_reply(m, status, shown) is Ask,
    ensures
        after_reply(after_reply(m, status, shown)->Ask_0, again, text) !is Ask,
{
}

// ---------------------------------------------------------------------------
// Bodies
// ---------------------------------------------------------------------------

/// Where the body of an item is fetched from.
#[derive(Debug, PartialEq, Eq)]
pub enum BodyRoute {
    Issue { org: String, repo: String, number: u32 },
    Pull { org: String, repo: String, number: u32 },
}

/// Why an item has no body to fetch.
#[derive(Debug, PartialEq, Eq, Structural)]
pub enum BodyError {
    NotGithub,
    NoBody,
    BadNumber,
    Unsupported,
}

/// The message for a body that is not fetched.
pub fn body_error_text(e: &BodyError) -> (r: &'static str)
    ensures
        r@ == match *e {
            BodyError::NotGithub => "not a github.com item"@,
            BodyError::NoBody => "no body fetch for this github path"@,
            BodyError::BadNumber => "bad issue/pr number"@,
            BodyError::Unsupported => "unsupported github leaf"@,
        },
{
    match e {
        BodyError::NotGithub => "not a github.com item",
        BodyError::NoBody => "no body fetch for this github path",
        BodyError::BadNumber => "bad issue/pr number",
        BodyError::Unsupported => "unsupported github leaf",
    }
}

/// The mathematical value of a [`BodyRoute`].
pub enum BodyModel {
    Issue { org: Seq<char>, repo: Seq<char>, number: nat },
    Pull { org: Seq<char>, repo: Seq<char>, number: nat },
}

impl View for BodyRoute {
    type V = BodyModel;

    open spec fn view(&self) -> BodyModel {
        match *self {
            BodyRoute::Issue { org, repo, number } => BodyModel::Issue {
                org: org@,
                repo: repo@,
                number: number as nat,
            },
            BodyRoute::Pull { org, repo, number } => BodyModel::Pull {
                org: org@,
                repo: repo@,
                number: number as nat,
            },
        }
    }
}

/// Where the body of an item with a path is fetched from: a single issue or pull request.
pub open spec fn body_route(path: Option<Seq<Seq<char>>>) -> Result<BodyModel, BodyError> {
    match path {
        None => Err(BodyError::NotGithub),
        Some(s) => if s.len() != 4 {
            Err(BodyError::NoBody)
        } else {
            match text::parse_unsigned(s[3], u32::MAX as nat) {
                None => Err(BodyError::BadNumber),
                Some(n) => if s[2] == "issues"@ {
                    Ok(BodyModel::Issue { org: s[0], repo: s[1], number: n })
                } else if s[2] == "pulls"@ {
                    Ok(BodyModel::Pull { org: s[0], repo: s[1], number: n })
                } else {
                    Err(BodyError::Unsupported)
                },
            }
        },
    }
}

/// Where the body of an item with a path is fetched from.
pub fn fetch_route(path: &Option<Vec<String>>) -> (r: Result<BodyRoute, BodyError>)
    ensures
        ({
            let pv = match *path {
                Some(v) => Some(text::views(v@)),
                None => None,
            };
            match r {
                Ok(b) => body_route(pv) == Ok::<BodyModel, BodyError>(b@),
                Err(e) => body_route(pv) == Err::<BodyModel, BodyError>(e),
            }
        }),
{
    let segs: &Vec<String> = match path {
        Some(v) => v,
        None => {
            return Err(BodyError::NotGithub);
        },
    };
    let ghost sv = text::views(segs@);
    assert(sv.len() == segs@.len());
    if segs.len() != 4 {
        return Err(BodyError::NoBody);
    }
    assert(sv[0] == segs@[0]@ && sv[1] == segs@[1]@ && sv[2] == segs@[2]@ && sv[3] == segs@[3]@);
    let number: u32 = match text::parsed_unsigned(
        &text::chars(segs[3].as_str()),
        u32::MAX as u64,
    ) {
        Some(n) => n as u32,
        None => {
            return Err(BodyError::BadNumber);
        },
    };
    let org: String = segs[0].clone();
    let repo: String = segs[1].clone();
    if text::same(segs[2].as_str(), "issues") {
        Ok(BodyRoute::Issue { org, repo, number })
    } else if text::same(segs[2].as_str(), "pulls") {
        Ok(BodyRoute::Pull { org, repo, number })
    } else {
        Err(BodyError::Unsupported)
    }
}

/// The URL that a body is fetched from.
pub open spec fn body_source(m: BodyModel) -> Seq<char> {
    match m {
        BodyModel::Issue { org, repo, number } => "https://api.github.com/repos/"@ + org + "/"@
            + repo + "/issues/"@ + text::decimal(number),
        BodyModel::Pull { org, repo, number } => "https://api.github.com/repos/"@ + org + "/"@ + repo
            + "/pulls/"@ + text::decimal(number),
    }
}

/// The URL that a body is fetched from.
pub fn body_url(route: &BodyRoute) -> (r: String)
    ensures
        r@ == body_source(route@),
{
    match route {
        BodyRoute::Issue { org, repo, number } => {
            let base: String = text::cat5(
                "https://api.github.com/repos/",
                org.as_str(),
                "/",
                repo.as_str(),
                "/issues/",
            );
            text::cat(base.as_str(), text::number(*number as u64).as_str())
        },
        BodyRoute::Pull { org, repo, number } => {
            let base: String = text::cat5(
                "https://api.github.com/repos/",
                org.as_str(),
                "/",
                repo.as_str(),
                "/pulls/",
            );
            text::cat(base.as_str(), text::number(*number as u64).as_str())
        },
    }
}

/// What a status other than success means for a body, given as a text; none on success.
pub open spec fn body_fault(m: BodyModel, status: int, shown: Seq<char>) -> Option<Seq<char>> {
    if 200 <= status < 300 {
        None
    } else {
        match m {
            BodyModel::Issue { .. } => Some("GitHub issue: HTTP "@ + shown),
            BodyModel::Pull { .. } => Some("GitHub pull: HTTP "@ + shown),
        }
    }
}

/// The message for a body that was not fetched because of the status of the reply, which is
/// shown as a text; none where the reply holds the body.
pub fn body_status_error(route: &BodyRoute, status: u16, shown: &str) -> (r: Option<String>)
    ensures
        text::opt_view(r) == body_fault(route@, status as int, shown@),
{
    if 200 <= status && status < 300 {
        return None;
    }
    match route {
        BodyRoute::Issue { .. } => Some(text::cat("GitHub issue: HTTP ", shown)),
        BodyRoute::Pull { .. } => Some(text::cat("GitHub pull: HTTP ", shown)),
    }
}

/// The body of a fetched issue or pull request: its number, its title and its text.
pub open spec fn fetched_body(route: BodyModel, title: Option<Seq<char>>, body: Option<Seq<char>>) -> Seq<char> {
    let rest = " "@ + github::or_else(title, Seq::empty()) + "\n\n"@ + github::or_else(
        body,
        Seq::empty(),
    );
    match route {
        BodyModel::Issue { number, .. } => "#"@ + text::decimal(number) + rest,
        BodyModel::Pull { number, .. } => "PR #"@ + text::decimal(number) + rest,
    }
}

/// The body of a fetched issue or pull request.
pub fn body_from_reply(route: &BodyRoute, title: Option<&str>, body: Option<&str>) -> (r: String)
    ensures
        r@ == fetched_body(route@, text::opt_str(title), text::opt_str(body)),
{
    let t: String = match title {
        Some(t) => t.to_owned(),
        None => {
            let none: String = String::new();
            assert(none@ =~= Seq::empty());
            none
        },
    };
    let b: String = match body {
        Some(b) => b.to_owned(),
        None => {
            let none: String = String::new();
            assert(none@ =~= Seq::empty());
            none
        },
    };
    let rest: String = text::cat4(" ", t.as_str(), "\n\n", b.as_str());
    match route {
        BodyRoute::Issue { number, .. } => {
            let n: String = text::number(*number as u64);
            text::cat3("#", n.as_str(), rest.as_str())
        },
        BodyRoute::Pull { number, .. } => {
            let n: String = text::number(*number as u64);
            text::cat3("PR #", n.as_str(), rest.as_str())
        },
    }
}

/// The pairs of a query that are kept are all but the tab and the search of a page, in order.
pub proof fn law_pairs_kept_in_order(v: Seq<(Seq<char>, Seq<char>)>)
    ensures
        kept_pairs(v) == v.filter(
            |p: (Seq<char>, Seq<char>)|
                text::lower_ascii(p.0) != "tab"@ && text::lower_ascii(p.0) != "q"@,
        ),
    decreases v.len(),
{
    reveal(Seq::filter);
    if v.len() > 0 {
        law_pairs_kept_in_order(v.drop_last());
    }
    assert(kept_pairs(v) =~= v.filter(
        |p: (Seq<char>, Seq<char>)|
            text::lower_ascii(p.0) != "tab"@ && text::lower_ascii(p.0) != "q"@,
    ));
}

/// How the children of an item are come by: what was listed less than ninety seconds ago is
/// shown again; otherwise an owner's repositories are asked for, a repository has its parts, and
/// its issues and pull requests are asked for.
pub proof fn law_first_listing(o: Seq<char>, r: Seq<char>, x: Seq<char>, age: nat, p: Seq<Seq<char>>)
    ensures
        first_listing(None, Some(age)) is Nothing,
        age < 90000 ==> first_listing(Some(p), Some(age)) is Cached,
        age >= 90000 ==> first_listing(Some(p), Some(age)) == first_listing(Some(p), None),
        first_listing(Some(seq![o]), None) == ListStepModel::Ask(ListModel::OrgRepos { org: o }),
        first_listing(Some(seq![o, r]), None) == (ListStepModel::Sections { org: o, repo: r }),
        first_listing(Some(seq![o, r, "issues"@]), None) == ListStepModel::Ask(
            ListModel::Issues { org: o, repo: r },
        ),
        first_listing(Some(seq![o, r, "pulls"@]), None) == ListStepModel::Ask(
            ListModel::Pulls { org: o, repo: r },
        ),
        x != "issues"@ && x != "pulls"@ ==> first_listing(Some(seq![o, r, x]), None) is Nothing,
        p.len() > 3 ==> first_listing(Some(p), None) is Nothing,
{
    reveal_strlit("issues");
    reveal_strlit("pulls");
    assert("issues"@.len() == 6 && "pulls"@.len() == 5);
}

/// What follows a reply: the items on success, the user of the same name where there is no such
/// organisation, and otherwise what went wrong.
pub proof fn law_replies(o: Seq<char>, r: Seq<char>, status: int, shown: Seq<char>)
    ensures
        200 <= status < 300 ==> after_reply(ListModel::Issues { org: o, repo: r }, status, shown) is Items
            && after_reply(ListModel::OrgRepos { org: o }, status, shown) is Items,
        after_reply(ListModel::OrgRepos { org: o }, 404, shown) == ListReplyModel::Ask(
            ListModel::UserRepos { user: o },
        ),
        !(200 <= status < 300) ==> after_reply(
            ListModel::Issues { org: o, repo: r },
            status,
            shown,
        ) == ListReplyModel::Failed("GitHub issues: HTTP "@ + shown),
        !(200 <= status < 300) ==> after_reply(ListModel::Pulls { org: o, repo: r }, status, shown)
            == ListReplyModel::Failed("GitHub pulls: HTTP "@ + shown),
        !(200 <= status < 300) ==> after_reply(ListModel::UserRepos { user: o }, status, shown)
            == ListReplyModel::Failed("GitHub user repos: HTTP "@ + shown),
        !(200 <= status < 300) && status != 404 ==> after_reply(
            ListModel::OrgRepos { org: o },
            status,
            shown,
        ) == ListReplyModel::Failed("GitHub org repos: HTTP "@ + shown),
{
    reveal_strlit("GitHub ");
    reveal_strlit("issues");
    reveal_strlit("pulls");
    reveal_strlit("user repos");
    reveal_strlit("org repos");
    reveal_strlit(": HTTP ");
    reveal_strlit("GitHub issues: HTTP ");
    reveal_strlit("GitHub pulls: HTTP ");
    reveal_strlit("GitHub user repos: HTTP ");
    reveal_strlit("GitHub org repos: HTTP ");
    assert("GitHub "@ + "issues"@ + ": HTTP "@ + shown =~= "GitHub issues: HTTP "@ + shown);
    assert("GitHub "@ + "pulls"@ + ": HTTP "@ + shown =~= "GitHub pulls: HTTP "@ + shown);
    assert("GitHub "@ + "user repos"@ + ": HTTP "@ + shown =~= "GitHub user repos: HTTP "@ + shown);
    assert("GitHub "@ + "org repos"@ + ": HTTP "@ + shown =~= "GitHub org repos: HTTP "@ + shown);
}

/// Only a single issue or pull request has a body to fetch, and its number has to be one.
pub proof fn law_fetched_bodies(
    o: Seq<char>,
    r: Seq<char>,
    n: nat,
    p: Seq<Seq<char>>,
    title: Seq<char>,
    body: Seq<char>,
)
    requires
        n <= u32::MAX,
    ensures
        body_route(None) == Err::<BodyModel, BodyError>(BodyError::NotGithub),
        p.len() != 4 ==> body_route(Some(p)) == Err::<BodyModel, BodyError>(BodyError::NoBody),
        body_route(Some(seq![o, r, "issues"@, text::decimal(n)])) == Ok::<BodyModel, BodyError>(
            BodyModel::Issue { org: o, repo: r, number: n },
        ),
        body_route(Some(seq![o, r, "pulls"@, text::decimal(n)])) == Ok::<BodyModel, BodyError>(
            BodyModel::Pull { org: o, repo: r, number: n },
        ),
        fetched_body(BodyModel::Issue { org: o, repo: r, number: n }, Some(title), Some(body)) == "#"@
            + text::decimal(n) + " "@ + title + "\n\n"@ + body,
        fetched_body(BodyModel::Pull { org: o, repo: r, number: n }, Some(title), Some(body))
            == "PR #"@ + text::decimal(n) + " "@ + title + "\n\n"@ + body,
        body_source(BodyModel::Issue { org: o, repo: r, number: n }) == "https://api.github.com/repos/"@
            + o + "/"@ + r + "/issues/"@ + text::decimal(n),
        body_source(BodyModel::Pull { org: o, repo: r, number: n }) == "https://api.github.com/repos/"@
            + o + "/"@ + r + "/pulls/"@ + text::decimal(n),
{
    reveal_strlit("issues");
    reveal_strlit("pulls");
    assert("issues"@.len() == 6 && "pulls"@.len() == 5);
    text::law_decimal_is_read_back(n);
    assert(text::unsigned_digits(text::decimal(n)) == text::decimal(n)) by {
        assert(text::decimal(n)[0] != '+');
    }
    assert(text::parse_unsigned(text::decimal(n), u32::MAX as nat) == Some(n));
    assert(fetched_body(BodyModel::Issue { org: o, repo: r, number: n }, Some(title), Some(body))
        =~= "#"@ + text::decimal(n) + " "@ + title + "\n\n"@ + body);
    assert(fetched_body(BodyModel::Pull { org: o, repo: r, number: n }, Some(title), Some(body))
        =~= "PR #"@ + text::decimal(n) + " "@ + title + "\n\n"@ + body);
}

/// Every repository and every pull request of a reply is listed, and of its entries every issue
/// that is no pull request, in the order of the reply.
pub proof fn law_listed_entries(
    o: Seq<char>,
    r: Seq<char>,
    repos: Seq<github::GithubRepo>,
    v: Seq<NumberedIssue>,
    n: int,
)
    requires
        0 <= n,
    ensures
        listed_repos(o, repos, 0).len() == 0,
        listed_issues(o, r, v, 0).len() == 0,
        listed_pulls(o, r, v, 0).len() == 0,
        listed_repos(o, repos, n + 1) == listed_repos(o, repos, n).push(listed_repo(o, repos[n])),
        v[n].issue.is_pull ==> listed_issues(o, r, v, n + 1) == listed_issues(o, r, v, n),
        !v[n].issue.is_pull ==> listed_issues(o, r, v, n + 1).len() == listed_issues(o, r, v, n).len()
            + 1 && listed_issues(o, r, v, n + 1).drop_last() == listed_issues(o, r, v, n),
        listed_pulls(o, r, v, n + 1).len() == listed_pulls(o, r, v, n).len() + 1,
        listed_pulls(o, r, v, n + 1).drop_last() == listed_pulls(o, r, v, n),
{
    assert(listed_pulls(o, r, v, n + 1).drop_last() =~= listed_pulls(o, r, v, n));
    if !v[n].issue.is_pull {
        assert(listed_issues(o, r, v, n + 1).drop_last() =~= listed_issues(o, r, v, n));
    }
}

/// A path of GitHub loses `.git` at its end and slashes behind it.
#[verifier::rlimit(50)]
pub proof fn law_clean_paths(o: Seq<char>, r: Seq<char>)
    requires
        o.len() > 0,
        r.len() > 0,
        r.last() != '/',
        !text::has_suffix(r, ".git"@),
    ensures
        clean_path(seq![o, r]) == "/"@ + o + "/"@ + r,
        clean_path(seq![o, r + ".git"@]) == "/"@ + o + "/"@ + r,
        clean_path(seq![o, r, Seq::<char>::empty()]) == "/"@ + o + "/"@ + r,
        clean_path(Seq::empty()).len() == 0,
{
    reveal_strlit("/");
    reveal_strlit(".git");
    let e = Seq::<char>::empty();
    let a = seq![o, r];
    assert(a.update(1, without_git(a.last())) =~= a);
    text::law_join(seq![o], r, "/"@);
    text::law_join(seq![o], o, "/"@);
    assert(seq![o].push(r) =~= a);
    let p = "/"@ + o + "/"@ + r;
    assert("/"@ + text::join(a, "/"@) =~= p);
    assert(p.last() == r.last());
    assert(trim_path(p) == p);
    let b = seq![o, r + ".git"@];
    text::law_strip(".git"@, r);
    assert(b.update(1, without_git(b.last())) =~= a);
    let c = seq![o, r, e];
    assert(!text::has_suffix(e, ".git"@));
    assert(c.update(2, without_git(c.last())) =~= c);
    text::law_join(a, e, "/"@);
    assert(a.push(e) =~= c);
    let q = "/"@ + text::join(c, "/"@);
    assert(q =~= p + "/"@);
    assert(q.last() == '/');
    assert(q.drop_last() =~= p);
    assert(trim_path(q) == trim_path(p));
}

/// Only pages of GitHub are rewritten: other URLs go by their identity, and what is no URL stays.
pub proof fn law_which_urls_are_rewritten(
    s: Seq<char>,
    u: UrlModel,
    pairs: Seq<(Seq<char>, Seq<char>)>,
)
    ensures
        item_url_step(None, pairs) is AsIs,
        !github::is_github(u.host) ==> item_url_step(Some(u), pairs) is Identify,
        github::is_github(u.host) ==> item_url_step(Some(u), pairs) is Rewrite || item_url_step(
            Some(u),
            pairs,
        ) is TooLong,
        item_url_step(Some(u), pairs) is Rewrite ==> item_url_step(Some(u), pairs)->path == clean_path(
            segments_of(u),
        ) && item_url_step(Some(u), pairs)->pairs == kept_pairs(pairs),
        item_url_after(s, ItemUrlStepModel::AsIs) == Some(ItemUrlModel::AsIs(s)),
        item_url_after(s, ItemUrlStepModel::Identify) == Some(ItemUrlModel::Identify(s)),
        item_url_after(s, ItemUrlStepModel::TooLong) is None,
{
}

/// The path of an item is that of a page of GitHub over HTTPS, in small letters and without `.git`
/// in any segment.
pub proof fn law_item_paths(u: UrlModel, v: Seq<Seq<char>>, i: int)
    requires
        u.segments == Some(v),
        v.len() > 0,
    ensures
        text::lower_ascii(u.scheme) == "https"@ && github::is_github(u.host) ==> path_of(Some(u)) is Some
            && path_of(Some(u)).unwrap().len() == v.len(),
        text::lower_ascii(u.scheme) == "https"@ && github::is_github(u.host) && 0 <= i < v.len()
            && !text::has_suffix(v[i], ".git"@) ==> path_of(Some(u)).unwrap()[i] == text::lower_ascii(
            v[i],
        ),
        text::lower_ascii(u.scheme) != "https"@ || !github::is_github(u.host) ==> path_of(Some(u))
            is None,
        path_of(None) is None,
{
}

/// A repository has five parts that can be browsed.
pub proof fn law_parts_of_a_repository(o: Seq<char>, r: Seq<char>)
    ensures
        structural_children(o, r).len() == 5,
        structural_children(o, r)[0].title == "Issues"@,
        structural_children(o, r)[1].title == "Pull requests"@,
        structural_children(o, r)[2].title == "Commits"@,
        structural_children(o, r)[3].title == "Releases"@,
        structural_children(o, r)[4].title == "Wiki"@,
        structural_children(o, r)[0].url == "https://github.com/"@ + o + "/"@ + r + "/issues"@,
        structural_children(o, r)[1].url == "https://github.com/"@ + o + "/"@ + r + "/pulls"@,
        structural_children(o, r)[4].url == "https://github.com/"@ + o + "/"@ + r + "/wiki"@,
{
    reveal_strlit("/");
    reveal_strlit("issues");
    reveal_strlit("pulls");
    reveal_strlit("wiki");
    reveal_strlit("/issues");
    reveal_strlit("/pulls");
    reveal_strlit("/wiki");
    let base = "https://github.com/"@ + o + "/"@ + r;
    assert(base + "/"@ + "issues"@ =~= base + "/issues"@);
    assert(base + "/"@ + "pulls"@ =~= base + "/pulls"@);
    assert(base + "/"@ + "wiki"@ =~= base + "/wiki"@);
}

/// What is listed of an entry: the URL of its page, or one made from its number, and a title with
/// that number.
pub proof fn law_listed_issue(
    o: Seq<char>,
    r: Seq<char>,
    v: Seq<NumberedIssue>,
    n: int,
)
    requires
        0 <= n,
        !v[n].issue.is_pull,
        v[n].number is Some,
        v[n].issue.title is Some,
        v[n].issue.html_url is None,
    ensures
        ({
            let k = text::decimal(v[n].number.unwrap() as nat);
            let i = listed_issues(o, r, v, n + 1).last();
            let p = listed_pulls(o, r, v, n + 1).last();
            &&& i.url == "https://github.com/"@ + o + "/"@ + r + "/issues/"@ + k
            &&& i.title == "#"@ + k + " "@ + v[n].issue.title.unwrap()@
            &&& p.url == "https://github.com/"@ + o + "/"@ + r + "/pulls/"@ + k
            &&& p.title == "PR #"@ + k + " "@ + v[n].issue.title.unwrap()@
        }),
{
}

/// The URLs of the lists.
pub proof fn law_listing_urls(o: Seq<char>, r: Seq<char>)
    ensures
        listing_url(ListModel::OrgRepos { org: o }) == "https://api.github.com/orgs/"@ + o
            + "/repos?per_page=100&type=all"@,
        listing_url(ListModel::UserRepos { user: o }) == "https://api.github.com/users/"@ + o
            + "/repos?per_page=100&type=all"@,
        listing_url(ListModel::Issues { org: o, repo: r }) == "https://api.github.com/repos/"@ + o
            + "/"@ + r + "/issues?state=open&per_page=50"@,
        listing_url(ListModel::Pulls { org: o, repo: r }) == "https://api.github.com/repos/"@ + o
            + "/"@ + r + "/pulls?state=open&per_page=50"@,
{
}

/// A page of GitHub is rewritten to its clean path: without a query where nothing of it is kept,
/// and with the pairs that are kept otherwise. What a status means for a body is told by its kind.
pub proof fn law_rewritten_urls(
    s: Seq<char>,
    path: Seq<char>,
    pairs: Seq<(Seq<char>, Seq<char>)>,
    t: Seq<char>,
    m: BodyModel,
    status: int,
)
    ensures
        pairs.len() == 0 && outside::url_at_path(s, path) == Some(t) ==> item_url_after(
            s,
            ItemUrlStepModel::Rewrite { path, pairs },
        ) == Some(ItemUrlModel::Identify(t)),
        pairs.len() > 0 && outside::url_at_path_with_pairs(s, path, pairs) == Some(t)
            ==> item_url_after(s, ItemUrlStepModel::Rewrite { path, pairs }) == Some(
            ItemUrlModel::Identify(t),
        ),
        200 <= status < 300 ==> body_fault(m, status, t) is None,
        !(200 <= status < 300) && m is Issue ==> body_fault(m, status, t) == Some(
            "GitHub issue: HTTP "@ + t,
        ),
        !(200 <= status < 300) && m is Pull ==> body_fault(m, status, t) == Some(
            "GitHub pull: HTTP "@ + t,
        ),
{
}

} // verus!
