//! GitHub pages as items: addresses, children, bodies and the posts that import them.

use slugsocial::browse::format_garden_rank_markdown;
use slugsocial::github::{
    another_page, children_to_dsl, github_api_base, github_api_path, github_api_token,
    github_api_url, github_commit_body, github_issue_body, github_page_path, github_release_body,
    github_repo_body, github_repo_sections, github_route, github_segments, list_commits,
    list_issues, list_pulls, list_releases, list_repos, resolver_run_key, resolver_thread_tag,
    sanitize_body, start_run, writer_error, GitHubResolver, GithubCommit, GithubIssue,
    GithubRelease, GithubRepo, GithubRoute, ResolvedChild, GITHUB_MAX_PAGES, GITHUB_PAGE_SIZE,
    GITHUB_RESOLVER_COOLDOWN_MS,
};
use slugsocial::github_items::{
    body_error_text, body_from_reply, body_status_error, body_url, fetch_route, issue_item,
    issue_items, list_after, list_first, list_url, matches_host,
    normalize_github_item_url, parse_github_path, pull_item, pull_items, repo_item, repo_items,
    structural_repo_children,
    with_identity, BodyError, BodyRoute, ItemUrl, ListReply, ListRoute, ListStep,
    NumberedIssue,
};
use slugsocial::item_page::{ordinal_suffix, winner_percentile_for_group_size};
use slugsocial::paths::ItemId;
use slugsocial::state::{ChildrenRankings, RankedItem, ScopedComponent};

fn s(t: &str) -> Option<String> {
    Some(t.to_string())
}

fn issue() -> GithubIssue {
    GithubIssue {
        number: Some(12),
        title: s("Render children"),
        state: s("open"),
        login: s("octo"),
        labels: vec!["bug".to_string()],
        html_url: s("https://github.com/o/r/issues/12"),
        body: s("The issue body."),
        is_pull: false,
    }
}

fn commit() -> GithubCommit {
    GithubCommit {
        sha: s("abcdef123456"),
        message: s("Fix vote page\n\nDetails here."),
        author_name: s("Octo Dev"),
        author_date: s("2026-05-17T00:00:00Z"),
        login: s("octo"),
        html_url: s("https://github.com/o/r/commit/abcdef123456"),
    }
}

fn release() -> GithubRelease {
    GithubRelease {
        tag_name: s("v1.2.3"),
        name: s("Release 1.2.3"),
        draft: false,
        prerelease: true,
        login: s("octo"),
        published_at: None,
        html_url: s("https://github.com/o/r/releases/tag/v1.2.3"),
        body: s("Release notes."),
    }
}

fn repo() -> GithubRepo {
    GithubRepo {
        name: s("R"),
        full_name: s("o/R"),
        description: s("about"),
        html_url: s("https://github.com/o/R"),
        language: s("Rust"),
    }
}

fn pull() -> GithubIssue {
    let mut p = issue();
    p.is_pull = true;
    p
}

#[test]
fn github_segments_parse_normalized_url() {
    let item = ItemId::parse("https://github.com/Sortersocial/Slug/issues").unwrap();
    assert_eq!(
        github_segments(&item),
        Some(vec!["sortersocial".to_string(), "slug".to_string(), "issues".to_string()])
    );
}

#[test]
fn repo_sections_are_direct_children() {
    let sections = github_repo_sections("sortersocial", "slug");
    let urls: Vec<String> = sections.into_iter().map(|c| c.url).collect();
    assert!(urls.contains(&"https://github.com/sortersocial/slug/issues".to_string()));
    assert!(urls.contains(&"https://github.com/sortersocial/slug/pulls".to_string()));
}

#[test]
fn children_to_dsl_contains_item_bodies() {
    let dsl = children_to_dsl(&vec![ResolvedChild {
        url: "https://github.com/o/r/issues/1".into(),
        title: "#1 title".into(),
        body: Some("body with {braces}".into()),
    }]);
    assert!(dsl.contains("https://github.com/o/r/issues/1"));
    assert!(dsl.contains("body with (braces)"));
}

#[test]
fn children_to_dsl_preserves_fenced_json_bodies() {
    let dsl = children_to_dsl(&vec![ResolvedChild {
        url: "https://github.com/o/r/issues/1".into(),
        title: "#1 title".into(),
        body: Some("```json\n{\"test\": true}\n```".into()),
    }]);
    assert!(dsl.contains("https://github.com/o/r/issues/1 {\n```json"));
    assert!(dsl.contains("{\"test\": true}"));
    assert!(dsl.contains("```\n}\n"));
}

#[test]
fn github_issue_body_is_readable_text_not_json_dump() {
    let body = github_issue_body(&issue(), "issue");
    assert!(body.contains("issue #12 Render children"));
    assert!(body.contains("Author: @octo"));
    assert!(body.contains("The issue body."));
    assert!(!body.trim_start().starts_with("```json"));
}

#[test]
fn github_commit_and_release_bodies_are_readable() {
    assert!(github_commit_body(&commit()).contains("commit abcdef1"));
    assert!(github_commit_body(&commit()).contains("Fix vote page"));
    assert!(github_release_body(&release()).contains("release Release 1.2.3"));
    assert!(github_release_body(&release()).contains("Prerelease: yes"));
}

#[test]
fn sanitized_bodies_hold_no_braces() {
    let text = sanitize_body("  {a} }b{  ");
    assert!(!text.contains('{') && !text.contains('}'));
    assert!(text.contains("(a) )b("));
}

#[test]
fn routes_follow_the_path() {
    let segs = |t: &str| -> Vec<String> {
        t.split('/').filter(|p| !p.is_empty()).map(|p| p.to_string()).collect()
    };
    assert!(matches!(github_route(&segs("")), GithubRoute::Nothing));
    assert!(matches!(github_route(&segs("o")), GithubRoute::Repos { .. }));
    let issues = github_route(&segs("o/r/issues"));
    assert_eq!(
        github_api_path(&issues).as_deref(),
        Some("/repos/o/r/issues?state=open&per_page=100")
    );
    assert_eq!(github_api_path(&GithubRoute::Nothing), None);
}

#[test]
fn api_addresses() {
    assert_eq!(github_api_base(None), "https://api.github.com");
    assert_eq!(github_api_base(Some("https://api.test/")), "https://api.test");
    assert_eq!(github_api_token(Some("  ")), None);
    assert_eq!(github_api_token(Some("abc")).as_deref(), Some("abc"));
    assert_eq!(github_api_url("https://api.test", "/repos/o/r"), "https://api.test/repos/o/r");
    let page = github_page_path("/repos/o/r/issues?state=open", 2);
    assert_eq!(page, "/repos/o/r/issues?state=open&page=2");
    assert_eq!(github_page_path("/users/o/repos", 1), "/users/o/repos?page=1");
    assert!(another_page(1, GITHUB_PAGE_SIZE));
    assert!(!another_page(1, GITHUB_PAGE_SIZE - 1));
    assert!(!another_page(GITHUB_MAX_PAGES, GITHUB_PAGE_SIZE));
}

#[test]
fn a_resolver_reads_github_only() {
    let r = GitHubResolver::configured(Some("https://api.test"), None);
    assert_eq!(r.request_url("/x"), "https://api.test/x");
    assert!(r.token.is_none());
    assert!(r.can_resolve_children(&ItemId::parse("https://github.com/o/r").unwrap()));
    assert!(!r.can_resolve_children(&ItemId::parse("https://example.com/o/r").unwrap()));
}

#[test]
fn listed_children_have_their_addresses() {
    assert_eq!(list_repos("o", &vec![repo()])[0].url, "https://github.com/o/r");
    assert!(github_repo_body(&repo()).contains("about"));
    let both = vec![issue(), pull()];
    let issues = list_issues("o", "r", &both);
    assert_eq!(issues.len(), 1);
    assert_eq!(issues[0].url, "https://github.com/o/r/issues/12");
    assert_eq!(issues[0].title, "#12 Render children");
    let pulls = list_pulls("o", "r", &vec![pull()]);
    assert!(pulls[0].url.starts_with("https://github.com/o/r/pull"));
    let commits = list_commits("o", "r", &vec![commit()]);
    assert_eq!(commits[0].url, "https://github.com/o/r/commit/abcdef123456");
    assert_eq!(list_releases("o", "r", &vec![release()]).len(), 1);
    let mut unnumbered = issue();
    unnumbered.number = None;
    assert!(list_issues("o", "r", &vec![unnumbered]).is_empty());
}

#[test]
fn an_imported_item_waits_for_its_cooldown() {
    let item = ItemId::parse("https://github.com/o/r").unwrap();
    let key = resolver_run_key("public", &item);
    let mut runs = Vec::new();
    assert!(start_run(&mut runs, &key, 1_000).is_ok());
    let soon = start_run(&mut runs, &key, 1_000 + GITHUB_RESOLVER_COOLDOWN_MS - 1);
    assert!(soon.is_err());
    assert!(start_run(&mut runs, &key, 1_000 + GITHUB_RESOLVER_COOLDOWN_MS).is_ok());
    let other = resolver_run_key("abcd123/demo", &item);
    assert!(start_run(&mut runs, &other, 1_000).is_ok());
    assert!(resolver_thread_tag(&item).starts_with("import:"));
    assert_eq!(writer_error("bad", Some("try")), "bad: try");
    assert_eq!(writer_error("bad", None), "bad");
}

// ---------------------------------------------------------------------------
// Item addresses
// ---------------------------------------------------------------------------

#[test]
fn github_item_urls_are_normalized() {
    assert!(matches_host("github.com"));
    assert!(!matches_host("example.com"));
    let normal = |t: &str| with_identity(normalize_github_item_url(t).unwrap(), None);
    assert_eq!(
        normal("https://github.com/O/R/issues/1?tab=x#frag"),
        "https://github.com/O/R/issues/1#frag"
    );
    assert_eq!(normal("https://github.com/o/r.git"), "https://github.com/o/r");
    assert_eq!(
        normal("https://github.com/o/r/?Tab=x&a=b%20c&Q=z&d=e"),
        "https://github.com/o/r?a=b+c&d=e"
    );
    assert_eq!(normal("https://example.com/o/r/?tab=x"), "https://example.com/o/r/?tab=x");
    match normalize_github_item_url("not a url") {
        Some(ItemUrl::AsIs(t)) => assert_eq!(t, "not a url"),
        _ => panic!("expected the text as it is"),
    }
    assert_eq!(
        with_identity(ItemUrl::Identify("a".to_string()), Some("b".to_string())),
        "b"
    );
}

#[test]
fn github_paths_split() {
    assert_eq!(
        parse_github_path("https://github.com/o/r/issues/3"),
        Some(vec!["o".to_string(), "r".to_string(), "issues".to_string(), "3".to_string()])
    );
    assert_eq!(parse_github_path("https://example.com/o"), None);
    let kids = structural_repo_children("o", "r");
    assert!(kids.iter().any(|k| k.url == "https://github.com/o/r/issues"));
}

#[test]
fn body_routes_and_their_errors() {
    let path = |t: &str| parse_github_path(t);
    assert!(matches!(
        fetch_route(&path("https://github.com/o/r/issues/3")),
        Ok(BodyRoute::Issue { number: 3, .. })
    ));
    assert!(matches!(fetch_route(&None), Err(BodyError::NotGithub)));
    assert!(matches!(
        fetch_route(&path("https://github.com/o/r/issues/x")),
        Err(BodyError::BadNumber)
    ));
    for e in [BodyError::NotGithub, BodyError::NoBody, BodyError::BadNumber, BodyError::Unsupported] {
        assert!(!body_error_text(&e).is_empty());
    }
    let route = fetch_route(&path("https://github.com/o/r/issues/3")).unwrap();
    let text = body_from_reply(&route, Some("Title"), Some("Body"));
    assert!(text.contains("Title") && text.contains("Body"));
}

#[test]
fn listings_follow_the_path_and_the_status() {
    let path = |t: &str| parse_github_path(t);
    assert_eq!(list_first(&None, None), ListStep::Nothing);
    let owner = path("https://github.com/O");
    assert_eq!(list_first(&owner, Some(89_999)), ListStep::Cached);
    let org = ListRoute::OrgRepos { org: "o".to_string() };
    assert_eq!(list_first(&owner, Some(90_000)), ListStep::Ask(ListRoute::OrgRepos { org: "o".to_string() }));
    assert_eq!(list_url(&org), "https://api.github.com/orgs/o/repos?per_page=100&type=all");
    let user = ListRoute::UserRepos { user: "o".to_string() };
    assert_eq!(
        list_after(&org, 404, "404 Not Found"),
        ListReply::Ask(ListRoute::UserRepos { user: "o".to_string() })
    );
    assert_eq!(list_url(&user), "https://api.github.com/users/o/repos?per_page=100&type=all");
    assert_eq!(
        list_after(&user, 404, "404 Not Found"),
        ListReply::Failed("GitHub user repos: HTTP 404 Not Found".to_string())
    );
    assert_eq!(list_after(&org, 200, "200 OK"), ListReply::Items);
    assert_eq!(
        list_first(&path("https://github.com/o/r"), None),
        ListStep::Sections { org: "o".to_string(), repo: "r".to_string() }
    );
    match list_first(&path("https://github.com/o/r/pulls"), None) {
        ListStep::Ask(r) => {
            assert_eq!(list_url(&r), "https://api.github.com/repos/o/r/pulls?state=open&per_page=50");
            assert_eq!(list_after(&r, 500, "500"), ListReply::Failed("GitHub pulls: HTTP 500".to_string()));
        }
        other => panic!("{other:?}"),
    }
    assert_eq!(list_first(&path("https://github.com/o/r/wiki"), None), ListStep::Nothing);
    assert_eq!(list_first(&path("https://github.com/o/r/issues/1"), None), ListStep::Nothing);
}

#[test]
fn long_urls_are_rewritten() {
    let normal = |t: &str| with_identity(normalize_github_item_url(t).unwrap(), None);
    let pairs: Vec<String> = (0..2_000).map(|k| format!("k{k}=v")).collect();
    let many = format!("https://github.com/o/r/?tab=x&{}#f", pairs.join("&"));
    assert_eq!(normal(&many), format!("https://github.com/o/r?{}#f", pairs.join("&")));
    let value = "x".repeat(300_000);
    assert_eq!(
        normal(&format!("https://github.com/o/r?q=z&a={value}")),
        format!("https://github.com/o/r?a={value}")
    );
    assert_eq!(normal("foo://github.com?tab=x"), "foo://github.com");
    assert_eq!(normal("https://github.com/o/..git"), "https://github.com/o/");
}

#[test]
fn bodies_are_fetched_by_their_routes() {
    let route = fetch_route(&parse_github_path("https://github.com/O/R/pulls/7")).unwrap();
    assert_eq!(body_url(&route), "https://api.github.com/repos/o/r/pulls/7");
    assert_eq!(body_status_error(&route, 200, "200 OK"), None);
    assert_eq!(
        body_status_error(&route, 404, "404 Not Found").as_deref(),
        Some("GitHub pull: HTTP 404 Not Found")
    );
    let issue = fetch_route(&parse_github_path("https://github.com/o/r/issues/3")).unwrap();
    assert_eq!(body_url(&issue), "https://api.github.com/repos/o/r/issues/3");
    assert_eq!(body_status_error(&issue, 500, "500").as_deref(), Some("GitHub issue: HTTP 500"));
    assert_eq!(body_from_reply(&issue, Some("T"), Some("B")), "#3 T\n\nB");
    assert_eq!(body_from_reply(&route, None, None), "PR #7 \n\n");
}

#[test]
fn replies_are_listed_in_order() {
    let entry = |number: Option<u64>, is_pull: bool| {
        let mut i = issue();
        i.html_url = None;
        i.is_pull = is_pull;
        NumberedIssue { number, issue: i }
    };
    let entries = vec![entry(Some(u64::MAX), false), entry(Some(2), true), entry(None, false)];
    let urls: Vec<String> = issue_items("o", "r", &entries).into_iter().map(|c| c.url).collect();
    assert_eq!(
        urls,
        vec![
            "https://github.com/o/r/issues/18446744073709551615",
            "https://github.com/o/r/issues/0",
        ]
    );
    let titles: Vec<String> = pull_items("o", "r", &entries).into_iter().map(|c| c.title).collect();
    assert_eq!(titles[1], "PR #2 Render children");
    assert_eq!(titles.len(), 3);
    let repos = repo_items("o", &vec![repo(), repo()]);
    assert_eq!(repos.len(), 2);
    assert_eq!(repos[0].title, "R");
    assert_eq!(repos[0].body.as_deref(), Some("about"));
}

#[test]
fn items_of_replies() {
    assert_eq!(issue_item("o", "r", 12, &issue()).unwrap().url, "https://github.com/o/r/issues/12");
    assert!(issue_item("o", "r", 12, &pull()).is_none());
    assert!(pull_item("o", "r", 12, &pull()).url.contains("/12"));
    assert!(repo_item("o", &repo()).url == "https://github.com/o/R");
}

// ---------------------------------------------------------------------------
// Rankings as text
// ---------------------------------------------------------------------------

fn ranked(item: &str, score: &str) -> RankedItem {
    RankedItem { item: ItemId::parse(item).unwrap(), score: score.to_string() }
}

#[test]
fn markdown_single_component_and_unranked() {
    let rankings = ChildrenRankings {
        component_rankings: vec![ScopedComponent {
            pairs: 1,
            ranked: vec![ranked("~/a", "0.9"), ranked("~/b", "0.1")],
        }],
        unranked_items: vec![ItemId::parse("~/c").unwrap()],
    };
    assert_eq!(format_garden_rank_markdown(&rankings), "1. ~/a\n2. ~/b\n\n- ~/c\n");
}

#[test]
fn markdown_multi_component_headers() {
    let rankings = ChildrenRankings {
        component_rankings: vec![
            ScopedComponent { pairs: 1, ranked: vec![ranked("~/a", "1.0")] },
            ScopedComponent { pairs: 1, ranked: vec![ranked("~/b", "1.0")] },
        ],
        unranked_items: vec![],
    };
    assert_eq!(
        format_garden_rank_markdown(&rankings),
        "### ordering 1\n\n1. ~/a\n\n### ordering 2\n\n1. ~/b\n"
    );
}

#[test]
fn ordinal_suffix_handles_teens_and_units() {
    assert_eq!(ordinal_suffix(1), "st");
    assert_eq!(ordinal_suffix(2), "nd");
    assert_eq!(ordinal_suffix(3), "rd");
    assert_eq!(ordinal_suffix(4), "th");
    assert_eq!(ordinal_suffix(11), "th");
    assert_eq!(ordinal_suffix(12), "th");
    assert_eq!(ordinal_suffix(13), "th");
    assert_eq!(ordinal_suffix(21), "st");
    assert_eq!(ordinal_suffix(99), "th");
}

#[test]
fn winner_percentile_matches_group_size() {
    assert_eq!(winner_percentile_for_group_size(1), None);
    assert_eq!(winner_percentile_for_group_size(2), Some(50));
    assert_eq!(winner_percentile_for_group_size(5), Some(80));
    assert_eq!(winner_percentile_for_group_size(100), Some(99));
}
