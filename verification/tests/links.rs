//! Paths, addresses and breadcrumbs.

use slugsocial::browse::{
    bc_path, bc_room, index_next_for_pin, item_next_for_pin, redirect_preserving_query,
    redirect_strip_trailing_slash, room_external_redirect, scoped_bc_path, scoped_bc_path_external,
    scoped_bc_path_for, GardenBrowsePath,
};
use slugsocial::external::{
    external_frame_allowed, external_resolver_controls, external_source_href,
    resolve_status_text, resolver_next_path, resolver_site, site_name, site_testid, ResolveStats,
    ResolverSite,
};
use slugsocial::garden::{
    child_depth_from_uri, garden_depth_options, garden_depth_query_value, is_valid_aspect_slug,
    item_code_label, item_display_path, item_href, login_href_with_next, parse_garden_depth,
    percent_decode_basic, GARDEN_DEPTH_ALL,
};
use slugsocial::nav::{
    canonicalize_tag, post_permalink_nav, room_id_from_route_segment, room_route_segment,
    thread_paginator, RouteContext, ScopeId, ThreadNav,
};
use slugsocial::paths::{
    canonicalize_item, repair_collapsed_http_scheme, ExternalOntologyPath, ItemId, OntologyPath,
};
use slugsocial::pin::{
    child_row_control, encode_pin_cookie_value, pin_control, pinned_item, Pin, PinControl,
    RowControl,
};
use slugsocial::state::ContentState;

// ---------------------------------------------------------------------------
// Paths
// ---------------------------------------------------------------------------

#[test]
fn external_root_and_host_paths_are_distinct() {
    let root = ExternalOntologyPath::from_input("");
    assert!(root.is_root());
    assert!(root.breadcrumb_chain().is_empty());

    let host = ExternalOntologyPath::from_input("example.com");
    assert!(!host.is_root());
    assert_eq!(host.breadcrumb_chain().len(), 1);
    assert_eq!(host.breadcrumb_chain()[0].as_str(), "https://example.com");
}

#[test]
fn external_path_keeps_each_url_segment_for_breadcrumbs() {
    let path = ExternalOntologyPath::from_input("https://example.com/a/b");
    assert_eq!(path.breadcrumb_chain().len(), 3);
    assert_eq!(path.breadcrumb_chain()[0].as_str(), "https://example.com");
    assert_eq!(path.breadcrumb_chain()[1].as_str(), "https://example.com/a");
    assert_eq!(path.breadcrumb_chain()[2].as_str(), "https://example.com/a/b");
}

#[test]
fn legacy_host_path_redirects_to_https_wire_form() {
    assert_eq!(
        ExternalOntologyPath::legacy_redirect_target("github.com/org/repo").as_deref(),
        Some("/-/https://github.com/org/repo")
    );
    assert_eq!(
        ExternalOntologyPath::legacy_redirect_target("https://github.com/org/repo").as_deref(),
        None
    );
}

#[test]
fn collapsed_https_scheme_redirects_to_repaired_canonical() {
    assert_eq!(
        ExternalOntologyPath::legacy_redirect_target("https:/github.com/org/repo").as_deref(),
        Some("/-/https://github.com/org/repo")
    );
    let repaired = ExternalOntologyPath::from_input("https:/github.com/org/repo");
    assert_eq!(repaired.as_str(), "https://github.com/org/repo");
}

#[test]
fn a_canonical_path_needs_no_redirect() {
    let target = ExternalOntologyPath::legacy_redirect_target("example.com/a").unwrap();
    let canonical = target.strip_prefix("/-/").unwrap();
    assert_eq!(ExternalOntologyPath::legacy_redirect_target(canonical), None);
    assert_eq!(ExternalOntologyPath::legacy_redirect_target(""), None);
}

#[test]
fn repair_touches_only_collapsed_schemes() {
    assert_eq!(repair_collapsed_http_scheme("https:/a.b"), "https://a.b");
    assert_eq!(repair_collapsed_http_scheme("http:/a.b"), "http://a.b");
    assert_eq!(repair_collapsed_http_scheme("https://a.b"), "https://a.b");
    assert_eq!(repair_collapsed_http_scheme("a.b"), "a.b");
}

#[test]
fn item_spellings_agree() {
    let a = ItemId::parse("~/x/luke").unwrap();
    assert_eq!(a.as_str(), "https://slug.social/~/x/luke");
    assert_eq!(a.ontology_leaf().as_str(), "https://slug.social/~/luke");
    assert_eq!(a.last_segment(), "luke");
    assert_eq!(a.parent().unwrap().as_str(), "https://slug.social/~/x");
    assert_eq!(a.display_path(), "~/x/luke");
    assert_eq!(a, ItemId::parse("https://slug.social/~/x/luke").unwrap());
    assert_eq!(ItemId::parse("~luke").unwrap().ontology_leaf(), a.ontology_leaf());
    assert!(ItemId::ontology_root().is_ontology_root());
    assert!(ItemId::parse("").is_none());
    assert_eq!(canonicalize_item("~/x/luke"), "https://slug.social/~/x/luke");
}

#[test]
fn ontology_paths_split_into_segments() {
    let p = OntologyPath::from_input("a/b");
    assert!(!p.is_root());
    assert_eq!(p.segments(), &vec!["a".to_string(), "b".to_string()]);
    assert!(OntologyPath::root().is_root());
    assert_eq!(OntologyPath::root().slug_root_href(), "/");
}

// ---------------------------------------------------------------------------
// Threads and rooms
// ---------------------------------------------------------------------------

#[test]
fn thread_url_for_post_uses_page_offset_and_fragment() {
    let nav = ThreadNav::public();
    assert_eq!(nav.thread_url_for_post("hist-test", 0), "/t/hist-test#post-0");
    assert_eq!(nav.thread_url_for_post("hist-test", 9), "/t/hist-test#post-9");
    assert_eq!(nav.thread_url_for_post("hist-test", 10), "/t/hist-test?offset=10#post-10");
    assert_eq!(nav.thread_url_for_post("hist-test", 25), "/t/hist-test?offset=20#post-25");
}

#[test]
fn room_thread_url_for_post_keeps_room_prefix() {
    let nav = ThreadNav::from_room_id("abcd123/demo").unwrap();
    assert_eq!(
        nav.thread_url_for_post("topic", 12),
        "/r/abcd123demo/t/topic?offset=10#post-12"
    );
    assert_eq!(nav.post_url("topic", 12), "/r/abcd123demo/t/topic/12");
}

#[test]
fn room_routes_read_back() {
    assert_eq!(room_route_segment("abcd123/demo").as_deref(), Some("abcd123demo"));
    assert_eq!(room_id_from_route_segment("abcd123demo").as_deref(), Some("abcd123/demo"));
    assert_eq!(room_route_segment("demo"), None);
    assert_eq!(room_id_from_route_segment("abc"), None);
    let nav = ThreadNav::from_room_id("abcd123/demo").unwrap();
    assert_eq!(nav.scope(), ScopeId::Room("abcd123/demo".to_string()));
    assert_eq!(nav.room_url(), "/r/abcd123demo");
    assert_eq!(nav.garden_root_url(), "/r/abcd123demo/~");
    assert_eq!(ThreadNav::public().scope(), ScopeId::Public);
}

#[test]
fn tags_are_canonical() {
    assert_eq!(canonicalize_tag("#Hello"), canonicalize_tag(&canonicalize_tag("#Hello")));
    let ctx = RouteContext::public();
    assert_eq!(ctx.thread_url("x"), "/t/x");
    assert!(RouteContext::from_room_id("bad").is_none());
}

#[test]
fn paginators_reach_every_page() {
    let nav = ThreadNav::public();
    let first = thread_paginator(&nav, "t", 0, 25, true);
    assert_eq!((first.first, first.last, first.total), (1, 10, 25));
    let mid = thread_paginator(&nav, "t", 10, 25, true);
    assert_eq!((mid.first, mid.last), (11, 20));
    assert!(mid.older_href.is_some());
    assert!(mid.newer_href.is_some());
    let last = thread_paginator(&nav, "t", 20, 25, false);
    assert_eq!((last.first, last.last), (21, 25));
    assert_eq!(first.older_href.is_none(), last.newer_href.is_none());
}

#[test]
fn permalinks_name_their_neighbours() {
    let nav = ThreadNav::public();
    let mid = post_permalink_nav(&nav, "t", 1, 3);
    assert_eq!(mid.prev_href.as_deref(), Some("/t/t/0"));
    assert_eq!(mid.next_href.as_deref(), Some("/t/t/2"));
    assert_eq!((mid.number, mid.total), (2, 3));
    assert_eq!(post_permalink_nav(&nav, "t", 0, 3).prev_href, None);
    assert_eq!(post_permalink_nav(&nav, "t", 2, 3).next_href, None);
}

// ---------------------------------------------------------------------------
// Depth and display
// ---------------------------------------------------------------------------

#[test]
fn parse_garden_depth_defaults_and_all() {
    assert_eq!(parse_garden_depth(""), 1);
    assert_eq!(parse_garden_depth("1"), 1);
    assert_eq!(parse_garden_depth("3"), 3);
    assert_eq!(parse_garden_depth("0"), 1);
    assert_eq!(parse_garden_depth("all"), GARDEN_DEPTH_ALL);
    assert_eq!(parse_garden_depth("∞"), GARDEN_DEPTH_ALL);
    assert_eq!(parse_garden_depth("inf"), GARDEN_DEPTH_ALL);
    assert_eq!(parse_garden_depth("%E2%88%9E"), GARDEN_DEPTH_ALL);
    assert_eq!(parse_garden_depth("nope"), 1);
}

#[test]
fn child_depth_from_uri_reads_query() {
    assert_eq!(child_depth_from_uri("/~/topic"), 1);
    assert_eq!(child_depth_from_uri("/~/topic?depth=2"), 2);
    assert_eq!(child_depth_from_uri("/~?depth=all"), GARDEN_DEPTH_ALL);
}

#[test]
fn item_display_path_emits_leaf_form() {
    assert_eq!(item_display_path("~/x/luke"), "~/luke");
    assert_eq!(item_display_path("~/luke"), "~/luke");
    assert_eq!(item_display_path("https://slug.social/~/x/luke"), "~/luke");
}

#[test]
fn depth_options_offer_the_current_one() {
    let opts = garden_depth_options(2);
    assert!(opts.contains(&("2".to_string(), "2".to_string())));
    assert!(opts.contains(&("all".to_string(), "∞".to_string())));
    assert_eq!(garden_depth_query_value(GARDEN_DEPTH_ALL), "all");
    for depth in [1usize, 2, 3, 17, GARDEN_DEPTH_ALL] {
        assert_eq!(parse_garden_depth(&garden_depth_query_value(depth)), depth);
        let value = garden_depth_query_value(depth);
        assert!(garden_depth_options(depth).iter().any(|(v, _)| *v == value));
    }
}

#[test]
fn login_returns_to_this_site() {
    assert_eq!(login_href_with_next("/t/x?a=b"), "/login?next=%2Ft%2Fx%3Fa%3Db");
    let out = login_href_with_next("https://elsewhere.example");
    let away = login_href_with_next("//elsewhere.example");
    assert!(!out.contains("elsewhere"));
    assert!(!away.contains("elsewhere"));
}

#[test]
fn percent_decoding_leaves_what_is_no_escape() {
    assert_eq!(percent_decode_basic("a%20b"), "a b");
    assert_eq!(percent_decode_basic("100%"), "100%");
    assert_eq!(percent_decode_basic("%zz"), "%zz");
    assert_eq!(percent_decode_basic("%C3%A9"), "é");
}

#[test]
fn aspect_slugs() {
    assert!(is_valid_aspect_slug("beauty"));
    assert!(is_valid_aspect_slug("a-b_2"));
    assert!(!is_valid_aspect_slug(""));
    assert!(!is_valid_aspect_slug("A b"));
}

#[test]
fn item_links() {
    assert_eq!(item_href("~/x/luke", &ThreadNav::public()), "/~/luke");
    assert_eq!(
        item_href("~/luke", &ThreadNav::from_room_id("abcd123/demo").unwrap()),
        "/r/abcd123demo/~/luke"
    );
    assert_eq!(
        item_href("https://example.com/a", &ThreadNav::public()),
        "/-/https://example.com/a"
    );
    assert_eq!(item_code_label("~/x/luke"), "~/luke");
}

// ---------------------------------------------------------------------------
// Breadcrumbs and redirects
// ---------------------------------------------------------------------------

#[test]
fn breadcrumbs_end_where_the_reader_is() {
    let crumbs = bc_path(&OntologyPath::from_input("a/b"));
    let hrefs: Vec<&str> = crumbs.iter().map(|c| c.href.as_str()).collect();
    assert_eq!(hrefs.last(), Some(&"/~/a/b"));
    assert!(crumbs.last().unwrap().current);
    assert_eq!(crumbs.iter().filter(|c| c.current).count(), 1);
}

#[test]
fn room_paths_show_each_segment() {
    let nav = ThreadNav::from_room_id("abcd123/demo").unwrap();
    let path = OntologyPath::from_input("a/b");
    let crumbs = scoped_bc_path(&path, &nav);
    let links: Vec<(&str, &str)> =
        crumbs.iter().map(|c| (c.label.as_str(), c.href.as_str())).collect();
    assert_eq!(
        links,
        vec![
            ("room:demo", "/r/abcd123demo"),
            ("~", "/r/abcd123demo/~"),
            ("a", "/r/abcd123demo/~/a"),
            ("b", "/r/abcd123demo/~/a/b"),
        ]
    );
    let public = scoped_bc_path(&path, &ThreadNav::public());
    let plain = bc_path(&path);
    assert_eq!(public.len(), plain.len());
    assert!(public.iter().zip(&plain).all(|(x, y)| x.href == y.href && x.current == y.current));
    let outside = GardenBrowsePath::External(ExternalOntologyPath::from_input("example.com"));
    assert!(outside.is_external());
    let trail = scoped_bc_path_for(&outside, &ThreadNav::public(), &Vec::new());
    assert_eq!(trail.last().unwrap().href, "/-/https://example.com");
}

#[test]
fn external_breadcrumbs_follow_the_url() {
    let path = ExternalOntologyPath::from_input("https://example.com/a");
    let crumbs = scoped_bc_path_external(&path, &ThreadNav::public());
    let hrefs: Vec<&str> = crumbs.iter().map(|c| c.href.as_str()).collect();
    assert!(hrefs.contains(&"/-/https://example.com"));
    assert!(hrefs.contains(&"/-/https://example.com/a"));
}

#[test]
fn room_breadcrumbs() {
    let nav = ThreadNav::from_room_id("abcd123/demo").unwrap();
    let crumbs = bc_room(&nav, "demo", Some("topic"), Some(3));
    let hrefs: Vec<&str> = crumbs.iter().map(|c| c.href.as_str()).collect();
    assert!(hrefs.contains(&"/r/abcd123demo"));
    assert!(hrefs.contains(&"/r/abcd123demo/t/topic"));
    assert!(crumbs.last().unwrap().current);
}

#[test]
fn redirects_keep_the_query() {
    assert_eq!(redirect_preserving_query("/~/a", Some("depth=2")), "/~/a?depth=2");
    assert_eq!(redirect_preserving_query("/~/a", None), "/~/a");
    assert_eq!(redirect_strip_trailing_slash("/~/a/", Some("x=1")), "/~/a?x=1");
    assert_eq!(redirect_strip_trailing_slash("/~/a", None), "/~/a");
    let once = redirect_strip_trailing_slash("/~/a//", None);
    assert_eq!(redirect_strip_trailing_slash(&once, None), once);
    let nav = ThreadNav::from_room_id("abcd123/demo").unwrap();
    assert_eq!(
        room_external_redirect(&nav, "/-/https://a.b", Some("d=1")),
        "/r/abcd123demo/-/https://a.b?d=1"
    );
}

#[test]
fn pinning_comes_back_to_the_page() {
    assert_eq!(index_next_for_pin("/~", Some("depth=2")), "/~?depth=2");
    assert_eq!(index_next_for_pin("/~", None), "/~");
    assert_eq!(item_next_for_pin(&ThreadNav::public(), "~/a", None), "/~/a");
}

// ---------------------------------------------------------------------------
// External pages
// ---------------------------------------------------------------------------

#[test]
fn external_source_href_maps_youtube_path_identity_back_to_watch_url() {
    assert_eq!(
        external_source_href("https://www.youtube.com/watch/v/dQw4w9WgXcQ").as_deref(),
        Some("https://www.youtube.com/watch?v=dQw4w9WgXcQ")
    );
    assert_eq!(
        external_source_href("https://github.com/sortersocial/slug").as_deref(),
        Some("https://github.com/sortersocial/slug")
    );
}

#[test]
fn external_source_href_drops_an_old_query() {
    assert_eq!(
        external_source_href("https://www.youtube.com/watch/v/a%20b?x=y").as_deref(),
        Some("https://www.youtube.com/watch?v=a%2520b")
    );
    assert_eq!(external_source_href("no url").as_deref(), Some("no url"));
    assert_eq!(
        external_source_href("https://www.youtube.com/watch/v/a#").as_deref(),
        Some("https://www.youtube.com/watch?v=a#")
    );
    let id = "x".repeat(300_000);
    assert_eq!(
        external_source_href(&format!("https://www.youtube.com/watch/v/{id}#t")),
        Some(format!("https://www.youtube.com/watch?v={id}#t"))
    );
}

#[test]
fn external_frame_allowed_skips_known_blocked_hosts() {
    assert!(!external_frame_allowed("https://github.com/sortersocial/slug"));
    assert!(external_frame_allowed("https://example.com/path"));
    assert!(!external_frame_allowed("no url"));
}

#[test]
fn resolver_status_counts_items() {
    let two = ResolveStats { imported: 2, deleted: 0, kept: 0 };
    assert!(resolve_status_text(&two, "GitHub").contains("Imported 2 GitHub items."));
    let mixed = ResolveStats { imported: 1, deleted: 2, kept: 3 };
    let text = resolve_status_text(&mixed, "GitHub");
    assert!(text.contains("Imported 1 GitHub item."));
    assert!(text.contains("Removed 2 closed/stale items."));
    assert!(text.contains("Kept 3 current."));
}

#[test]
fn resolvers_are_chosen_by_host() {
    assert!(matches!(resolver_site("github.com"), Some(ResolverSite::GitHub)));
    assert!(matches!(resolver_site("www.are.na"), Some(ResolverSite::Arena)));
    assert!(resolver_site("example.com").is_none());
    assert_eq!(site_name(ResolverSite::GitHub), "GitHub");
    assert!(!site_testid(ResolverSite::GitHub).is_empty());
    assert!(external_resolver_controls("https://github.com/o/r/issues").is_some());
    assert!(external_resolver_controls("https://example.com/a").is_none());
    assert!(resolver_next_path("/~/a").starts_with('/'));
    assert!(!resolver_next_path("https://elsewhere.example/").starts_with("https"));
}

// ---------------------------------------------------------------------------
// The pinned item
// ---------------------------------------------------------------------------

#[test]
fn a_pin_reads_back() {
    let item = ItemId::parse("~/x/a b").unwrap();
    let value = encode_pin_cookie_value("public", item.as_str());
    assert!(!value.contains(' '));
    let pin: Pin = pinned_item(&value).unwrap();
    assert_eq!(pin.room, "public");
    assert_eq!(pin.item, item);
    assert_eq!(encode_pin_cookie_value("a", "~b"), "YR9-Yg");
    assert!(pinned_item("YR9-Yg").is_some());
    assert!(pinned_item("YR9-Yg==").is_none());
    assert!(pinned_item("YR9-Yh").is_none());
    assert!(pinned_item("YR9-Y").is_none());
    assert!(pinned_item("%%%").is_none());
    assert!(pinned_item("").is_none());
}

#[test]
fn pins_offer_a_vote_on_other_items() {
    let nav = ThreadNav::public();
    let pinned = Some(Pin { room: "public".to_string(), item: ItemId::parse("~/a").unwrap() });
    assert!(matches!(pin_control(&nav, "~/a", &None), PinControl::Pin));
    assert!(matches!(pin_control(&nav, "~/a", &pinned), PinControl::Unpin));
    match pin_control(&nav, "~/b", &pinned) {
        PinControl::Vote(href) => assert!(href.starts_with("/vote?"), "{href}"),
        _ => panic!("expected a vote"),
    }
    let room = ThreadNav::from_room_id("abcd123/demo").unwrap();
    assert!(matches!(pin_control(&room, "~/b", &pinned), PinControl::Pin));
    let content = ContentState::empty();
    let b = ItemId::parse("~/b").unwrap();
    match child_row_control(&nav, &b, &pinned, &content) {
        RowControl::Vote { votes, .. } => assert_eq!(votes, 0),
        _ => panic!("expected a vote"),
    }
    let a = ItemId::parse("~/a").unwrap();
    assert!(matches!(child_row_control(&nav, &a, &pinned, &content), RowControl::PinnedHere));
    assert!(matches!(child_row_control(&nav, &a, &None, &content), RowControl::Nothing));
}
