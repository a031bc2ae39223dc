//! Search, snippets, markup, scripts, live topics and names.

use slugsocial::identity::{agent_from, parse_agent, parse_username, validate_username_naked};
use slugsocial::js::{
    garden_ui_fetch_onclick, graduate_onclick, js_string_literal, thread_ui_fetch_onclick, JsBuilder,
};
use slugsocial::live::{
    snippet_allowed, subscriber_topics_garden_item, subscriber_topics_public_garden_root,
    subscriber_topics_public_thread, subscriber_topics_room_garden_root, subscriber_topics_room_thread, topics_from_legacy_sse_path, wants_event_stream, JsSnippet,
    JsSnippetAudience, LiveTopic,
};
use slugsocial::markup::{
    actor_label, authorship_address, cli_copy_script, escape_html, extract_embed_frames,
    linkify_slugs, linkify_slugs_with_prefix, profile_href, recency_class,
};
use slugsocial::nav::ScopeId;
use slugsocial::pages::{bc_threads, connector_links, theme_for_file, Theme};
use slugsocial::paths::ItemId;
use slugsocial::search::{
    post_link, search, search_request, thread_result, tokenize, SearchQuery, SEARCH_LIMIT,
};
use slugsocial::snippet::highlight_snippet;
use slugsocial::state::{
    ForumThread, Grant, Ingest, ItemBody, ReducerState, Room, ThreadCapability, ThreadPosts,
};
use slugsocial::text::white;
use slugsocial::ui_action::{
    default_garden_rank_depth, default_ui_form_action, missing_rpc_text, posted_where_it_says,
    split_ui_form, UI_RPC_FIELD,
};

const ROOM: &str = "abcd123/demo";

fn state() -> ReducerState {
    let mut s = ReducerState::empty();
    let cat = ItemId::parse("~/cat").unwrap();
    s.public_content.items.push(cat.clone());
    s.public_content.item_bodies.push(ItemBody { item: cat, body: "A Furry animal".to_string() });
    s.public_content.items.push(ItemId::parse("~/dog").unwrap());
    s.rooms.push(Room { id: ROOM.to_string(), created_ts: 1 });
    s.grants.push(Grant {
        room: ROOM.to_string(),
        username: "alice".to_string(),
        caps: vec![ThreadCapability::View],
    });
    for (scope, tag, room, raw, id) in [
        (ScopeId::Public, "cats", "public", "My cat is <furry>", "p0"),
        (ScopeId::Room(ROOM.to_string()), "plots", ROOM, "a secret cat plan", "p1"),
    ] {
        s.forum_threads.push(ForumThread {
            scope: scope.copy(),
            tag: tag.to_string(),
            last_activity_ts: 4,
            last_actor: "alice".to_string(),
        });
        s.ingests.push(Ingest {
            ts: 4,
            id: id.to_string(),
            raw: raw.to_string(),
            principal: "alice".to_string(),
            delegate: None,
            room_id: room.to_string(),
            thread_tag: tag.to_string(),
        });
        s.thread_posts.push(ThreadPosts {
            scope,
            tag: tag.to_string(),
            ids: vec![id.to_string()],
        });
    }
    s
}

// ---------------------------------------------------------------------------
// Search
// ---------------------------------------------------------------------------

#[test]
fn queries_are_split_into_lowered_words() {
    assert_eq!(tokenize("  Furry  CAT "), vec!["furry", "cat"]);
    assert!(tokenize("   ").is_empty());
}

#[test]
fn search_finds_items_threads_and_posts() {
    let s = state();
    let r = search(&s, "CAT", SEARCH_LIMIT, None);
    assert_eq!(r.items.len(), 1);
    assert!(r.items[0].path.contains("cat"));
    assert_eq!(r.threads.len(), 1);
    assert_eq!(r.threads[0].tag, "cats");
    assert_eq!(r.posts.len(), 1);
    assert_eq!(r.posts[0].text, "My cat is <furry>");
    let none = search(&s, "zebra", SEARCH_LIMIT, None);
    assert!(none.items.is_empty() && none.threads.is_empty() && none.posts.is_empty());
}

#[test]
fn search_keeps_rooms_to_their_members() {
    let s = state();
    let anon = search(&s, "secret", SEARCH_LIMIT, None);
    assert!(anon.posts.is_empty());
    let alice = search(&s, "secret", SEARCH_LIMIT, Some("alice"));
    assert_eq!(alice.posts.len(), 1);
}

#[test]
fn empty_requests_find_nothing() {
    let s = state();
    let r = search_request(&s, &SearchQuery { q: None }, None);
    assert!(r.items.is_empty() && r.threads.is_empty() && r.posts.is_empty());
    let blank = search_request(&s, &SearchQuery { q: Some("  ".to_string()) }, None);
    assert!(blank.items.is_empty());
    let hit = search_request(&s, &SearchQuery { q: Some("furry".to_string()) }, None);
    assert_eq!(hit.items.len(), 1);
}

#[test]
fn search_is_limited() {
    let mut s = state();
    for k in 0..9 {
        s.public_content.items.push(ItemId::parse(&format!("~/cat{k}")).unwrap());
    }
    assert_eq!(search(&s, "cat", 5, None).items.len(), 5);
}

#[test]
fn search_rows_link_to_their_pages() {
    assert_eq!(post_link("#cats").href, "/t/cats");
    assert_eq!(post_link("abcd123/demo/#plots").href, "/r/abcd123demo/t/plots");
    assert_eq!(post_link("cats").href, "/");
    let s = state();
    let r = search(&s, "cat", SEARCH_LIMIT, None);
    let row = thread_result(&r.threads[0], &vec!["cat".to_string()]);
    assert_eq!(row.href, "/t/cats");
}

#[test]
fn snippets_mark_words_and_escape_the_rest() {
    let words = vec!["furry".to_string()];
    let out = highlight_snippet("My cat is <Furry> & old", &words, 200).unwrap();
    assert!(out.contains("<mark>Furry</mark>"), "{out}");
    assert!(out.contains("&lt;") && out.contains("&gt;") && out.contains("&amp;"), "{out}");
    let long = format!("{} needle {}", "é".repeat(300), "x".repeat(300));
    let cut = highlight_snippet(&long, &vec!["needle".to_string()], 80).unwrap();
    assert!(cut.contains("<mark>needle</mark>"), "{cut}");
    assert!(cut.len() < long.len());
}

// ---------------------------------------------------------------------------
// Markup
// ---------------------------------------------------------------------------

#[test]
fn markup_is_escaped() {
    assert_eq!(escape_html("<a href=\"x\">&'"), "&lt;a href=&quot;x&quot;&gt;&amp;'");
    assert_eq!(escape_html("plain"), "plain");
}

#[test]
fn slugs_become_links() {
    let out = linkify_slugs("see ~/cat <b>");
    assert!(out.contains("href=\"/~/cat\""), "{out}");
    assert!(!out.contains("<b>"), "{out}");
    let room = linkify_slugs_with_prefix("see ~/cat", "/r/abcd123demo/~");
    assert!(room.contains("/r/abcd123demo/~/cat"), "{room}");
}

#[test]
fn people_have_labels() {
    assert!(profile_href("alice").contains("alice"));
    assert!(actor_label("a/b").contains("a/b"));
    assert!(authorship_address("alice", &None).contains("alice"));
    assert!(authorship_address("alice", &Some("bot".to_string())).contains("bot"));
    assert_ne!(recency_class(10_000_000_000, 0), recency_class(10_000_000_000, 9_999_999_999));
}

#[test]
fn media_links_become_frames() {
    let frames = extract_embed_frames("watch https://www.youtube.com/watch?v=dQw4w9WgXcQ now");
    assert_eq!(frames.len(), 1);
    assert!(frames[0].src.contains("dQw4w9WgXcQ"));
    let song = extract_embed_frames("https://open.spotify.com/track/4uLU6hMCjMI75M1A2tKUQC");
    assert_eq!(song.len(), 1);
    assert!(extract_embed_frames("nothing here").is_empty());
}

// ---------------------------------------------------------------------------
// Scripts
// ---------------------------------------------------------------------------

#[test]
fn script_literals_are_quoted() {
    assert_eq!(js_string_literal("a\"b\\c\n"), "\"a\\\"b\\\\c\\n\"");
    assert_eq!(js_string_literal("é\u{1}"), "\"é\\u0001\"");
    assert!(cli_copy_script("slug \"x\"").contains("slug"));
}

#[test]
fn scripts_are_built_in_order() {
    let js = JsBuilder::new()
        .id("a")
        .morph("<p>one</p>")
        .qs("#b")
        .reset()
        .redirect("/t/x")
        .build();
    let one = js.find("<p>one").unwrap();
    let two = js.find("reset").unwrap();
    let three = js.find("/t/x").unwrap();
    assert!(one < two && two < three, "{js}");
    let inner = JsBuilder::new().redirect("/inner");
    let guarded = JsBuilder::new().if_current_path_matches("/here", inner).build();
    assert!(guarded.contains("/here") && guarded.contains("/inner"));
    assert!(thread_ui_fetch_onclick("{\"a\":1}").contains("/ui"));
    assert!(graduate_onclick("t", "{}").contains('t'));
}

#[test]
fn snippets_have_their_exact_texts() {
    assert_eq!(
        JsBuilder::new().morph_selector("#a", "<b>").build(),
        "var __slugEl = document.querySelector(\"#a\"); if (__slugEl) { Idiomorph.morph(__slugEl, \"<b>\"); }"
    );
    assert_eq!(
        JsBuilder::new().qs("#a").morph_inner("x").build(),
        "var __slugTarget = document.querySelector(\"#a\"); if (__slugTarget) { Idiomorph.morph(__slugTarget, \"x\", {morphStyle: 'innerHTML'}); }"
    );
    let inner = JsBuilder::new().redirect("/in");
    assert_eq!(
        JsBuilder::new().if_current_path_not_matches("/p", inner).build(),
        "var __slugHere = window.location.pathname + window.location.search; var __slugPath = \"/p\"; if (!(__slugHere === __slugPath || __slugHere.indexOf(__slugPath + '?') === 0)) { window.location = \"/in\"; }"
    );
    assert_eq!(
        garden_ui_fetch_onclick("{}"),
        "fetch('/ui',{method:'POST',headers:{'Content-Type':'application/x-www-form-urlencoded'},body:new URLSearchParams({__rpc__:\"{}\"}).toString(),credentials:'same-origin'}).then(r=>r.text()).then(eval);return false"
    );
}

// ---------------------------------------------------------------------------
// Live pages
// ---------------------------------------------------------------------------

#[test]
fn garden_roots_have_one_topic() {
    let public = subscriber_topics_public_garden_root();
    assert_eq!(public.len(), 1);
    assert!(public[0].same(&LiveTopic::PublicGardenRoot));
    let room = subscriber_topics_room_garden_root(ROOM);
    assert_eq!(room.len(), 1);
    assert!(room[0].same(&LiveTopic::RoomGardenRoot { room_id: ROOM.to_string() }));
    assert!(!room[0].same(&LiveTopic::RoomGardenRoot { room_id: "other/demo".to_string() }));
}

#[test]
fn private_topics_reach_members_only() {
    let s = state();
    let secret = JsSnippet {
        topics: subscriber_topics_room_thread(ROOM, "plots"),
        audience: JsSnippetAudience::RoomViewers(ROOM.to_string()),
        code: "x".to_string(),
    };
    let subs = subscriber_topics_room_thread(ROOM, "plots");
    assert!(snippet_allowed(&secret, &subs, Some("alice"), &s));
    assert!(!snippet_allowed(&secret, &subs, Some("bob"), &s));
    assert!(!snippet_allowed(&secret, &subs, None, &s));
    let open = JsSnippet {
        topics: subscriber_topics_public_thread("cats"),
        audience: JsSnippetAudience::Public,
        code: "x".to_string(),
    };
    assert!(snippet_allowed(&open, &subscriber_topics_public_thread("cats"), None, &s));
    assert!(!snippet_allowed(&open, &subs, Some("alice"), &s));
}

#[test]
fn old_paths_name_topics() {
    let (topics, room) = topics_from_legacy_sse_path("/t/cats").unwrap();
    assert!(room.is_none());
    assert!(topics.iter().any(|t| t.same(&LiveTopic::PublicThread { tag: "cats".to_string() })));
    let (_, room) = topics_from_legacy_sse_path("/r/abcd123demo/t/plots").unwrap();
    assert_eq!(room.as_deref(), Some(ROOM));
    let (fallback, _) = topics_from_legacy_sse_path("/nowhere/at/all").unwrap();
    assert!(fallback[0].same(&LiveTopic::ForumHome));
    assert!(topics_from_legacy_sse_path("/r/bad").is_none());
    assert_eq!(subscriber_topics_garden_item(None, "x").len(), 1);
}

#[test]
fn event_streams_are_asked_for() {
    assert!(wants_event_stream(Some("text/event-stream")));
    assert!(wants_event_stream(Some("text/html, text/event-stream;q=0.9")));
    assert!(!wants_event_stream(Some("text/html")));
    assert!(!wants_event_stream(None));
}

// ---------------------------------------------------------------------------
// Names
// ---------------------------------------------------------------------------

#[test]
fn usernames_are_lowered_and_checked() {
    assert_eq!(parse_username("Alice").as_deref(), Ok("alice"));
    assert_eq!(parse_username(" \u{212A}arl ").as_deref(), Ok("karl"));
    for input in ["Alice", " BOB-1 ", "a_b", "\u{212A}arl"] {
        let stored = parse_username(input).unwrap();
        assert_eq!(parse_username(&stored), Ok(stored.clone()));
    }
    assert!(parse_username("@alice").is_err());
    assert!(parse_username("").is_err());
    assert!(parse_username("a b").is_err());
    assert!(validate_username_naked("alice").is_ok());
    assert!(validate_username_naked("al!ce").is_err());
}

#[test]
fn agents_are_checked() {
    let id = "67e55044-10b1-426f-9247-bb680e5fe0c8:rig:prog/model";
    assert!(parse_agent(id).is_ok(), "{:?}", parse_agent(id));
    assert!(parse_agent("no-uuid:rig:prog/model").is_err());
    assert!(parse_agent("").is_err());
    assert_eq!(agent_from(id, id), parse_agent(id));
}

// ---------------------------------------------------------------------------
// Forms and pages
// ---------------------------------------------------------------------------

#[test]
fn forms_split_into_template_and_holes() {
    let f = |k: &str, v: &str| (k.to_string(), v.to_string());
    let form = match split_ui_form(&vec![f("a", "1"), f(UI_RPC_FIELD, "{}"), f("b", "2")]) {
        Ok(form) => form,
        Err(_) => panic!("expected a form"),
    };
    assert_eq!(form.template, "{}");
    assert_eq!(form.holes, vec![f("a", "1"), f("b", "2")]);
    assert!(split_ui_form(&vec![f("a", "1")]).is_err());
    assert!(!missing_rpc_text().is_empty());
    assert_eq!(default_ui_form_action(), "/ui");
    assert_eq!(default_garden_rank_depth(), 1);
    assert!(posted_where_it_says("/ui", "/ui"));
    assert!(!posted_where_it_says("/ui", "/other"));
}

#[test]
fn pages_know_their_links() {
    assert!(matches!(theme_for_file("theme_retro.css"), Some(Theme::Retro)));
    assert!(theme_for_file("theme_none.css").is_none());
    assert!(bc_threads(None).home_current);
    assert!(bc_threads(Some("x")).thread.is_some());
    assert!(connector_links("https://slug.test/").openapi.starts_with("https://slug.test/"));
}

// ---------------------------------------------------------------------------
// Characters
// ---------------------------------------------------------------------------

#[test]
fn white_space_is_that_of_std() {
    for n in 0..=0x10_FFFFu32 {
        if let Some(c) = char::from_u32(n) {
            assert_eq!(white(c), c.is_whitespace(), "{n:x}");
        }
    }
}

#[test]
fn words_are_lowered_as_std_does() {
    assert_eq!(tokenize("ÀΣB İX"), vec!["ÀΣB".to_lowercase(), "İX".to_lowercase()]);
}
