//! Rooms, threads, posts and who may see them.

use slugsocial::forum::{
    capability_labels, collect_thread_rows_for_scope, find_post_at, home_rooms, index_from_path,
    may_copy_thread, morph_error_text, post_card, post_page, profile_post_rows, room_gate,
    room_last_activity_ts, room_members_for_room, room_members_section, room_page, rooms_for_user,
    thread_copy_entries, thread_feed, thread_feed_region, thread_page,
    thread_post_index_in_scope, thread_ui_collapse_redacted_post, thread_ui_expand_post_full,
    thread_ui_expand_redacted_post, user_can_manage_room, user_can_post, user_can_post_room,
    user_can_view_room, user_profile_page, visible_posts_for_actor, PostMorphError, RoomPageError,
    ThreadViewQuery,
};
use slugsocial::nav::{ScopeId, ThreadNav};
use slugsocial::state::{
    ForumThread, Grant, Ingest, ReducerState, Room, ThreadCapability, ThreadPosts,
};

const ROOM: &str = "abcd123/demo";

fn ingest(ts: i64, id: &str, raw: &str, who: &str, room: &str, tag: &str) -> Ingest {
    Ingest {
        ts,
        id: id.to_string(),
        raw: raw.to_string(),
        principal: who.to_string(),
        delegate: None,
        room_id: room.to_string(),
        thread_tag: tag.to_string(),
    }
}

/// Two public threads, and a room of `alice`, who manages it, and `bob`, who only reads.
fn state() -> ReducerState {
    let mut s = ReducerState::empty();
    s.rooms.push(Room { id: ROOM.to_string(), created_ts: 5 });
    s.grants.push(Grant {
        room: ROOM.to_string(),
        username: "alice".to_string(),
        caps: vec![ThreadCapability::View, ThreadCapability::Post, ThreadCapability::Manage],
    });
    s.grants.push(Grant {
        room: ROOM.to_string(),
        username: "bob".to_string(),
        caps: vec![ThreadCapability::View],
    });
    for (tag, ts) in [("old", 10), ("new", 30)] {
        s.forum_threads.push(ForumThread {
            scope: ScopeId::Public,
            tag: tag.to_string(),
            last_activity_ts: ts,
            last_actor: "alice".to_string(),
        });
    }
    s.forum_threads.push(ForumThread {
        scope: ScopeId::Room(ROOM.to_string()),
        tag: "secret".to_string(),
        last_activity_ts: 20,
        last_actor: "alice".to_string(),
    });
    s.ingests.push(ingest(10, "p0", "first post", "alice", "public", "new"));
    s.ingests.push(ingest(20, "p1", "second <post>", "bob", "public", "new"));
    s.ingests.push(ingest(20, "r0", "in the room", "alice", ROOM, "secret"));
    s.thread_posts.push(ThreadPosts {
        scope: ScopeId::Public,
        tag: "new".to_string(),
        ids: vec!["p1".to_string(), "p0".to_string()],
    });
    s.thread_posts.push(ThreadPosts {
        scope: ScopeId::Room(ROOM.to_string()),
        tag: "secret".to_string(),
        ids: vec!["r0".to_string()],
    });
    s
}

#[test]
fn rooms_open_to_their_members_only() {
    let s = state();
    assert!(user_can_view_room(&s, ROOM, Some("alice")));
    assert!(user_can_view_room(&s, ROOM, Some("bob")));
    assert!(!user_can_view_room(&s, ROOM, Some("carol")));
    assert!(!user_can_view_room(&s, ROOM, None));
    assert!(user_can_post_room(&s, ROOM, "alice"));
    assert!(!user_can_post_room(&s, ROOM, "bob"));
    assert!(user_can_manage_room(&s, ROOM, "alice"));
    assert!(!user_can_manage_room(&s, ROOM, "bob"));
    assert!(user_can_post(&s, &ScopeId::Public, Some("carol")));
    assert!(!user_can_post(&s, &ScopeId::Public, None));
    assert!(!user_can_post(&s, &ScopeId::Room(ROOM.to_string()), Some("bob")));
}

#[test]
fn feeds_show_the_newest_thread_first() {
    let s = state();
    let tags: Vec<String> =
        thread_feed(&s, &ScopeId::Public).into_iter().map(|r| r.tag).collect();
    assert_eq!(tags, vec!["new", "old"]);
    let rows = collect_thread_rows_for_scope(&s, &ScopeId::Room(ROOM.to_string()));
    assert_eq!(rows.len(), 1);
    assert_eq!(rows[0].ingests, 1);
    assert_eq!(thread_feed(&s, &ScopeId::Public)[0].ingests, 2);
}

#[test]
fn room_lists_follow_grants_and_activity() {
    let s = state();
    assert_eq!(room_last_activity_ts(&s, ROOM, 5), 20);
    assert_eq!(room_last_activity_ts(&s, "abcd123/none", 50), 50);
    let rooms = rooms_for_user(&s, "bob");
    assert_eq!(rooms.len(), 1);
    assert_eq!(rooms[0].last_ts, 20);
    assert!(rooms_for_user(&s, "carol").is_empty());
    let home = home_rooms(&s, Some("bob"));
    assert_eq!(home[0].href, "/r/abcd123demo");
    assert_eq!(home[0].slug, "demo");
    assert!(home_rooms(&s, None).is_empty());
}

#[test]
fn rooms_come_newest_first() {
    let mut s = state();
    for (id, ts) in [("abcd123/late", 90), ("abcd123/bbb", 20), ("abcd123/none", 99)] {
        s.rooms.push(Room { id: id.to_string(), created_ts: ts });
        if id != "abcd123/none" {
            s.grants.push(Grant {
                room: id.to_string(),
                username: "bob".to_string(),
                caps: vec![ThreadCapability::View],
            });
        }
    }
    let ids: Vec<String> = rooms_for_user(&s, "bob").into_iter().map(|r| r.id).collect();
    assert_eq!(ids, vec!["abcd123/late", "abcd123/bbb", ROOM]);
}

#[test]
fn members_are_listed_with_their_rights() {
    let s = state();
    let rows = room_members_for_room(&s, ROOM);
    let names: Vec<&str> = rows.iter().map(|m| m.username.as_str()).collect();
    assert_eq!(names, vec!["alice", "bob"]);
    assert_eq!(rows[1].capabilities, vec!["view"]);
    assert_eq!(
        capability_labels(&vec![ThreadCapability::Manage, ThreadCapability::View]).len(),
        2
    );
    let section = room_members_section(&s, ROOM, true, Some("alice")).unwrap();
    assert!(section.expanded && section.can_delete);
    assert!(!room_members_section(&s, ROOM, false, Some("bob")).unwrap().can_delete);
}

#[test]
fn room_pages_and_their_errors() {
    let s = state();
    let page = room_page(&s, ROOM, Some("alice")).unwrap_or_else(|_| panic!("page"));
    assert!(page.show_new_thread);
    assert_eq!(page.rows.len(), 1);
    let read = room_page(&s, ROOM, Some("bob")).unwrap_or_else(|_| panic!("page"));
    assert!(!read.show_new_thread);
    assert!(matches!(
        room_page(&s, "abcd123/none", Some("alice")),
        Err(RoomPageError::RoomNotFound)
    ));
    assert!(matches!(room_page(&s, ROOM, Some("carol")), Err(RoomPageError::NotFoundPage)));
    assert!(matches!(room_gate(&s, "x", Some("alice")), Err(RoomPageError::BadRoomPath)));
    assert_eq!(
        room_gate(&s, "abcd123demo", Some("bob")).unwrap_or_else(|_| panic!("gate")).room_url(),
        "/r/abcd123demo"
    );
}

#[test]
fn thread_pages_show_posts_in_order() {
    let s = state();
    let nav = ThreadNav::public();
    let page = thread_page(&s, &nav, "new", &ThreadViewQuery { offset: Some(0) }, Some("bob"), 100);
    assert_eq!(page.total, 2);
    let bodies: Vec<&str> = page.cards.iter().map(|c| c.display_body.as_str()).collect();
    assert_eq!(bodies, vec!["first post", "second <post>"]);
    assert_eq!(page.cards[1].href, "/t/new/1");
    assert!(page.cards[1].show_delete);
    assert!(!page.cards[0].show_delete);
    assert!(page.show_compose);
    let last = thread_page(&s, &nav, "new", &ThreadViewQuery { offset: None }, None, 100);
    assert_eq!(last.offset, 0);
    assert!(!last.show_compose);
    assert_eq!(thread_page(&s, &nav, "none", &ThreadViewQuery { offset: None }, None, 9).total, 0);
}

#[test]
fn long_posts_are_cut_for_the_list() {
    let s = state();
    let nav = ThreadNav::public();
    let card = post_card(&s, &nav, "new", 0, 0, None, 5);
    assert!(card.truncated);
    assert_eq!(card.char_len, 10);
    assert!(card.display_body.starts_with("first"));
    assert!(!post_card(&s, &nav, "new", 0, 0, None, 10).truncated);
}

#[test]
fn redacted_posts_are_marked() {
    let mut s = state();
    s.redacted_posts.push("p0".to_string());
    let nav = ThreadNav::public();
    let page = thread_page(&s, &nav, "new", &ThreadViewQuery { offset: None }, Some("alice"), 100);
    assert!(page.cards[0].redacted);
    assert!(!page.cards[0].show_delete);
    assert!(!page.cards[1].redacted);
    assert!(thread_ui_expand_redacted_post(&s, "public", "new", 0, None).is_ok());
    assert!(thread_ui_collapse_redacted_post(&s, "public", "new", 0, None).is_ok());
}

#[test]
fn posts_have_pages_of_their_own() {
    let s = state();
    let nav = ThreadNav::public();
    assert_eq!(index_from_path("1"), 1);
    assert_eq!(index_from_path("x"), 0);
    let page = post_page(&s, &nav, "new", "1", None, 100);
    assert_eq!(page.index, 1);
    assert_eq!(page.card.unwrap().display_body, "second <post>");
    assert_eq!(page.permalinks.unwrap().prev_href.as_deref(), Some("/t/new/0"));
    assert!(post_page(&s, &nav, "new", "7", None, 100).card.is_none());
    assert_eq!(find_post_at(&s, &ScopeId::Public, "new", 1), Some(1));
    assert_eq!(find_post_at(&s, &ScopeId::Public, "new", 2), None);
    assert_eq!(thread_post_index_in_scope(&s, &s.ingests[1]), Some(1));
}

#[test]
fn posts_of_a_room_are_morphed_for_members_only() {
    let s = state();
    let ok = thread_ui_expand_post_full(&s, ROOM, "secret", 0, Some("alice"));
    match ok {
        Ok(t) => {
            assert_eq!(t.ingest, 2);
            assert!(t.mine);
        }
        Err(_) => panic!("expected the post"),
    }
    let gate = thread_ui_expand_post_full(&s, ROOM, "secret", 0, Some("carol"));
    assert!(matches!(gate, Err(PostMorphError::Forbidden)));
    let bad = thread_ui_expand_post_full(&s, "nonsense", "secret", 0, Some("alice"));
    assert!(matches!(bad, Err(PostMorphError::BadRoom)));
    let none = thread_ui_expand_post_full(&s, "public", "new", 9, None);
    assert!(matches!(none, Err(PostMorphError::PostNotFound)));
    for e in [PostMorphError::BadRoom, PostMorphError::Forbidden, PostMorphError::PostNotFound] {
        assert!(!morph_error_text(&e).is_empty());
    }
}

#[test]
fn feed_regions_show_the_last_posts() {
    let mut s = state();
    for k in 0..25 {
        let id = format!("q{k}");
        s.ingests.push(ingest(40 + k, &id, "more", "alice", "public", "long"));
    }
    let ids: Vec<String> = (0..25).rev().map(|k| format!("q{k}")).collect();
    s.thread_posts.push(ThreadPosts { scope: ScopeId::Public, tag: "long".to_string(), ids });
    let region = thread_feed_region(&s, None, "long", None, 100).unwrap();
    assert_eq!((region.offset, region.total, region.cards.len()), (15, 25, 10));
    assert_eq!((region.top.first, region.top.last, region.top.total), (16, 25, 25));
    assert_eq!(region.bottom.older_href.as_deref(), Some("/t/long?offset=5"));
    assert_eq!(region.bottom.newer_href, None);
    assert_eq!(region.bottom.latest_href, None);
    assert_eq!(region.bottom.total, 25);
    assert!(region.top.top && !region.bottom.top);
    assert!(thread_feed_region(&s, Some("bad"), "long", None, 100).is_none());
}

#[test]
fn threads_are_copied_by_those_who_may_view_them() {
    let s = state();
    assert!(may_copy_thread(&s, "public", None));
    assert!(may_copy_thread(&s, ROOM, Some("bob")));
    assert!(!may_copy_thread(&s, ROOM, None));
    let entries = thread_copy_entries(&s, &ScopeId::Public, "new");
    assert_eq!(entries.len(), 2);
    assert_eq!(entries[0].body, "first post");
    assert!(!entries[0].separated);
    assert!(entries[1].separated);
}

#[test]
fn profiles_list_visible_posts() {
    let s = state();
    let page = user_profile_page(&s, "bob", None).unwrap();
    assert_eq!(page.rows.len(), 1);
    assert_eq!(page.rows[0].post_href, "/t/new/1");
    assert_eq!(profile_post_rows(&s, &vec!["gone".to_string()]).len(), 0);
    assert!(user_profile_page(&s, "", None).is_none());
    assert_eq!(visible_posts_for_actor(&s, "alice", None), vec!["p0"]);
    assert_eq!(visible_posts_for_actor(&s, "alice", Some("bob")), vec!["p0", "r0"]);
    assert_eq!(user_profile_page(&s, "alice", Some("bob")).unwrap().rows.len(), 2);
    assert!(visible_posts_for_actor(&s, "carol", Some("bob")).is_empty());
}
