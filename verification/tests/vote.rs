//! Comparisons, questions, the home index and the tree.

use slugsocial::browse::{
    garden_ui_copy_rank, item_page_parts, ordering_heading, parent_row, rank_delta_text,
    room_garden_gate, BodyPart, CopyError, GardenGateError,
};
use slugsocial::compare::{
    compare_error_status, compare_error_text, compare_nav, compare_page, edge_history_row,
    panel_foot, thread_options, vote_compare_item_card, vote_compare_target, vote_draft_key,
    CompareError, CompareTarget, PanelFoot, VoteCompareQuery,
};
use slugsocial::editor::{editor_error_text, ranking_label, unranked_text, voted_parents};
use slugsocial::home::{collect_question_entries, prompted_aspects, question_activity};
use slugsocial::item_page::{
    build_item_page_view_model, edge_fragment_id, fragment_slug, WrittenVote,
};
use slugsocial::landing::{
    landing_garden_href, last_canonical_vote_ts, listable_scopes, open_questions,
    pick_landing_question, voted_density,
};
use slugsocial::nav::{ScopeId, ThreadNav};
use slugsocial::paths::ItemId;
use slugsocial::questions::{
    aspects_for_scope, compact_standings, question_comparison_count, question_href,
    question_page, question_rankings, question_title, question_vote_count, suspended_in_scope,
    QuestionHeadline, QUESTION_INDEX_CAP,
};
use slugsocial::state::{
    AspectGroup, AspectPrompt, BorderPairState, ChildrenRankings, ContentState, ForumThread,
    GroupState, ItemBody, ItemPair, ItemThreads, MembershipStatus, RankedItem, RecentVote,
    ReducerState, RoomContent, ScopeMembers, ScopeRankings, ScopedComponent, VoteData,
};
use slugsocial::tree::{
    canon_open_set, href_for, in_private_namespace, node_id, ranked_children_public, toggle,
    toggle_js, tree_root_from_path, tree_rows, tree_toggle, ToggleError, ToggleForm, TreeQuery,
};
use slugsocial::votes::{
    canonical_edge_items, edge_vote_entries_for_pair, left_share_of, pick_autothread_for_vote_pair,
    ratios_for_compare_page, skipped_pairs, skipped_row, sort_votes_for_compare_display,
    vote_compare_href, vote_pool_href, vote_skip_redirect_href, vote_skipped_href,
    vote_thread_tags_for_pair, VoteCompareDomIds, VoteSkipEntry,
};

fn item(s: &str) -> ItemId {
    ItemId::parse(s).unwrap().ontology_leaf()
}

fn vote(a: &str, b: &str, l: i32, r: i32, ts: i64) -> VoteData {
    VoteData {
        ts,
        a: item(a),
        b: item(b),
        ratio_left: l,
        ratio_right: r,
        body: "why".to_string(),
        principal: "alice".to_string(),
        delegate: None,
        thread_tag: "x".to_string(),
    }
}

/// A collection `~x` of `~a`, `~b` and `~c`, in which `~a` beat `~b` once.
fn content() -> ContentState {
    let mut c = ContentState::empty();
    for (path, body) in [("~x", "Which one?"), ("~a", "alpha"), ("~b", "beta"), ("~c", "gamma")] {
        c.items.push(item(path));
        c.item_bodies.push(ItemBody { item: item(path), body: body.to_string() });
        c.comparable.push(item(path));
    }
    let members = vec![item("~a"), item("~b"), item("~c")];
    c.members_by_scope.push(ScopeMembers { scope: item("~x"), members: members.clone() });
    for m in members {
        c.borders.push(BorderPairState {
            child: m,
            parent: item("~x"),
            containment_weight: 1,
            border_weight: 0,
            status: MembershipStatus::Active,
        });
    }
    c.votes.push(vote("~a", "~b", 2, 1, 7));
    c.ranking_group = GroupState {
        voted_pairs: vec![ItemPair { a: item("~a"), b: item("~b") }],
        recent_votes: vec![RecentVote { ts: 7, a: item("~a"), b: item("~b") }],
    };
    c.rankings.push(ScopeRankings {
        scope: item("~x"),
        rankings: ChildrenRankings {
            component_rankings: vec![ScopedComponent {
                pairs: 1,
                ranked: vec![
                    RankedItem { item: item("~a"), score: "0.9".to_string() },
                    RankedItem { item: item("~b"), score: "0.1".to_string() },
                ],
            }],
            unranked_items: vec![item("~c")],
        },
    });
    c.aspect_groups.push(AspectGroup {
        scope: item("~x"),
        slug: "beauty".to_string(),
        group: GroupState {
            voted_pairs: vec![ItemPair { a: item("~b"), b: item("~c") }],
            recent_votes: vec![RecentVote { ts: 9, a: item("~b"), b: item("~c") }],
        },
        rankings: ChildrenRankings::empty(),
    });
    c.aspect_prompts.push(AspectPrompt {
        slug: "beauty".to_string(),
        prompt: "prettier".to_string(),
    });
    c
}

fn reduced() -> ReducerState {
    let mut s = ReducerState::empty();
    s.public_content = content();
    s
}

fn query(l: Option<&str>, r: Option<&str>, pool: Option<&str>, aspect: Option<&str>) -> VoteCompareQuery {
    VoteCompareQuery {
        left: l.map(|t| t.to_string()),
        right: r.map(|t| t.to_string()),
        thread: None,
        pool: pool.map(|t| t.to_string()),
        aspect: aspect.map(|t| t.to_string()),
    }
}

fn refusal(q: VoteCompareQuery, c: &ContentState) -> CompareError {
    match vote_compare_target(c, &q, &Vec::new()) {
        Err(e) => e,
        Ok(_) => panic!("expected a refusal"),
    }
}

// ---------------------------------------------------------------------------
// Comparisons
// ---------------------------------------------------------------------------

#[test]
fn compare_requests_name_two_items_or_a_pool() {
    let c = content();
    match vote_compare_target(&c, &query(Some("~a"), Some("~b"), None, None), &Vec::new()) {
        Ok(CompareTarget::Pair { left, right, pool, aspect }) => {
            assert_eq!(left, item("~a"));
            assert_eq!(right, item("~b"));
            assert!(pool.is_none() && aspect.is_none());
        }
        _ => panic!("expected a pair"),
    }
    match vote_compare_target(&c, &query(None, None, Some("~x"), None), &Vec::new()) {
        Ok(CompareTarget::Pair { left, right, .. }) => {
            assert_eq!(left, item("~a"));
            assert_eq!(right, item("~c"));
        }
        _ => panic!("expected the open pair"),
    }
    assert!(matches!(
        vote_compare_target(&c, &query(None, None, None, None), &Vec::new()),
        Ok(CompareTarget::Landing)
    ));
}

#[test]
fn compare_requests_are_refused_with_a_reason() {
    let c = content();
    let cases = vec![
        (query(None, None, Some(""), None), CompareError::BadPool, "bad pool item"),
        (query(Some("~a"), Some("~b"), None, Some("B B")), CompareError::BadAspect, "bad aspect slug"),
        (query(Some(""), Some("~b"), None, None), CompareError::BadLeft, "bad left item"),
        (query(Some("~a"), Some(""), None, None), CompareError::BadRight, "bad right item"),
        (query(Some("~a"), Some("~/z/a"), None, None), CompareError::ItemsMustDiffer, "items must differ"),
        (query(Some("~a"), None, None, None), CompareError::Incomplete, "provide both left and right, or just pool"),
    ];
    for (q, e, text) in cases {
        let got = refusal(q, &c);
        assert!(got == e, "{text}");
        assert_eq!(compare_error_text(&got), text);
        assert!(compare_error_status(&got) >= 400);
    }
    assert!(refusal(query(None, None, Some("~a"), None), &c) == CompareError::PoolTooSmall);
    let all = vec![
        ItemPair { a: item("~a"), b: item("~b") },
        ItemPair { a: item("~a"), b: item("~c") },
        ItemPair { a: item("~b"), b: item("~c") },
    ];
    assert!(matches!(
        vote_compare_target(&c, &query(None, None, Some("~x"), None), &all),
        Err(CompareError::NoPairs)
    ));
}

#[test]
fn an_edge_has_no_direction() {
    let (lo, hi) = canonical_edge_items(&item("~b"), &item("~a"));
    assert_eq!((lo, hi), canonical_edge_items(&item("~a"), &item("~b")));
    let c = content();
    let there = edge_vote_entries_for_pair(&c, &item("~a"), &item("~b"));
    let back = edge_vote_entries_for_pair(&c, &item("~b"), &item("~a"));
    assert_eq!(there.len(), back.len());
    let (l, r) = ratios_for_compare_page(&there[0], &item("~a"), &item("~b"));
    assert_eq!((l, r), (2, 1));
    assert_eq!(ratios_for_compare_page(&there[0], &item("~b"), &item("~a")), (r, l));
}

#[test]
fn shares_order_as_their_floats_do() {
    let ratios: [(i32, i32); 18] = [
        (1, 1), (2, 1), (1, 2), (8, 2), (4, 1), (1, 9), (0, 5), (5, 0), (7, 3), (3, 7),
        (i32::MAX, 1), (1, i32::MAX), (i32::MAX, i32::MAX), (i32::MAX - 1, i32::MAX),
        (0, 0), (-3, 4), (4, -3), (2, 3),
    ];
    let share = |l: i32, r: i32| {
        let (l, r) = (f64::from(l.max(0)), f64::from(r.max(0)));
        if l + r <= 0.0 {
            0.5
        } else {
            l / (l + r)
        }
    };
    for (a, b) in ratios {
        for (c, d) in ratios {
            let (f, g) = (share(a, b), share(c, d));
            let (x, y) = (left_share_of(a, b), left_share_of(c, d));
            // A larger exponent is a smaller share.
            let smaller = x.0 > y.0 || (x.0 == y.0 && x.1 < y.1);
            assert_eq!(f == g, x == y, "{a}:{b} against {c}:{d}");
            assert_eq!(f < g, smaller, "{a}:{b} against {c}:{d}");
        }
    }
}

#[test]
fn strong_votes_for_the_left_come_first() {
    let votes = vec![
        vote("~a", "~b", 1, 9, 1),
        vote("~b", "~a", 1, 9, 2),
        vote("~a", "~b", 1, 1, 3),
        vote("~a", "~b", 9, 1, 4),
    ];
    let sorted = sort_votes_for_compare_display(votes, &item("~a"), &item("~b"));
    let ts: Vec<i64> = sorted.iter().map(|v| v.ts).collect();
    assert_eq!(ts[2..], [3, 1]);
    assert_eq!(ts.iter().copied().filter(|t| *t == 2 || *t == 4).count(), 2);
    let row = edge_history_row(&sorted[0], &item("~a"), &item("~b"));
    assert!(row.ratio.contains('9') && row.ratio.contains('1'));
    assert_eq!(row.reason.as_deref(), Some("why"));
}

#[test]
fn vote_links_hold_encoded_items() {
    let nav = ThreadNav::public();
    let href = vote_compare_href(&nav, &item("~a"), &item("~b"), Some("t&x"), None, Some("beauty"));
    assert!(href.starts_with("/vote?left="), "{href}");
    assert!(href.contains("t%26x"), "{href}");
    assert!(href.contains("aspect=beauty"), "{href}");
    assert!(vote_pool_href(&nav, "~x").contains("/vote?pool="));
    let room = ThreadNav::from_room_id("abcd123/demo").unwrap();
    assert!(vote_skipped_href(&room).starts_with("/r/abcd123demo/"));
}

#[test]
fn dom_ids_carry_the_suffix() {
    assert_eq!(VoteCompareDomIds::page().form_id(), "vote-compare-form");
    let q = VoteCompareDomIds::with_suffix("q1".to_string());
    assert!(q.form_id().ends_with("q1"));
    assert_ne!(q.nav_id(), VoteCompareDomIds::page().nav_id());
}

#[test]
fn panel_ids_never_meet() {
    let mut seen = std::collections::HashSet::new();
    for ids in [
        VoteCompareDomIds::page(),
        VoteCompareDomIds::with_suffix("a".to_string()),
        VoteCompareDomIds::with_suffix("form".to_string()),
    ] {
        for id in [
            ids.form_id(),
            ids.history_id(),
            ids.nav_id(),
            ids.skip_form_id(),
            ids.slider_id(),
            ids.ratio_left_id(),
            ids.ratio_right_id(),
            ids.readout_id(),
            ids.errors_id(),
            ids.thread_select_id(),
            ids.slider_left_label_id(),
            ids.slider_right_label_id(),
            ids.explain_id(),
        ] {
            assert!(seen.insert(id.clone()), "{id}");
        }
    }
}

#[test]
fn busier_questions_come_first() {
    let mut s = reduced();
    s.public_content.members_by_scope.push(ScopeMembers {
        scope: item("~w"),
        members: vec![item("~a"), item("~b"), item("~c")],
    });
    s.forum_threads.push(ForumThread {
        scope: ScopeId::Public,
        tag: "w".to_string(),
        last_activity_ts: 500,
        last_actor: "alice".to_string(),
    });
    s.public_content.item_bodies.push(ItemBody { item: item("~w"), body: "W?".to_string() });
    let entries = collect_question_entries(&s, &s.public_content, &ThreadNav::public());
    assert_eq!(entries[0].leaf, "w");
    assert!(entries.iter().any(|e| e.leaf == "x"));
}

#[test]
fn questions_stand_once() {
    let s = reduced();
    let mut open = std::collections::HashSet::new();
    for q in open_questions(&s.public_content) {
        assert!(open.insert((q.scope.as_str().to_string(), q.aspect.clone())));
    }
    assert_eq!(open.len(), 2);
    assert!(open.contains(&(item("~x").as_str().to_string(), None)));
    assert!(open.contains(&(item("~x").as_str().to_string(), Some("beauty".to_string()))));
    let mut asked = std::collections::HashSet::new();
    for e in collect_question_entries(&s, &s.public_content, &ThreadNav::public()) {
        assert!(asked.insert((e.leaf.clone(), e.aspect.clone())));
    }
    assert!(!asked.is_empty());
}

#[test]
fn open_nodes_show_every_level() {
    let mut c = content();
    for (scope, member) in [("~b", "~d"), ("~d", "~e"), ("~e", "~f")] {
        c.members_by_scope.push(ScopeMembers { scope: item(scope), members: vec![item(member)] });
        c.rankings.push(ScopeRankings {
            scope: item(scope),
            rankings: ChildrenRankings {
                component_rankings: Vec::new(),
                unranked_items: vec![item(member)],
            },
        });
    }
    let open: Vec<String> =
        ["~b", "~d", "~e"].iter().map(|p| item(p).as_str().to_string()).collect();
    let depths: Vec<usize> =
        tree_rows(&c, item("~x").as_str(), &open, None).iter().map(|r| r.depth).collect();
    assert_eq!(depths, vec![0, 0, 1, 2, 3, 0]);
}

#[test]
fn pair_threads_prefer_those_of_both() {
    let mut c = content();
    c.item_threads.push(ItemThreads {
        item: item("~a"),
        tags: vec!["both".to_string(), "only-a".to_string()],
    });
    c.item_threads.push(ItemThreads { item: item("~b"), tags: vec!["both".to_string()] });
    let tags = vote_thread_tags_for_pair(&c, &item("~a"), &item("~b"));
    assert!(tags.contains(&"both".to_string()));
    let auto = pick_autothread_for_vote_pair(&c, &item("~a"), &item("~b"));
    assert!(!auto.is_empty());
    let options = thread_options(&tags, "both");
    assert!(options.iter().any(|o| o.tag == "both" && o.selected));
    assert_eq!(options.iter().filter(|o| o.selected).count(), 1);
    let none = thread_options(&Vec::new(), "both");
    assert!(none.len() == 1 && none[0].tag == "vote" && none[0].selected);
}

#[test]
fn skipped_pairs_are_not_dealt_again() {
    let c = content();
    let skip = |lo: &str, hi: &str, aspect: Option<&str>| VoteSkipEntry {
        lo: item(lo),
        hi: item(hi),
        pool: None,
        aspect: aspect.map(|t| t.to_string()),
        ts: 3,
    };
    let entries = vec![skip("~a", "~c", None), skip("~b", "~c", Some("beauty"))];
    let canon = skipped_pairs(&entries, None);
    assert_eq!(canon.len(), 1);
    match vote_compare_target(&c, &query(None, None, Some("~x"), None), &canon) {
        Ok(CompareTarget::Pair { left, right, .. }) => {
            assert_eq!((left, right), (item("~b"), item("~c")));
        }
        _ => panic!("expected a pair"),
    }
    let href = vote_skip_redirect_href(
        &ThreadNav::public(), &c, &item("~a"), &item("~c"), Some(&item("~x")), None, &canon,
    );
    assert!(href.starts_with("/vote?left="), "{href}");
    let row = skipped_row(&ThreadNav::public(), &entries[1]);
    assert!(row.href.contains("aspect=beauty"));
}

#[test]
fn compare_pages_show_the_form_to_those_who_may_post() {
    let s = reduced();
    let nav = ThreadNav::public();
    let (a, b) = (item("~a"), item("~b"));
    let page = compare_page(
        &s, &s.public_content, &nav, Some("bob"), &a, &b, None, None, Some("chosen"), &Vec::new(),
    );
    assert!(page.logged_in && page.show_vote_form);
    assert_eq!(page.history.len(), 1);
    assert_eq!(page.left_body.as_deref(), Some("alpha"));
    assert!(page.next_pair.is_some());
    let anon = compare_page(
        &s, &s.public_content, &nav, None, &a, &b, None, None, None, &Vec::new(),
    );
    assert!(!anon.logged_in && anon.show_vote_form);
    assert_eq!(page.thread_tags[0], "chosen");
    assert!(matches!(panel_foot(true, true), PanelFoot::Form));
    assert!(matches!(panel_foot(true, false), PanelFoot::Login));
    assert!(matches!(panel_foot(false, true), PanelFoot::NoAccess));
    let controls = compare_nav(&nav, &page.next_pair, None, None, false, "/vote");
    assert!(controls.skip_login_href.is_some());
    assert!(controls.next_href.is_some());
    let body = "text".to_string();
    let card = vote_compare_item_card(&nav, &a, Some(&body));
    assert_eq!(card.href, "/~/a");
    assert_eq!(card.body.as_deref(), Some("text"));
    assert!(vote_draft_key(&nav, &a, &b).contains("public"));
}

// ---------------------------------------------------------------------------
// Questions
// ---------------------------------------------------------------------------

#[test]
fn questions_count_their_comparisons() {
    let c = content();
    let x = item("~x");
    assert_eq!(question_comparison_count(&c, &x, None), 1);
    assert_eq!(question_comparison_count(&c, &x, Some("beauty")), 1);
    assert_eq!(question_vote_count(&c, &x, None), 1);
    let members = vec![item("~a"), item("~b"), item("~c")];
    assert_eq!(voted_density(&c.ranking_group, &members), (1, 3));
    assert_eq!(last_canonical_vote_ts(&c, &members), 7);
    assert_eq!(question_rankings(&c, &x, None).component_rankings.len(), 1);
    assert_eq!(listable_scopes(&c).len(), 1);
}

#[test]
fn question_pages_need_a_known_collection() {
    let c = content();
    let nav = ThreadNav::public();
    let page = question_page(&c, &nav, "x", None).unwrap();
    assert_eq!(page.ctx.title, "Which one?");
    assert_eq!(page.ctx.aspect, None);
    assert_eq!(page.ctx.thread_href, "/t/x");
    let pretty = question_page(&c, &nav, "x", Some("beauty")).unwrap();
    assert_eq!(pretty.ctx.aspect.as_deref(), Some("beauty"));
    assert!(page.has_pair);
    assert!(question_page(&c, &nav, "unknown", None).is_none());
    assert!(question_page(&c, &nav, "a/b", None).is_none());
    assert_eq!(question_href(&nav, "x", None), "/q/x");
    assert_eq!(question_href(&nav, "x", Some("beauty")), "/q/x/beauty");
    let aspects = aspects_for_scope(&c, &item("~x"));
    assert_eq!(aspects[0].slug, "beauty");
    assert_eq!(aspects[0].prompt.as_deref(), Some("prettier"));
}

#[test]
fn long_titles_are_cut() {
    let long = "w".repeat(500);
    let title = question_title(&QuestionHeadline::Body(long));
    assert!(title.chars().count() < 200);
    assert_eq!(question_title(&QuestionHeadline::Fallback("Which?".to_string())), "Which?");
}

#[test]
fn standings_list_ranked_items_in_order() {
    let rankings = question_rankings(&content(), &item("~x"), None);
    let rows = compact_standings(&rankings, None);
    let names: Vec<String> = rows.iter().map(|r| r.item.last_segment()).collect();
    assert_eq!(names, vec!["a", "b"]);
    assert_eq!(rows[0].position, 1);
    assert_eq!(compact_standings(&rankings, Some(1)).len(), 1);
    let mut c = content();
    c.borders[2].status = MembershipStatus::Suspended;
    assert_eq!(suspended_in_scope(&c, &item("~x")).len(), 1);
}

#[test]
fn the_home_index_is_capped() {
    let mut s = ReducerState::empty();
    let mut c = ContentState::empty();
    for k in 0..(QUESTION_INDEX_CAP + 7) {
        let scope = item(&format!("~s{k:03}"));
        c.item_bodies.push(ItemBody { item: scope.clone(), body: format!("Question {k}?") });
        let members = vec![item(&format!("~m{k}a")), item(&format!("~m{k}b"))];
        for m in &members {
            c.comparable.push(m.clone());
            c.item_bodies.push(ItemBody { item: m.clone(), body: "b".to_string() });
        }
        c.members_by_scope.push(ScopeMembers { scope, members });
    }
    s.public_content = c;
    let entries = collect_question_entries(&s, &s.public_content, &ThreadNav::public());
    assert_eq!(entries.len(), QUESTION_INDEX_CAP);
    let small = reduced();
    let few = collect_question_entries(&small, &small.public_content, &ThreadNav::public());
    assert!(few.iter().any(|e| e.leaf == "x" && e.aspect.is_none()));
    assert_eq!(prompted_aspects(&small.public_content, &item("~x")), vec!["beauty"]);
    assert!(question_activity(&small, &small.public_content, &item("~x"), None) >= 7);
}

#[test]
fn the_landing_question_has_an_open_pair() {
    let c = content();
    let q = pick_landing_question(&c).unwrap();
    assert!(q.voted < q.possible);
    let href = landing_garden_href(&ThreadNav::public(), &q.scope, &Some("beauty".to_string()));
    assert!(href.starts_with("/~/x"), "{href}");
    assert!(pick_landing_question(&ContentState::empty()).is_none());
}

// ---------------------------------------------------------------------------
// Item pages
// ---------------------------------------------------------------------------

#[test]
fn item_page_parts_follow_the_model() {
    let s = reduced();
    let nav = ThreadNav::public();
    let model = |path: &str| {
        build_item_page_view_model(
            &s, &ScopeId::Public, path, 1, &ChildrenRankings::empty(), &Vec::new(),
        )
    };
    let scope = item_page_parts(&model("~x"), &s.public_content, &nav, false);
    assert!(matches!(scope.body_part, BodyPart::Prompt));
    assert!(scope.vote_children_href.unwrap().contains("/vote?pool="));
    let a = model("~a");
    let parts = item_page_parts(&a, &s.public_content, &nav, false);
    assert!(matches!(parts.body_part, BodyPart::Body));
    assert!(parts.vote_item_href.unwrap().contains("/vote?pool="));
    let row = parent_row(&a, &nav, &item("~x"));
    assert_eq!(row.href, "/~/x");
    assert_eq!(row.name, "~/x");
    let none = item_page_parts(&model("~nobody"), &s.public_content, &nav, false);
    assert!(matches!(none.body_part, BodyPart::NoBody));
}

#[test]
fn fragments_are_safe_in_an_address() {
    let f = fragment_slug("https://slug.social/~/A b?c");
    assert!(f.chars().all(|c| c.is_ascii_alphanumeric() || c == '-' || c == '_'), "{f}");
    assert_ne!(edge_fragment_id(&item("~a"), &item("~x")), edge_fragment_id(&item("~x"), &item("~a")));
}

#[test]
fn rank_changes_read_as_arrows() {
    assert!(rank_delta_text(-2).contains("↑2"));
    assert!(rank_delta_text(3).contains("↓3"));
    assert!(!rank_delta_text(0).contains('0'));
    assert_eq!(ordering_heading(1, 3, 2), "ordering 2 items=3 pairs=2");
}

#[test]
fn rankings_are_copied_for_those_who_may_view() {
    let mut s = reduced();
    s.room_content.push(RoomContent { room: "abcd123/demo".to_string(), content: content() });
    let none = ChildrenRankings::empty();
    assert_eq!(
        garden_ui_copy_rank(&s, "public", "~x", 1, false, None, &none, &none).ok().as_deref(),
        Some("1. ~/a\n2. ~/b\n\n- ~/c\n")
    );
    assert!(matches!(
        garden_ui_copy_rank(&s, "public", "~c", 1, false, None, &none, &none),
        Err(CopyError::NothingToCopy)
    ));
    assert!(matches!(
        garden_ui_copy_rank(&s, "abcd123/demo", "~x", 1, false, None, &none, &none),
        Err(CopyError::Forbidden)
    ));
    assert!(matches!(
        room_garden_gate(&s, "x", None),
        Err(GardenGateError::BadRoomPath)
    ));
    assert!(matches!(
        room_garden_gate(&s, "abcd123demo", None),
        Err(GardenGateError::NotFound)
    ));
}

// ---------------------------------------------------------------------------
// The tree
// ---------------------------------------------------------------------------

#[test]
fn toggling_a_node_twice_changes_nothing() {
    let open = canon_open_set(&vec!["~/b".to_string(), "~/a".to_string(), "~/a".to_string()]);
    assert_eq!(open.len(), 2);
    let more = toggle(&open, "~/c");
    assert_eq!(more.len(), 3);
    let back = toggle(&more, "~/c");
    assert_eq!(canon_open_set(&back), canon_open_set(&open));
}

#[test]
fn tree_rows_open_what_is_open() {
    let c = content();
    let x = item("~x");
    let rows = tree_rows(&c, x.as_str(), &Vec::new(), Some(item("~b").as_str()));
    assert_eq!(rows.len(), 3);
    assert_eq!(rows.iter().filter(|r| r.is_selected).count(), 1);
    assert!(rows.iter().all(|r| r.depth == 0 && !r.has_children && !r.is_open));
    let mut deep = content();
    deep.members_by_scope.push(ScopeMembers { scope: item("~b"), members: vec![item("~d")] });
    deep.rankings.push(ScopeRankings {
        scope: item("~b"),
        rankings: ChildrenRankings {
            component_rankings: Vec::new(),
            unranked_items: vec![item("~d")],
        },
    });
    assert_eq!(tree_rows(&deep, x.as_str(), &Vec::new(), None).len(), 3);
    let opened = tree_rows(&deep, x.as_str(), &vec![item("~b").as_str().to_string()], None);
    let depths: Vec<usize> = opened.iter().map(|r| r.depth).collect();
    assert_eq!(depths, vec![0, 0, 1, 0]);
    assert!(opened[1].is_open && opened[1].has_children);
    assert_eq!(
        ranked_children_public(&c, x.as_str()),
        vec![item("~a").as_str(), item("~b").as_str(), item("~c").as_str()]
    );
    assert_ne!(node_id("~/a"), node_id("~/b"));
}

#[test]
fn tree_toggles_need_a_public_target() {
    let form = |root: &str, target: &str| ToggleForm {
        root: root.to_string(),
        target: target.to_string(),
        open: Vec::new(),
        selected: None,
    };
    let r = match tree_toggle(&form("~/x", "~/x")) {
        Ok(r) => r,
        Err(_) => panic!("expected a toggle"),
    };
    assert_eq!(r.open.len(), 1);
    assert!(r.next_url.contains("open="));
    assert!(matches!(tree_toggle(&form("~/x", "")), Err(ToggleError::Missing)));
    let private = "~/67e55044-10b1-426f-9247-bb680e5fe0c8/a";
    assert!(matches!(tree_toggle(&form("~/x", private)), Err(ToggleError::Private)));
    assert!(!in_private_namespace("https://slug.social/~/x"));
    assert!(tree_root_from_path(None).contains("slug.social"));
    assert!(href_for("~/x", &vec!["~/a b".to_string()], None).contains("%20"));
    let q = TreeQuery::default();
    assert!(q.open.is_empty() && q.selected.is_none());
    let js = toggle_js("<ul>", "<p>", "/tree");
    assert!(js.contains("/tree"));
}

// ---------------------------------------------------------------------------
// The editor
// ---------------------------------------------------------------------------

#[test]
fn the_editor_reports_what_was_voted_on() {
    assert_eq!(editor_error_text("bad", None), "bad");
    assert!(editor_error_text("bad", Some("line 1")).contains("line 1"));
    let v = |a: &str, b: &str| WrittenVote {
        item1: a.to_string(),
        item2: b.to_string(),
        ratio_left: 1,
        ratio_right: 1,
        explanation: String::new(),
    };
    let parents = voted_parents(&vec![v("~/x/a", "~/x/b"), v("~/x/a", "~/x/c")]);
    assert_eq!(parents.len(), 1);
    assert!(ranking_label(&ItemId::parse("~/x").unwrap()).contains('x'));
    assert_eq!(unranked_text(&Vec::new()), "");
    assert!(unranked_text(&vec![item("~a"), item("~b")]).contains(','));
}

#[test]
fn newer_threads_move_a_question_up() {
    let mut s = reduced();
    s.forum_threads.push(ForumThread {
        scope: ScopeId::Public,
        tag: "x".to_string(),
        last_activity_ts: 1_000,
        last_actor: "alice".to_string(),
    });
    assert_eq!(question_activity(&s, &s.public_content, &item("~x"), None), 1_000);
}
