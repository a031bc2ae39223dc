//! Garden pages over posts: items, memberships, rankings and votes.

use std::collections::{BTreeMap, BTreeSet, HashSet};

use slugsocial::browse::scoped_bc_containment;
use slugsocial::garden::{content_for_garden_view, GARDEN_DEPTH_ALL};
use slugsocial::item_page::{
    build_item_page_view_model, child_border_pairs, containment_crumb_chain, pair_weight_label,
    sibling_percentile_text, sibling_rank_text, strongest_parent, ItemPageViewModel, PostVotes,
    WrittenVote,
};
use slugsocial::landing::{open_questions, pick_landing_question, rank_open_questions, vote_landing};
use slugsocial::nav::{ScopeId, ThreadNav};
use slugsocial::paths::{ItemId, OntologyPath};
use slugsocial::questions::{
    collection_is_known, parse_collection_leaf, question_headline, QuestionHeadline,
};
use slugsocial::state::{
    AspectGroup, AspectPrompt, BorderPairState, ChildrenRankings, ContentState, FallenBorderEntry,
    ForumThread, GroupState, Ingest, ItemBody, ItemPair, ItemRankHistory, ItemThreads,
    MembershipStatus, RankHistoryEntry, RankedItem, RecentVote, ReducerState, RoomContent,
    ScopeMembers, ScopeRankings, ScopedComponent, VoteData,
};
use slugsocial::votes::{
    canonical_edge_items, edge_vote_count_for_pair, edge_vote_entries_for_pair,
    ratios_for_compare_page, sort_votes_for_compare_display, suggest_next_vote_pair,
};

// ---------------------------------------------------------------------------
// Posts
// ---------------------------------------------------------------------------

/// How paths name items: by their last segment, or by the whole path.
#[derive(Clone, Copy, PartialEq)]
enum Naming {
    Leaf,
    Path,
}

#[derive(Clone)]
struct Vote {
    ts: i64,
    a: String,
    b: String,
    left: i32,
    right: i32,
    body: String,
    aspect: Option<String>,
}

/// What the posts of one scope say.
struct Posts {
    naming: Naming,
    items: Vec<String>,
    bodies: Vec<(String, String)>,
    votes: Vec<Vote>,
    claims: Vec<((String, String), (u32, u32))>,
    fallen: Vec<(i64, String, String, u32, u32)>,
    top: Vec<String>,
    prompts: Vec<(String, String)>,
}

fn gcd(a: i32, b: i32) -> i32 {
    if b == 0 {
        a
    } else {
        gcd(b, a % b)
    }
}

impl Posts {
    fn new(naming: Naming) -> Posts {
        Posts {
            naming,
            items: Vec::new(),
            bodies: Vec::new(),
            votes: Vec::new(),
            claims: Vec::new(),
            fallen: Vec::new(),
            top: Vec::new(),
            prompts: Vec::new(),
        }
    }

    fn key(&self, written: &str) -> String {
        let id = ItemId::parse(written).expect("item");
        match self.naming {
            Naming::Leaf => id.ontology_leaf().as_str().to_string(),
            Naming::Path => id.as_str().to_string(),
        }
    }

    fn claim(&mut self, ts: i64, child: &str, parent: &str, inside: bool) {
        let pair = (child.to_string(), parent.to_string());
        let at = match self.claims.iter().position(|(p, _)| *p == pair) {
            Some(i) => i,
            None => {
                self.claims.push((pair, (0, 0)));
                self.claims.len() - 1
            }
        };
        let was = self.claims[at].1;
        if inside {
            self.claims[at].1 .0 += 1;
        } else {
            self.claims[at].1 .1 += 1;
        }
        let now = self.claims[at].1;
        if was.1 > 0 && was.0 <= was.1 && now.0 > now.1 {
            self.fallen.push((ts, child.to_string(), parent.to_string(), now.0, now.1));
        }
    }

    fn mention(&mut self, ts: i64, written: &str) -> String {
        let key = self.key(written);
        if !self.items.contains(&key) {
            self.items.push(key.clone());
            if let Some(path) = written.strip_prefix("~/") {
                let segs: Vec<&str> = path.split('/').collect();
                if segs.len() == 1 {
                    self.top.push(key.clone());
                } else {
                    let up = format!("~/{}", segs[..segs.len() - 1].join("/"));
                    let parent = self.mention(ts, &up);
                    self.claim(ts, &key, &parent, true);
                }
            }
        }
        key
    }

    fn apply(&mut self, ts: i64, raw: &str) {
        let mut reason = String::new();
        let mut aspect: Option<String> = None;
        for line in raw.lines() {
            let line = line.trim();
            if line.is_empty() || line.starts_with('@') {
                continue;
            }
            if line.starts_with('{') {
                reason = line.trim_matches(|c| c == '{' || c == '}').trim().to_string();
                continue;
            }
            let (head, tail) = match line.split_once('{') {
                Some((h, t)) => (h.trim().to_string(), Some(t.trim_end_matches('}').trim().to_string())),
                None => (line.to_string(), None),
            };
            let words: Vec<&str> = head.split_whitespace().collect();
            if let Some(slug) = head.strip_prefix(':') {
                aspect = Some(slug.to_string());
                if let Some(p) = tail {
                    self.prompts.push((slug.to_string(), p));
                }
            } else if words.len() == 3 && words[1] == "<:" {
                let c = self.mention(ts, words[0]);
                let p = self.mention(ts, words[2]);
                self.claim(ts, &c, &p, true);
            } else if words.len() == 3 && words[1] == "!<:" {
                let c = self.mention(ts, words[0]);
                let p = self.mention(ts, words[2]);
                self.claim(ts, &c, &p, false);
            } else if words.len() == 3 {
                let (l, r) = words[1].split_once(':').expect("ratio");
                let (l, r): (i32, i32) = (l.parse().unwrap(), r.parse().unwrap());
                let g = match self.naming {
                    Naming::Leaf => gcd(l, r),
                    Naming::Path => 1,
                };
                let a = self.mention(ts, words[0]);
                let b = self.mention(ts, words[2]);
                self.votes.push(Vote {
                    ts,
                    a,
                    b,
                    left: l / g,
                    right: r / g,
                    body: tail.unwrap_or_else(|| reason.clone()),
                    aspect: aspect.clone(),
                });
            } else {
                let key = self.mention(ts, words[0]);
                if let Some(b) = tail {
                    self.bodies.push((key, b));
                }
            }
        }
    }

    fn members(&self) -> Vec<(String, Vec<String>)> {
        let mut out: Vec<(String, Vec<String>)> = Vec::new();
        let root = ItemId::ontology_root().as_str().to_string();
        if !self.top.is_empty() {
            out.push((root, self.top.clone()));
        }
        for ((child, parent), (c, b)) in &self.claims {
            if c > b {
                match out.iter().position(|(s, _)| s == parent) {
                    Some(i) => out[i].1.push(child.clone()),
                    None => out.push((parent.clone(), vec![child.clone()])),
                }
            }
        }
        out
    }

    fn graph(&self, aspect: Option<&str>, members: Option<&[String]>) -> Vec<&Vote> {
        self.votes
            .iter()
            .filter(|v| v.aspect.as_deref() == aspect)
            .filter(|v| match members {
                Some(m) => m.contains(&v.a) && m.contains(&v.b),
                None => true,
            })
            .collect()
    }

    fn rank(&self, members: &[String], aspect: Option<&str>) -> ChildrenRankings {
        let votes = self.graph(aspect, Some(members));
        let mut comps: Vec<BTreeSet<String>> = Vec::new();
        for v in &votes {
            let mut joined: BTreeSet<String> = BTreeSet::new();
            joined.insert(v.a.clone());
            joined.insert(v.b.clone());
            let mut rest = Vec::new();
            for c in comps {
                if c.contains(&v.a) || c.contains(&v.b) {
                    joined.extend(c);
                } else {
                    rest.push(c);
                }
            }
            rest.push(joined);
            comps = rest;
        }
        comps.sort_by(|x, y| y.len().cmp(&x.len()));
        let mut component_rankings = Vec::new();
        let mut seen: HashSet<String> = HashSet::new();
        for c in comps {
            let mut score: BTreeMap<String, f64> = BTreeMap::new();
            let mut pairs: BTreeSet<(String, String)> = BTreeSet::new();
            for v in votes.iter().filter(|v| c.contains(&v.a)) {
                let d = f64::from(v.left - v.right) / f64::from(v.left + v.right);
                *score.entry(v.a.clone()).or_insert(0.0) += d;
                *score.entry(v.b.clone()).or_insert(0.0) -= d;
                let p = if v.a < v.b { (v.a.clone(), v.b.clone()) } else { (v.b.clone(), v.a.clone()) };
                pairs.insert(p);
            }
            let mut ranked: Vec<(String, f64)> = score.into_iter().collect();
            ranked.sort_by(|x, y| y.1.partial_cmp(&x.1).unwrap());
            seen.extend(c.iter().cloned());
            component_rankings.push(ScopedComponent {
                pairs: pairs.len(),
                ranked: ranked
                    .into_iter()
                    .map(|(item, s)| RankedItem { item: ItemId::opaque(item), score: format!("{s:.3}") })
                    .collect(),
            });
        }
        ChildrenRankings {
            component_rankings,
            unranked_items: members
                .iter()
                .filter(|m| !seen.contains(*m))
                .map(|m| ItemId::opaque(m.clone()))
                .collect(),
        }
    }

    fn group(&self, aspect: Option<&str>, members: Option<&[String]>) -> GroupState {
        let votes = self.graph(aspect, members);
        let mut voted_pairs: Vec<ItemPair> = Vec::new();
        for v in &votes {
            let known = voted_pairs.iter().any(|p| {
                (p.a.as_str() == v.a && p.b.as_str() == v.b)
                    || (p.a.as_str() == v.b && p.b.as_str() == v.a)
            });
            if !known {
                voted_pairs.push(ItemPair {
                    a: ItemId::opaque(v.a.clone()),
                    b: ItemId::opaque(v.b.clone()),
                });
            }
        }
        let recent_votes = votes
            .iter()
            .rev()
            .map(|v| RecentVote {
                ts: v.ts,
                a: ItemId::opaque(v.a.clone()),
                b: ItemId::opaque(v.b.clone()),
            })
            .collect();
        GroupState { voted_pairs, recent_votes }
    }

    fn content(&self) -> ContentState {
        let mut c = ContentState::empty();
        c.items = self.items.iter().map(|k| ItemId::opaque(k.clone())).collect();
        c.item_bodies = self
            .bodies
            .iter()
            .map(|(k, b)| ItemBody { item: ItemId::opaque(k.clone()), body: b.clone() })
            .collect();
        c.comparable = self.bodies.iter().map(|(k, _)| ItemId::opaque(k.clone())).collect();
        c.votes = self
            .graph(None, None)
            .into_iter()
            .map(|v| VoteData {
                ts: v.ts,
                a: ItemId::opaque(v.a.clone()),
                b: ItemId::opaque(v.b.clone()),
                ratio_left: v.left,
                ratio_right: v.right,
                body: v.body.clone(),
                principal: "testuser".to_string(),
                delegate: None,
                thread_tag: String::new(),
            })
            .collect();
        c.ranking_group = self.group(None, None);
        let slugs: BTreeSet<String> = self.votes.iter().filter_map(|v| v.aspect.clone()).collect();
        for (scope, members) in self.members() {
            c.members_by_scope.push(ScopeMembers {
                scope: ItemId::opaque(scope.clone()),
                members: members.iter().map(|m| ItemId::opaque(m.clone())).collect(),
            });
            c.rankings.push(ScopeRankings {
                scope: ItemId::opaque(scope.clone()),
                rankings: self.rank(&members, None),
            });
            for slug in &slugs {
                if !self.graph(Some(slug), Some(&members)).is_empty() {
                    c.aspect_groups.push(AspectGroup {
                        scope: ItemId::opaque(scope.clone()),
                        slug: slug.clone(),
                        group: self.group(Some(slug), Some(&members)),
                        rankings: self.rank(&members, Some(slug)),
                    });
                }
            }
        }
        c.borders = self
            .claims
            .iter()
            .map(|((child, parent), (inside, border))| BorderPairState {
                child: ItemId::opaque(child.clone()),
                parent: ItemId::opaque(parent.clone()),
                containment_weight: *inside,
                border_weight: *border,
                status: if inside > border {
                    MembershipStatus::Active
                } else {
                    MembershipStatus::Suspended
                },
            })
            .collect();
        c.fallen_borders = self
            .fallen
            .iter()
            .map(|(ts, child, parent, inside, border)| FallenBorderEntry {
                ts: *ts,
                child: ItemId::opaque(child.clone()),
                parent: ItemId::opaque(parent.clone()),
                containment_weight: *inside,
                border_weight: *border,
            })
            .collect();
        c.aspect_prompts = self
            .prompts
            .iter()
            .map(|(slug, prompt)| AspectPrompt { slug: slug.clone(), prompt: prompt.clone() })
            .collect();
        c
    }

    fn descendants(&self, item: &str, depth: usize) -> Vec<String> {
        let members = self.members();
        let mut out: Vec<String> = Vec::new();
        let mut level = vec![self.key(item)];
        let mut d = 0;
        while d < depth && !level.is_empty() {
            let mut next = Vec::new();
            for scope in &level {
                for (s, m) in &members {
                    if s == scope {
                        next.extend(m.iter().filter(|x| !out.contains(x)).cloned());
                    }
                }
            }
            out.extend(next.iter().cloned());
            level = next;
            d += 1;
        }
        out
    }
}

/// The posts of the public scope, or of one room.
struct World {
    posts: Posts,
    room: Option<String>,
}

impl World {
    fn public(naming: Naming, raw: &str) -> World {
        let mut posts = Posts::new(naming);
        posts.apply(1, raw);
        World { posts, room: None }
    }

    fn room(room: &str, raw: &str) -> World {
        let mut posts = Posts::new(Naming::Leaf);
        posts.apply(1, raw);
        World { posts, room: Some(room.to_string()) }
    }

    fn state(&self) -> ReducerState {
        let mut s = ReducerState::empty();
        match &self.room {
            None => s.public_content = self.posts.content(),
            Some(r) => s.room_content.push(RoomContent { room: r.clone(), content: self.posts.content() }),
        }
        s
    }

    fn scope(&self) -> ScopeId {
        match &self.room {
            None => ScopeId::Public,
            Some(r) => ScopeId::Room(r.clone()),
        }
    }

    fn page(&self, item: &str, depth: usize) -> ItemPageViewModel {
        let state = self.state();
        let deep = self.posts.rank(&self.posts.descendants(item, depth), None);
        build_item_page_view_model(&state, &self.scope(), item, depth, &deep, &Vec::new())
    }
}

// ---------------------------------------------------------------------------
// Votes
// ---------------------------------------------------------------------------

#[test]
fn garden_vote_edge_compare_sorts_rows_by_strength_for_page_left() {
    let w = World::public(
        Naming::Path,
        "@00000000-0000-0000-0000-000000000000:test:local/test\n\
             ~/topic {root}\n\
             ~/topic/a {alpha}\n\
             ~/topic/b {beta}\n\
             ~/topic/a 1:9 ~/topic/b {weak for a}\n\
             ~/topic/a 8:2 ~/topic/b {strong for a}\n",
    );
    let reduced = w.state();
    let content = content_for_garden_view(&reduced, &ScopeId::Public);
    let page_left = ItemId::parse("~/topic/a").unwrap().normalized_storage();
    let page_right = ItemId::parse("~/topic/b").unwrap().normalized_storage();
    let raw = edge_vote_entries_for_pair(content, &page_left, &page_right);
    assert_eq!(raw.len(), 2);
    let sorted = sort_votes_for_compare_display(raw, &page_left, &page_right);
    let (r0, _) = ratios_for_compare_page(&sorted[0], &page_left, &page_right);
    assert_eq!(r0, 8, "stronger left weight should sort first");
    let (r1, _) = ratios_for_compare_page(&sorted[1], &page_left, &page_right);
    assert_eq!(r1, 1);
}

#[test]
fn tests_vote_edge_compare_sorts_rows_by_strength_for_page_left() {
    let w = World::public(
        Naming::Leaf,
        "@00000000-0000-0000-0000-000000000000:test:local/test\n\
         ~/topic {root}\n\
         ~/topic/a {alpha}\n\
         ~/topic/b {beta}\n\
         {weak for a}\n             ~/topic/a 1:9 ~/topic/b\n\
         {strong for a}\n             ~/topic/a 8:2 ~/topic/b\n",
    );
    let reduced = w.state();
    let content = content_for_garden_view(&reduced, &ScopeId::Public);
    let page_left = ItemId::parse("~/topic/a").unwrap().ontology_leaf();
    let page_right = ItemId::parse("~/topic/b").unwrap().ontology_leaf();
    let raw = edge_vote_entries_for_pair(content, &page_left, &page_right);
    assert_eq!(raw.len(), 2);
    let sorted = sort_votes_for_compare_display(raw, &page_left, &page_right);
    // 8:2 is stored reduced as 4:1; still a stronger left share than 1:9.
    let (r0_l, r0_r) = ratios_for_compare_page(&sorted[0], &page_left, &page_right);
    assert_eq!((r0_l, r0_r), (4, 1), "stronger left weight should sort first");
    let (r1_l, r1_r) = ratios_for_compare_page(&sorted[1], &page_left, &page_right);
    assert_eq!((r1_l, r1_r), (1, 9));
}

#[test]
fn garden_edge_vote_count_for_pair_matches_votes_for_edge_len() {
    let w = World::public(
        Naming::Path,
        "@00000000-0000-0000-0000-000000000000:test:local/test\n\
             ~/topic {root}\n\
             ~/topic/a {alpha}\n\
             ~/topic/b {beta}\n\
             ~/topic/a 3:2 ~/topic/b {first vote}\n\
             ~/topic/b 2:3 ~/topic/a {second vote}\n",
    );
    let reduced = w.state();
    let content = content_for_garden_view(&reduced, &ScopeId::Public);
    let a = ItemId::parse("~/topic/a").unwrap().normalized_storage();
    let b = ItemId::parse("~/topic/b").unwrap().normalized_storage();
    assert_eq!(
        edge_vote_count_for_pair(content, &a, &b),
        edge_vote_entries_for_pair(content, &a, &b).len()
    );
    assert_eq!(edge_vote_entries_for_pair(content, &a, &b).len(), 2);
}

#[test]
fn tests_edge_vote_count_for_pair_matches_votes_for_edge_len() {
    let w = World::public(
        Naming::Leaf,
        "@00000000-0000-0000-0000-000000000000:test:local/test\n\
         ~/topic {root}\n\
         ~/topic/a {alpha}\n\
         ~/topic/b {beta}\n\
         {first vote}\n\
         ~/topic/a 3:2 ~/topic/b\n\
         {second vote}\n\
         ~/topic/b 2:3 ~/topic/a\n",
    );
    let reduced = w.state();
    let content = content_for_garden_view(&reduced, &ScopeId::Public);
    let a = ItemId::parse("~/topic/a").unwrap().ontology_leaf();
    let b = ItemId::parse("~/topic/b").unwrap().ontology_leaf();
    assert_eq!(
        edge_vote_count_for_pair(content, &a, &b),
        edge_vote_entries_for_pair(content, &a, &b).len()
    );
    assert_eq!(edge_vote_entries_for_pair(content, &a, &b).len(), 2);
}

#[test]
fn suggest_next_vote_pair_prefers_unvoted_sibling_pair() {
    let w = World::public(
        Naming::Leaf,
        "@00000000-0000-0000-0000-000000000000:test:local/test\n\
         ~/topic {root}\n\
         ~/topic/a {alpha}\n\
         ~/topic/b {beta}\n\
         ~/topic/c {gamma}\n\
         {a beats b}\n             ~/topic/a 2:1 ~/topic/b\n",
    );
    let reduced = w.state();
    let content = content_for_garden_view(&reduced, &ScopeId::Public);
    let a = ItemId::parse("~/topic/a").unwrap().ontology_leaf();
    let b = ItemId::parse("~/topic/b").unwrap().ontology_leaf();
    let next = suggest_next_vote_pair(content, &a, &b, None, &content.ranking_group, &Vec::new())
        .expect("next sibling pair");
    assert_ne!(canonical_edge_items(&next.a, &next.b), canonical_edge_items(&a, &b));
    assert!(
        next.a.as_str().ends_with("/c") || next.b.as_str().ends_with("/c"),
        "next pair should include the unvoted sibling"
    );
}

// ---------------------------------------------------------------------------
// Item pages
// ---------------------------------------------------------------------------

#[test]
fn garden_item_page_model_includes_body_and_unranked_without_votes() {
    let w = World::public(
        Naming::Leaf,
        "@00000000-0000-0000-0000-000000000000:test:local/test\n\
             ~/topic {topic body}\n\
             ~/topic/a {alpha}\n\
             ~/topic/b {beta}\n",
    );
    let model = w.page("~/topic/a", 1);
    assert_eq!(model.body.as_deref(), Some("alpha"));
    assert!(model.sibling_nav.is_some());
    assert!(model.child_rankings.component_rankings.is_empty());
}

#[test]
fn tests_item_page_model_includes_body_and_unranked_without_votes() {
    let w = World::public(
        Naming::Leaf,
        "@00000000-0000-0000-0000-000000000000:test:local/test\n\
         ~/topic {topic body}\n\
         ~/topic/a {alpha}\n\
         ~/topic/b {beta}\n",
    );
    let model = w.page("~/topic/a", 1);
    assert_eq!(model.body.as_deref(), Some("alpha"));
    assert!(model.sibling_nav.is_some());
    assert!(model.child_rankings.component_rankings.is_empty());
}

#[test]
fn garden_item_page_model_computes_sibling_nav_in_component() {
    let w = World::public(
        Naming::Leaf,
        "@00000000-0000-0000-0000-000000000000:test:local/test\n\
             ~/topic {topic body}\n\
             ~/topic/a {alpha}\n\
             ~/topic/b {beta}\n\
             ~/topic/c {gamma}\n\
             ~/topic/a 2:1 ~/topic/b {a beats b}\n",
    );
    let model = w.page("~/topic/a", 1);
    let nav = model.sibling_nav.expect("expected sibling nav");
    assert_eq!(nav.groups.len(), 2);
    assert_eq!(nav.groups[0].links.len(), 2);
    assert_eq!(nav.groups[1].links.len(), 1);
}

#[test]
fn tests_item_page_model_computes_sibling_nav_in_component() {
    let w = World::public(
        Naming::Leaf,
        "@00000000-0000-0000-0000-000000000000:test:local/test\n\
         ~/topic {topic body}\n\
         ~/topic/a {alpha}\n\
         ~/topic/b {beta}\n\
         ~/topic/c {gamma}\n\
         {a beats b}\n             ~/topic/a 2:1 ~/topic/b\n",
    );
    let model = w.page("~/topic/a", 1);
    let nav = model.sibling_nav.expect("expected sibling nav");
    assert_eq!(nav.groups.len(), 2);
    assert_eq!(nav.groups[0].links.len(), 2);
    assert_eq!(nav.groups[1].links.len(), 1);
    // Winner of the largest ranking group (size 2): rank 1/2 + top 50th percentile.
    assert_eq!(nav.largest_group_rank, Some((1, 2)));
    assert_eq!(nav.winner_percentile, Some(50));
}

#[test]
fn sibling_nav_rank_score_only_for_largest_group_member() {
    let w = World::public(
        Naming::Leaf,
        "@00000000-0000-0000-0000-000000000000:test:local/test\n\
         ~/topic {topic body}\n\
         ~/topic/a {alpha}\n\
         ~/topic/b {beta}\n\
         ~/topic/c {gamma}\n\
         ~/topic/d {delta}\n\
         ~/topic/e {epsilon}\n\
         {a beats b}\n             ~/topic/a 2:1 ~/topic/b\n\
         {b beats c}\n             ~/topic/b 2:1 ~/topic/c\n\
         {d beats e}\n             ~/topic/d 2:1 ~/topic/e\n",
    );
    // Largest component is a/b/c (size 3); d/e is size 2.
    let winner_nav = w.page("~/topic/a", 1).sibling_nav.expect("sibling nav");
    assert_eq!(winner_nav.largest_group_rank, Some((1, 3)));
    assert_eq!(winner_nav.winner_percentile, Some(66)); // (3-1)*100/3

    let mid_nav = w.page("~/topic/b", 1).sibling_nav.expect("sibling nav");
    assert_eq!(mid_nav.largest_group_rank, Some((2, 3)));
    assert_eq!(mid_nav.winner_percentile, None);

    // Member of the smaller ranking group: no rank/percentile score.
    let small_nav = w.page("~/topic/d", 1).sibling_nav.expect("sibling nav");
    assert_eq!(small_nav.largest_group_rank, None);
    assert_eq!(small_nav.winner_percentile, None);
}

#[test]
fn sibling_nav_markup_includes_rank_and_winner_percentile() {
    let w = World::public(
        Naming::Leaf,
        "@00000000-0000-0000-0000-000000000000:test:local/test\n\
         ~/topic {topic body}\n\
         ~/topic/a {alpha}\n\
         ~/topic/b {beta}\n\
         ~/topic/c {gamma}\n\
         {a beats b}\n             ~/topic/a 2:1 ~/topic/b\n\
         {b beats c}\n             ~/topic/b 2:1 ~/topic/c\n",
    );
    let winner_nav = w.page("~/topic/a", 1).sibling_nav.expect("sibling nav");
    assert_eq!(sibling_rank_text(&winner_nav).as_deref(), Some("rank: 1/3"));
    assert_eq!(
        sibling_percentile_text(&winner_nav).as_deref(),
        Some("top 66th percentile")
    );
    let mid_nav = w.page("~/topic/b", 1).sibling_nav.expect("sibling nav");
    assert_eq!(sibling_rank_text(&mid_nav).as_deref(), Some("rank: 2/3"));
    assert_eq!(sibling_percentile_text(&mid_nav), None);
}

#[test]
fn sibling_nav_splits_each_unranked_into_its_own_group() {
    let w = World::public(
        Naming::Leaf,
        "@00000000-0000-0000-0000-000000000000:test:local/test\n\
         ~/topic {topic body}\n\
         ~/topic/a {alpha}\n\
         ~/topic/b {beta}\n\
         ~/topic/c {gamma}\n\
         ~/topic/d {delta}\n\
         {a beats b}\n             ~/topic/a 2:1 ~/topic/b\n",
    );
    let nav = w.page("~/topic/a", 1).sibling_nav.expect("expected sibling nav");
    assert_eq!(nav.groups.len(), 3);
    assert_eq!(nav.groups[0].links.len(), 2);
    assert_eq!(nav.groups[1].links.len(), 1);
    assert_eq!(nav.groups[2].links.len(), 1);
}

#[test]
fn aspect_rankings_stand_beside_the_canonical_one() {
    let w = World::public(
        Naming::Leaf,
        "~/topic {root}\n\
         ~/topic/a {alpha}\n\
         ~/topic/b {beta}\n\
         {canonical}\n\
         ~/topic/a 3:1 ~/topic/b\n\
         :beauty { winner is more beautiful }\n\
         {pretty}\n\
         ~/topic/b 2:1 ~/topic/a\n",
    );
    let model = w.page("~/topic", 1);
    assert_eq!(model.child_rankings.component_rankings.len(), 1);
    assert_eq!(model.aspect_rankings.len(), 1);
    assert_eq!(model.aspect_rankings[0].slug, "beauty");
    assert_eq!(
        model.aspect_rankings[0].prompt.as_deref(),
        Some("winner is more beautiful")
    );
    assert_eq!(model.aspect_rankings[0].rankings.component_rankings.len(), 1);
    let canon_top = model.child_rankings.component_rankings[0].ranked[0].item.as_str();
    let aspect_top = model.aspect_rankings[0].rankings.component_rankings[0].ranked[0].item.as_str();
    assert!(canon_top.ends_with("/a"), "canonical winner {canon_top}");
    assert!(aspect_top.ends_with("/b"), "aspect winner {aspect_top}");
}

#[test]
fn parse_collection_leaf_maps_bare_name_to_tilde_item() {
    let id = parse_collection_leaf("psalms").expect("psalms");
    assert_eq!(id, ItemId::parse("~psalms").unwrap().ontology_leaf());
    assert_eq!(parse_collection_leaf("~psalms"), parse_collection_leaf("psalms"));
    assert!(parse_collection_leaf("").is_none());
    assert!(parse_collection_leaf("~").is_none());
    assert!(parse_collection_leaf("~/psalms").is_none());
    assert!(parse_collection_leaf("foo/bar").is_none());
}

#[test]
fn question_headline_uses_scope_body_then_fallback_and_aspect_prompt() {
    let w = World::public(
        Naming::Leaf,
        "~/psalms {Which psalm is greater?}\n\
         ~/psalms/a {alpha}\n\
         ~/lonely\n\
         :beauty {more beautiful}\n",
    );
    let reduced = w.state();
    let content = content_for_garden_view(&reduced, &ScopeId::Public);
    let psalms = ItemId::parse("~psalms").unwrap().ontology_leaf();
    let lonely = ItemId::parse("~lonely").unwrap().ontology_leaf();
    match question_headline(content, &psalms, None) {
        QuestionHeadline::Body(b) => assert_eq!(b, "Which psalm is greater?"),
        QuestionHeadline::Fallback(s) => panic!("expected body headline, got {s}"),
    }
    match question_headline(content, &lonely, None) {
        QuestionHeadline::Fallback(s) => assert_eq!(s, "Which is greater: lonely?"),
        QuestionHeadline::Body(b) => panic!("expected fallback, got body {b}"),
    }
    match question_headline(content, &psalms, Some("beauty")) {
        QuestionHeadline::Body(b) => assert_eq!(b, "more beautiful"),
        QuestionHeadline::Fallback(s) => panic!("expected aspect prompt, got {s}"),
    }
    match question_headline(content, &psalms, Some("speed")) {
        QuestionHeadline::Fallback(s) => assert_eq!(s, ":speed — which wins?"),
        QuestionHeadline::Body(b) => panic!("expected aspect fallback, got {b}"),
    }
    assert!(collection_is_known(content, &psalms));
    assert!(!collection_is_known(
        content,
        &ItemId::parse("~no-such-q").unwrap().ontology_leaf()
    ));
}

#[test]
fn item_page_omits_aspect_section_without_aspect_votes() {
    let w = World::public(
        Naming::Leaf,
        "~/topic {root}\n~/topic/a {alpha}\n~/topic/b {beta}\n{canonical}\n~/topic/a 3:1 ~/topic/b\n",
    );
    assert!(w.page("~/topic", 1).aspect_rankings.is_empty());
}

#[test]
fn garden_item_page_model_builds_ranked_child_components() {
    let w = World::public(
        Naming::Path,
        "@00000000-0000-0000-0000-000000000000:test:local/test\n\
             ~/topic {root}\n\
             ~/topic/a {alpha}\n\
             ~/topic/b {beta}\n\
             ~/topic/a 3:1 ~/topic/b {a beats b}\n\
             ~/topic/kid1 {k1}\n\
             ~/topic/kid2 {k2}\n\
             ~/topic/kid1/leaf {leaf}\n",
    );
    let model = w.page("~/topic", 1);
    assert_eq!(model.child_rankings.component_rankings.len(), 1);
    assert_eq!(model.child_rankings.component_rankings[0].pairs, 1);
    let names: Vec<&str> = model.child_rankings.component_rankings[0]
        .ranked
        .iter()
        .map(|r| r.item.as_str())
        .collect();
    assert_eq!(
        names,
        vec!["https://slug.social/~/topic/a", "https://slug.social/~/topic/b"]
    );
    assert!(
        model
            .child_rankings
            .unranked_items
            .contains(&ItemId::parse("https://slug.social/~/topic/kid1").unwrap())
            || model
                .child_rankings
                .unranked_items
                .contains(&ItemId::parse("https://slug.social/~/topic/kid2").unwrap())
    );
}

#[test]
fn tests_item_page_model_builds_ranked_child_components() {
    let w = World::public(
        Naming::Leaf,
        "@00000000-0000-0000-0000-000000000000:test:local/test\n\
         ~/topic {root}\n\
         ~/topic/a {alpha}\n\
         ~/topic/b {beta}\n\
         {a beats b}\n             ~/topic/a 3:1 ~/topic/b\n\
         ~/topic/kid1 {k1}\n\
         ~/topic/kid2 {k2}\n\
         ~/topic/kid1/leaf {leaf}\n",
    );
    let model = w.page("~/topic", 1);
    assert_eq!(model.child_rankings.component_rankings.len(), 1);
    assert_eq!(model.child_rankings.component_rankings[0].pairs, 1);
    let names: Vec<&str> = model.child_rankings.component_rankings[0]
        .ranked
        .iter()
        .map(|r| r.item.as_str())
        .collect();
    assert_eq!(names, vec!["https://slug.social/~/a", "https://slug.social/~/b"]);
    assert!(
        model
            .child_rankings
            .unranked_items
            .contains(&ItemId::parse("https://slug.social/~/kid1").unwrap())
            || model
                .child_rankings
                .unranked_items
                .contains(&ItemId::parse("https://slug.social/~/kid2").unwrap())
    );
}

fn top_level_children_of_room() {
    let w = World::room(
        "9ab12cd/my-room",
        "@00000000-0000-0000-0000-000000000000:test:local/test\n~/t1 {a}\n~/t2 {b}\n",
    );
    let root = ItemId::ontology_root();
    let reduced = w.state();
    let model = build_item_page_view_model(
        &reduced,
        &ScopeId::Room("9ab12cd/my-room".to_string()),
        root.as_str(),
        1,
        &ChildrenRankings::empty(),
        &Vec::new(),
    );
    assert!(!model.item_has_parent);
    assert_eq!(model.child_rankings.unranked_items.len(), 2);
    let set: HashSet<&str> =
        model.child_rankings.unranked_items.iter().map(|u| u.as_str()).collect();
    assert!(set.contains("https://slug.social/~/t1"));
    assert!(set.contains("https://slug.social/~/t2"));
}

#[test]
fn garden_item_page_room_scope_root_lists_top_level_children() {
    top_level_children_of_room();
}

#[test]
fn tests_item_page_room_scope_root_lists_top_level_children() {
    top_level_children_of_room();
}

fn ranked_group_of_room(raw: &str) {
    let w = World::room("9ab12cd/my-room", raw);
    let root = ItemId::ontology_root();
    let reduced = w.state();
    let model = build_item_page_view_model(
        &reduced,
        &ScopeId::Room("9ab12cd/my-room".to_string()),
        root.as_str(),
        1,
        &ChildrenRankings::empty(),
        &Vec::new(),
    );
    assert_eq!(model.child_rankings.component_rankings.len(), 1);
    assert_eq!(model.child_rankings.component_rankings[0].pairs, 1);
    let names: Vec<&str> = model.child_rankings.component_rankings[0]
        .ranked
        .iter()
        .map(|r| r.item.as_str())
        .collect();
    assert_eq!(names, vec!["https://slug.social/~/a", "https://slug.social/~/b"]);
    assert!(model.child_rankings.unranked_items.is_empty());
}

/// Top-level `~/a` vs `~/b` votes form one ranked component under the ontology root.
#[test]
fn garden_item_page_room_scope_root_shows_ranked_child_group() {
    ranked_group_of_room(
        "@00000000-0000-0000-0000-000000000000:test:local/test\n\
             ~/a {a}\n~/b {b}\n~/a 2:1 ~/b {because}\n",
    );
}

/// Top-level `~/a` vs `~/b` votes form one ranked component under the ontology root.
#[test]
fn tests_item_page_room_scope_root_shows_ranked_child_group() {
    ranked_group_of_room(
        "@00000000-0000-0000-0000-000000000000:test:local/test\n\
         ~/a {a}\n~/b {b}\n{because}\n~/a 2:1 ~/b\n",
    );
}

fn legacy_root_spelling() {
    let w = World::public(
        Naming::Leaf,
        "@00000000-0000-0000-0000-000000000000:test:local/test\n~/x {x}\n",
    );
    let model = w.page("https://slug.social/~/", 1);
    assert_eq!(model.child_rankings.unranked_items.len(), 1);
    assert_eq!(
        model.child_rankings.unranked_items[0].as_str(),
        "https://slug.social/~/x"
    );
}

/// The spelling `https://slug.social/~/` still resolves children under the real root key.
#[test]
fn garden_item_page_model_normalizes_legacy_tilde_root_storage_url() {
    legacy_root_spelling();
}

/// The spelling `https://slug.social/~/` still resolves children under the real root key.
#[test]
fn tests_item_page_model_normalizes_legacy_tilde_root_storage_url() {
    legacy_root_spelling();
}

#[test]
fn item_page_model_depth_includes_descendants() {
    let w = World::public(
        Naming::Leaf,
        "@00000000-0000-0000-0000-000000000000:test:local/test\n\
         ~/topic {root}\n\
         ~/topic/a {alpha}\n\
         ~/topic/a/leaf {leaf}\n\
         ~/topic/b {beta}\n",
    );
    let model = w.page("~/topic", 2);
    let items: HashSet<&str> =
        model.child_rankings.unranked_items.iter().map(|u| u.as_str()).collect();
    assert!(items.contains("https://slug.social/~/a"));
    assert!(items.contains("https://slug.social/~/leaf"));
    assert!(items.contains("https://slug.social/~/b"));
}

#[test]
fn item_page_model_depth_all_includes_deep_descendants() {
    let w = World::public(
        Naming::Leaf,
        "@00000000-0000-0000-0000-000000000000:test:local/test\n\
         ~/topic {root}\n\
         ~/topic/a {alpha}\n\
         ~/topic/a/mid {mid}\n\
         ~/topic/a/mid/leaf {leaf}\n\
         ~/topic/b {beta}\n",
    );
    let model = w.page("~/topic", GARDEN_DEPTH_ALL);
    assert_eq!(model.child_depth, GARDEN_DEPTH_ALL);
    let items: HashSet<&str> =
        model.child_rankings.unranked_items.iter().map(|u| u.as_str()).collect();
    assert!(items.contains("https://slug.social/~/leaf"));
    assert!(items.contains("https://slug.social/~/b"));
}

#[test]
fn item_page_scope_labels_prompt_and_lists_memberships() {
    let w = World::public(
        Naming::Leaf,
        "~jedi { who is a jedi }\n~luke { farm boy }\n{ in }\n~luke <: ~jedi\n",
    );
    let jedi = w.page("~/jedi", 1);
    assert!(jedi.is_scope, "jedi has an active member");
    assert_eq!(jedi.body.as_deref(), Some("who is a jedi"));
    assert!(jedi.memberships.is_empty());

    let luke = w.page("~/x/luke", 1);
    assert!(!luke.is_scope);
    assert_eq!(luke.body.as_deref(), Some("farm boy"));
    assert_eq!(luke.memberships.len(), 1);
    assert_eq!(luke.memberships[0].status, MembershipStatus::Active);
    assert!(luke.memberships[0].parent.as_str().ends_with("/jedi"));
    assert_eq!(luke.memberships[0].containment_weight, 1);
    let crumbs: Vec<String> = luke.crumb_chain.iter().map(|id| id.last_segment()).collect();
    assert_eq!(crumbs, vec!["jedi", "luke"]);
}

#[test]
fn item_page_crumb_picks_strongest_parent_lists_alternates() {
    let w = World::public(
        Naming::Leaf,
        "~jedi { j }\n~sith { s }\n~luke { l }\n{ j1 }\n~luke <: ~jedi\n{ s1 }\n~luke <: ~sith\n{ j2 }\n~luke <: ~jedi\n",
    );
    let reduced = w.state();
    let content = content_for_garden_view(&reduced, &ScopeId::Public);
    let luke = ItemId::parse("~luke").unwrap().ontology_leaf();
    let chain = containment_crumb_chain(content, &luke);
    assert_eq!(chain.last().map(|id| id.last_segment()).as_deref(), Some("luke"));
    assert_eq!(chain[0].last_segment(), "jedi", "stronger jedi parent first");

    let model = w.page("~luke", 1);
    assert_eq!(model.alternate_scopes.len(), 1);
    assert_eq!(model.alternate_scopes[0].last_segment(), "sith");
}

#[test]
fn suspended_borders_and_the_journal_follow_the_claims() {
    let mut w = World::public(
        Naming::Leaf,
        "~jedi { j }\n~luke { l }\n{ in }\n~luke <: ~jedi\n",
    );
    w.posts.apply(2, "{ out }\n~luke !<: ~jedi\n");
    let suspended = w.page("~luke", 1);
    assert!(suspended.memberships.is_empty());
    assert_eq!(suspended.suspended_borders.len(), 1);
    assert_eq!(suspended.suspended_borders[0].status, MembershipStatus::Suspended);
    assert!(!suspended.item_has_parent);

    w.posts.apply(3, "{ still in }\n~luke <: ~jedi\n");
    let breached = w.page("~luke", 1);
    assert_eq!(breached.memberships.len(), 1);
    assert_eq!(breached.fallen_journal.len(), 1);
    assert_eq!(
        pair_weight_label(&breached.memberships[0]),
        "containment 2 · border 1"
    );
    assert_eq!(w.page("~jedi", 1).fallen_journal.len(), 1);
}

#[test]
fn item_page_scope_body_is_labeled_prompt_in_relations_model() {
    let w = World::public(
        Naming::Leaf,
        "~/topic {the prompt}\n~/topic/a {alpha}\n~/topic/b {beta}\n",
    );
    let model = w.page("~/topic", 1);
    assert!(model.is_scope);
    assert_eq!(model.body.as_deref(), Some("the prompt"));
}

#[test]
fn containment_breadcrumb_emits_leaf_hrefs() {
    let jedi = ItemId::parse("~jedi").unwrap().ontology_leaf();
    let luke = ItemId::parse("~luke").unwrap().ontology_leaf();
    let path = OntologyPath::from_item(luke.clone());
    let crumbs = scoped_bc_containment(&path, &vec![jedi, luke], &ThreadNav::public());
    let hrefs: Vec<&str> = crumbs.iter().map(|c| c.href.as_str()).collect();
    assert!(hrefs.contains(&"/~/jedi"), "missing jedi crumb");
    assert!(hrefs.contains(&"/~/luke"), "missing luke crumb");
    assert!(!hrefs.iter().any(|h| h.contains("/~/x/")));
    assert!(crumbs.last().unwrap().current);
}

// ---------------------------------------------------------------------------
// Properties on posts
// ---------------------------------------------------------------------------

#[test]
fn crumbs_stop_where_a_trail_meets_itself() {
    let w = World::public(
        Naming::Leaf,
        "~a { a }\n~b { b }\n~a <: ~b\n~b <: ~a\n",
    );
    let reduced = w.state();
    let content = content_for_garden_view(&reduced, &ScopeId::Public);
    let a = ItemId::parse("~a").unwrap().ontology_leaf();
    let names: Vec<String> =
        containment_crumb_chain(content, &a).iter().map(|i| i.last_segment()).collect();
    assert_eq!(names, vec!["b", "a"]);
    assert_eq!(
        strongest_parent(content, &a).map(|p| p.last_segment()).as_deref(),
        Some("b")
    );
    assert!(containment_crumb_chain(content, &ItemId::ontology_root()).is_empty());
}

#[test]
fn equal_parents_go_by_their_keys() {
    let w = World::public(
        Naming::Leaf,
        "~a { a }\n~q { q }\n~p { p }\n~r { r }\n~a <: ~q\n~a <: ~p\n~p <: ~r\n",
    );
    let reduced = w.state();
    let content = content_for_garden_view(&reduced, &ScopeId::Public);
    let a = ItemId::parse("~a").unwrap().ontology_leaf();
    assert_eq!(strongest_parent(content, &a).map(|p| p.last_segment()).as_deref(), Some("p"));
    let names: Vec<String> =
        containment_crumb_chain(content, &a).iter().map(|i| i.last_segment()).collect();
    assert_eq!(names, vec!["r", "p", "a"]);
}

#[test]
fn heavier_parents_come_first() {
    let w = World::public(
        Naming::Leaf,
        "~a { a }\n~p { p }\n~q { q }\n~a <: ~p\n~a <: ~q\n~a <: ~q\n",
    );
    let reduced = w.state();
    let content = content_for_garden_view(&reduced, &ScopeId::Public);
    let a = ItemId::parse("~a").unwrap().ontology_leaf();
    let pairs = child_border_pairs(content, &a);
    let parents: Vec<String> = pairs.iter().map(|p| p.parent.last_segment()).collect();
    assert_eq!(parents, vec!["q", "p"]);
    let scopes: Vec<String> =
        w.page("~a", 1).scopes.iter().map(|s| s.last_segment()).collect();
    assert_eq!(scopes, vec!["q", "p"]);
}

#[test]
fn the_landing_page_deals_an_open_pair() {
    let w = World::public(
        Naming::Leaf,
        "~/x {x}\n~/x/a {a}\n~/x/b {b}\n~/x/c {c}\n~/y {y}\n~/y/d {d}\n~/y/e {e}\n\
         {r}\n~/x/a 2:1 ~/x/b\n",
    );
    let reduced = w.state();
    let content = content_for_garden_view(&reduced, &ScopeId::Public);
    let open = open_questions(content);
    let names: Vec<String> = open.iter().map(|q| q.scope.last_segment()).collect();
    assert_eq!(names, vec!["x", "y"]);
    assert_eq!((open[0].voted, open[0].possible, open[0].members), (1, 3, 3));
    assert_eq!((open[1].voted, open[1].possible), (0, 1));
    let best = pick_landing_question(content).unwrap();
    assert_eq!(best.scope.last_segment(), "x");
    let ranked = rank_open_questions(content, &reduced, &ScopeId::Public);
    assert_eq!(ranked[0].question.scope.last_segment(), "x");

    let landing = vote_landing(&reduced, content, &ScopeId::Public, &Vec::new());
    let deal = landing.deal.unwrap();
    assert_eq!(deal.question.scope.last_segment(), "x");
    assert_eq!(deal.pair.a.last_segment(), "a");
    assert_eq!(deal.pair.b.last_segment(), "c");
    assert_eq!(landing.index.len(), 1);
    assert_eq!(landing.index[0].question.scope.last_segment(), "y");
}

#[test]
fn the_landing_page_walks_on_where_all_is_skipped() {
    let w = World::public(
        Naming::Leaf,
        "~/x {x}\n~/x/a {a}\n~/x/b {b}\n~/x/c {c}\n~/y {y}\n~/y/d {d}\n~/y/e {e}\n\
         {r}\n~/x/a 2:1 ~/x/b\n",
    );
    let reduced = w.state();
    let content = content_for_garden_view(&reduced, &ScopeId::Public);
    let item = |s: &str| ItemId::parse(s).unwrap().ontology_leaf();
    let skip = |lo: &str, hi: &str| slugsocial::votes::VoteSkipEntry {
        lo: item(lo),
        hi: item(hi),
        pool: None,
        aspect: None,
        ts: 1,
    };
    let skips = vec![skip("~a", "~c"), skip("~c", "~b")];
    let landing = vote_landing(&reduced, content, &ScopeId::Public, &skips);
    let deal = landing.deal.unwrap();
    assert_eq!(deal.question.scope.last_segment(), "y");
    assert_eq!(landing.index[0].question.scope.last_segment(), "x");

    let all = vec![skip("~a", "~c"), skip("~c", "~b"), skip("~e", "~d")];
    let none = vote_landing(&reduced, content, &ScopeId::Public, &all);
    assert!(none.deal.is_none());
    assert_eq!(none.index.len(), 2);
}

#[test]
fn newer_votes_outrank_newer_posts() {
    let w = World::public(
        Naming::Leaf,
        "~/x {x}\n~/x/a {a}\n~/x/b {b}\n~/x/c {c}\n~/y {y}\n~/y/d {d}\n~/y/e {e}\n\
         {r}\n~/x/a 2:1 ~/x/b\n",
    );
    let mut reduced = w.state();
    reduced.forum_threads.push(ForumThread {
        scope: ScopeId::Public,
        tag: "y".to_string(),
        last_activity_ts: 99,
        last_actor: "alice".to_string(),
    });
    let content = content_for_garden_view(&reduced, &ScopeId::Public);
    let ranked = rank_open_questions(content, &reduced, &ScopeId::Public);
    assert_eq!(ranked[0].question.scope.last_segment(), "x");
    assert_eq!(ranked[1].thread_ts, 99);
}

#[test]
fn rank_history_names_the_votes_behind_a_change() {
    let w = World::public(Naming::Leaf, "~/x {x}\n~/x/a {a}\n~/x/b {b}\n");
    let mut reduced = w.state();
    reduced.ingests.push(Ingest {
        ts: 5,
        id: "p1".to_string(),
        raw: "~a 2:1 ~b".to_string(),
        principal: "alice".to_string(),
        delegate: None,
        room_id: "public".to_string(),
        thread_tag: "t".to_string(),
    });
    reduced.public_content.rank_history.push(ItemRankHistory {
        item: ItemId::parse("~a").unwrap().ontology_leaf(),
        entries: vec![
            RankHistoryEntry {
                ts: 5,
                scope_rank: 1,
                scope_total: 2,
                scope_rank_delta: -1,
                thread: "t".to_string(),
                post_id: "p1".to_string(),
            },
            RankHistoryEntry {
                ts: 6,
                scope_rank: 2,
                scope_total: 2,
                scope_rank_delta: 1,
                thread: "t".to_string(),
                post_id: "gone".to_string(),
            },
        ],
    });
    reduced.public_content.item_threads.push(ItemThreads {
        item: ItemId::parse("~a").unwrap().ontology_leaf(),
        tags: vec!["z".to_string(), "m".to_string()],
    });
    let vote = |a: &str, b: &str| WrittenVote {
        item1: a.to_string(),
        item2: b.to_string(),
        ratio_left: 2,
        ratio_right: 1,
        explanation: "why".to_string(),
    };
    let table = vec![PostVotes {
        post_id: "p1".to_string(),
        votes: vec![vote("~/a", "~/b"), vote("~/c", "~/d")],
    }];
    let model = build_item_page_view_model(
        &reduced,
        &ScopeId::Public,
        "~/x/a",
        1,
        &ChildrenRankings::empty(),
        &table,
    );
    assert_eq!(model.rank_history.len(), 2);
    assert_eq!(model.rank_history[0].caused_by.len(), 1);
    assert_eq!(model.rank_history[0].caused_by[0].principal, "alice");
    assert_eq!(model.rank_history[0].caused_by[0].body, "why");
    assert!(model.rank_history[1].caused_by.is_empty());
    assert_eq!(model.threads, vec!["m", "z"]);
    let first = slugsocial::browse::history_row(&model, &ThreadNav::public(), 0);
    assert_eq!(first.position, "#1 of 2 ↑1");
    assert_eq!(first.note, " — entered");
    assert!(!first.transitive);
    let second = slugsocial::browse::history_row(&model, &ThreadNav::public(), 1);
    assert_eq!(second.position, "#2 of 2 ↓1");
    assert_eq!(second.note, " — current");
    assert!(second.transitive);
}
