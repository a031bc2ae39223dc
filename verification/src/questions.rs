//! Questions: a garden scope, by itself or under an aspect, as something to be judged pair by
//! pair; and the index of the questions that can be asked.

use vstd::prelude::*;

use crate::garden;
use crate::item_page;
use crate::landing;
use crate::nav::{self, NavModel, ThreadNav};
use crate::paths::{self, ItemId};
use crate::sort::{self, Key, SortKey};
use crate::state::{
    self, BorderModel, BorderPairState, ChildrenRankings, ContentState, GroupState, ItemPair,
    MembershipStatus, RankingsModel, RecentVote, VoteData,
};
use crate::text;
use crate::votes;

verus! {

/// How many questions the index lists.
pub const QUESTION_INDEX_CAP: usize = 50;

// ---------------------------------------------------------------------------
// Collections
// ---------------------------------------------------------------------------

/// The collection that a path segment names: `psalms` is the item `~psalms`.
pub open spec fn collection_key(collection: Seq<char>) -> Option<Seq<char>> {
    let raw = text::trim_char_start(text::trim(collection), '/');
    if raw.len() == 0 || raw.contains('/') {
        None
    } else {
        let written = if text::has_prefix(raw, "~"@) {
            raw
        } else {
            "~"@ + raw
        };
        match paths::item_key(written) {
            Some(k) => {
                let id = paths::leaf_key(paths::normal_key(k));
                if paths::tilde_tail(id) == Some(Seq::<char>::empty()) {
                    None
                } else {
                    Some(id)
                }
            },
            None => None,
        }
    }
}

/// The collection that a path segment names; not the root, nor a path of several segments.
pub fn parse_collection_leaf(collection: &str) -> (r: Option<ItemId>)
    ensures
        votes::opt_item(r) == collection_key(collection@),
{
    let raw: Vec<char> = text::without_leading(&text::trimmed(&text::chars(collection)), '/');
    if raw.len() == 0 || text::has_char(&raw, '/') {
        return None;
    }
    let plain: String = text::string(&raw);
    let written: String = if text::starts_with(&raw, "~") {
        plain
    } else {
        text::cat("~", plain.as_str())
    };
    match ItemId::parse(written.as_str()) {
        Some(k) => {
            let id: ItemId = k.normalized_storage().ontology_leaf();
            if id.is_ontology_root() {
                None
            } else {
                Some(id)
            }
        },
        None => None,
    }
}

/// Whether the garden knows a collection: as an item, by a body, or by its members.
pub open spec fn is_known(c: ContentState, key: Seq<char>) -> bool {
    paths::keys(c.items@).contains(key) || state::body_of(c, key) is Some || state::members_of(
        c,
        key,
    ).len() > 0
}

/// Whether the garden knows a collection.
pub fn collection_is_known(content: &ContentState, id: &ItemId) -> (r: bool)
    ensures
        r == is_known(*content, id@),
{
    if paths::holds_item(&content.items, id) {
        return true;
    }
    if content.body(id).is_some() {
        return true;
    }
    let members: Vec<ItemId> = content.members_of(id);
    assert(paths::keys(members@).len() == members@.len());
    members.len() > 0
}

// ---------------------------------------------------------------------------
// Headlines
// ---------------------------------------------------------------------------

/// What a question asks: in the words of its scope or aspect, or in general words.
pub enum QuestionHeadline {
    Body(String),
    Fallback(String),
}

/// The mathematical value of a [`QuestionHeadline`].
pub enum Headline {
    Body(Seq<char>),
    Fallback(Seq<char>),
}

impl View for QuestionHeadline {
    type V = Headline;

    open spec fn view(&self) -> Headline {
        match *self {
            QuestionHeadline::Body(s) => Headline::Body(s@),
            QuestionHeadline::Fallback(s) => Headline::Fallback(s@),
        }
    }
}

/// A text without white space around it, if anything is left.
pub open spec fn not_blank(s: Option<Seq<char>>) -> Option<Seq<char>> {
    match s {
        Some(t) => if text::trim(t).len() > 0 {
            Some(text::trim(t))
        } else {
            None
        },
        None => None,
    }
}

fn unless_blank(s: Option<&String>) -> (r: Option<String>)
    ensures
        text::opt_view(r) == not_blank(
            match s {
                Some(t) => Some(t@),
                None => None,
            },
        ),
{
    match s {
        Some(t) => {
            let u: String = text::trim_str(t.as_str());
            if u.as_str().is_empty() {
                None
            } else {
                Some(u)
            }
        },
        None => None,
    }
}

/// What a question asks: the prompt of the aspect, or the body of the scope, or in general
/// words where there is none.
pub open spec fn headline_of(c: ContentState, collection: Seq<char>, aspect: Option<Seq<char>>) -> Headline {
    match aspect {
        Some(slug) => match not_blank(state::prompt_of(c, slug)) {
            Some(p) => Headline::Body(p),
            None => Headline::Fallback(":"@ + slug + " — which wins?"@),
        },
        None => match not_blank(state::body_of(c, collection)) {
            Some(b) => Headline::Body(b),
            None => Headline::Fallback("Which is greater: "@ + paths::last_piece(collection) + "?"@),
        },
    }
}

/// What a question asks.
pub fn question_headline(content: &ContentState, collection: &ItemId, aspect: Option<&str>) -> (r:
    QuestionHeadline)
    ensures
        r@ == headline_of(*content, collection@, text::opt_str(aspect)),
{
    match aspect {
        Some(slug) => match unless_blank(content.aspect_prompt(slug)) {
            Some(p) => QuestionHeadline::Body(p),
            None => QuestionHeadline::Fallback(text::cat3(":", slug, " — which wins?")),
        },
        None => match unless_blank(content.body(collection)) {
            Some(b) => QuestionHeadline::Body(b),
            None => {
                let leaf: String = collection.last_segment();
                QuestionHeadline::Fallback(text::cat3("Which is greater: ", leaf.as_str(), "?"))
            },
        },
    }
}

/// The title of a question: its first line, cut to eighty characters.
pub open spec fn title_of(h: Headline) -> Seq<char> {
    match h {
        Headline::Fallback(s) => s,
        Headline::Body(b) => {
            let line = text::trim(text::first_line(b));
            if line.len() == 0 {
                "question"@
            } else if line.len() > 80 {
                line.take(79) + "…"@
            } else {
                line
            }
        },
    }
}

/// The title of a question.
pub fn question_title(headline: &QuestionHeadline) -> (r: String)
    ensures
        r@ == title_of(headline@),
{
    match headline {
        QuestionHeadline::Fallback(s) => s.clone(),
        QuestionHeadline::Body(b) => {
            let line: Vec<char> = text::trimmed(&text::head_line(&text::chars(b.as_str())));
            if line.len() == 0 {
                "question".to_owned()
            } else if line.len() > 80 {
                let head: Vec<char> = text::cut(&line, 0, 79);
                assert(head@ =~= line@.take(79));
                let head_text: String = text::string(&head);
                text::cat(head_text.as_str(), "…")
            } else {
                text::string(&line)
            }
        },
    }
}

/// A title made from a body has at most eighty characters.
pub proof fn law_title_is_short(b: Seq<char>)
    ensures
        title_of(Headline::Body(b)).len() <= 80,
{
    reveal_strlit("question");
    reveal_strlit("…");
}

// ---------------------------------------------------------------------------
// Links
// ---------------------------------------------------------------------------

/// The URL of the page of a question.
pub open spec fn question_path(nav: NavModel, leaf: Seq<char>, aspect: Option<Seq<char>>) -> Seq<char> {
    match aspect {
        Some(a) => nav::vote_prefix(nav) + "/q/"@ + leaf + "/"@ + a,
        None => nav::vote_prefix(nav) + "/q/"@ + leaf,
    }
}

/// The URL of the page of a question.
pub fn question_href(nav: &ThreadNav, leaf: &str, aspect: Option<&str>) -> (r: String)
    ensures
        r@ == question_path(nav@, leaf@, text::opt_str(aspect)),
{
    let prefix: String = nav.room_path_prefix_for_vote_compare();
    match aspect {
        Some(a) => text::cat5(prefix.as_str(), "/q/", leaf, "/", a),
        None => text::cat3(prefix.as_str(), "/q/", leaf),
    }
}

/// The URL of the ranking that a question leads to.
pub open spec fn ranking_url(nav: NavModel, collection: Seq<char>, aspect: Option<Seq<char>>) -> Seq<char> {
    let base = nav::item_href(nav, collection);
    match aspect {
        Some(a) => if a.len() > 0 {
            base + "#aspect-"@ + a
        } else {
            base
        },
        None => base,
    }
}

/// The URL of the ranking that a question leads to.
pub fn ranking_href(nav: &ThreadNav, collection: &ItemId, aspect: Option<&str>) -> (r: String)
    ensures
        r@ == ranking_url(nav@, collection@, text::opt_str(aspect)),
{
    let base: String = nav.garden_item_href(collection);
    match aspect {
        Some(a) => if a.is_empty() {
            base
        } else {
            text::cat3(base.as_str(), "#aspect-", a)
        },
        None => base,
    }
}

/// What the page of a question says around the pair.
pub struct QuestionCtx {
    pub aspect: Option<String>,
    pub question_path: String,
    pub garden_href: String,
    pub thread_href: String,
    pub title: String,
    pub headline: QuestionHeadline,
}

/// What the page of a question says around the pair.
pub fn build_question_ctx(
    nav: &ThreadNav,
    collection: &ItemId,
    aspect: Option<&str>,
    headline: QuestionHeadline,
) -> (r: QuestionCtx)
    ensures
        text::opt_view(r.aspect) == text::opt_str(aspect),
        r.question_path@ == question_path(
            nav@,
            paths::last_piece(collection@),
            text::opt_str(aspect),
        ),
        r.garden_href@ == ranking_url(nav@, collection@, text::opt_str(aspect)),
        r.thread_href@ == nav::thread_href(nav@, paths::last_piece(collection@)),
        r.title@ == title_of(headline@),
        r.headline == headline,
{
    let leaf: String = collection.last_segment();
    QuestionCtx {
        aspect: match aspect {
            Some(a) => Some(a.to_owned()),
            None => None,
        },
        question_path: question_href(nav, leaf.as_str(), aspect),
        garden_href: ranking_href(nav, collection, aspect),
        thread_href: nav.thread_url(leaf.as_str()),
        title: question_title(&headline),
        headline,
    }
}

/// What the page of a question shows.
pub struct QuestionPage {
    pub collection: ItemId,
    pub ctx: QuestionCtx,
    /// Whether there are two members to compare; else the page says that there are not.
    pub has_pair: bool,
    /// The thread that votes go to.
    pub thread: String,
    /// The pool of the pairs.
    pub pool: String,
}

/// Whether a path names a question that the garden knows.
pub open spec fn question_target(c: ContentState, collection: Seq<char>, aspect: Option<Seq<char>>) -> Option<
    Seq<char>,
> {
    if aspect is Some && !garden::is_aspect_slug(aspect.unwrap()) {
        None
    } else {
        match collection_key(collection) {
            Some(k) => if is_known(c, k) {
                Some(k)
            } else {
                None
            },
            None => None,
        }
    }
}

/// What the page of a question shows; none where the path names no question that the garden
/// knows.
pub fn question_page(content: &ContentState, nav: &ThreadNav, collection: &str, aspect: Option<&str>) -> (r:
    Option<QuestionPage>)
    ensures
        match question_target(*content, collection@, text::opt_str(aspect)) {
            None => r is None,
            Some(k) => match r {
                None => false,
                Some(p) => {
                    &&& p.collection@ == k
                    &&& text::opt_view(p.ctx.aspect) == text::opt_str(aspect)
                    &&& p.ctx.thread_href@ == nav::thread_href(nav@, paths::last_piece(k))
                    &&& p.ctx.headline@ == headline_of(*content, k, text::opt_str(aspect))
                    &&& p.ctx.title@ == title_of(p.ctx.headline@)
                    &&& p.ctx.question_path@ == question_path(
                        nav@,
                        paths::last_piece(k),
                        text::opt_str(aspect),
                    )
                    &&& p.ctx.garden_href@ == ranking_url(nav@, k, text::opt_str(aspect))
                    &&& p.has_pair == (landing::contestants(*content, k).len() >= 2)
                    &&& p.thread@ == paths::last_piece(k)
                    &&& p.pool@ == paths::display(k)
                },
            },
        },
{
    match aspect {
        Some(slug) => {
            if !garden::is_valid_aspect_slug(slug) {
                return None;
            }
        },
        None => {},
    }
    let id: ItemId = match parse_collection_leaf(collection) {
        Some(i) => i,
        None => {
            return None;
        },
    };
    if !collection_is_known(content, &id) {
        return None;
    }
    let members: Vec<ItemId> = content.comparable_items(&content.members_of(&id));
    assert(paths::keys(members@).len() == members@.len());
    let headline: QuestionHeadline = question_headline(content, &id, aspect);
    let ctx: QuestionCtx = build_question_ctx(nav, &id, aspect, headline);
    let thread: String = id.last_segment();
    let pool: String = id.display_path();
    Some(QuestionPage { collection: id, ctx, has_pair: members.len() >= 2, thread, pool })
}

// ---------------------------------------------------------------------------
// Sections of the page
// ---------------------------------------------------------------------------

/// An aspect of a scope with its prompt.
pub struct AspectLink {
    pub slug: String,
    pub prompt: Option<String>,
}

impl View for AspectLink {
    type V = (Seq<char>, Option<Seq<char>>);

    open spec fn view(&self) -> (Seq<char>, Option<Seq<char>>) {
        (self.slug@, text::opt_view(self.prompt))
    }
}

/// The aspects of a scope that have votes, each with its prompt where it has one.
pub open spec fn scope_aspects(c: ContentState, collection: Seq<char>) -> Seq<
    (Seq<char>, Option<Seq<char>>),
> {
    let slugs = sort::sorted_set(
        landing::slugs_upto(c, paths::normal_key(collection), c.aspect_groups@.len() as int),
    );
    Seq::new(slugs.len(), |i: int| (slugs[i], not_blank(state::prompt_of(c, slugs[i]))))
}

/// The aspects of a scope that have votes, in order.
pub fn aspects_for_scope(content: &ContentState, collection: &ItemId) -> (r: Vec<AspectLink>)
    ensures
        state::rows(r@) == scope_aspects(*content, collection@),
{
    let parent: ItemId = collection.normalized_storage();
    let slugs: Vec<String> = sort::sort_unique(&landing::aspect_slugs(content, &parent));
    let ghost sv = text::views(slugs@);
    let mut r: Vec<AspectLink> = Vec::new();
    let mut i: usize = 0;
    while i < slugs.len()
        invariant
            i <= slugs.len(),
            r.len() == i,
            sv == text::views(slugs@),
            forall|j: int|
                0 <= j < i ==> (#[trigger] r@[j])@ == (
                    sv[j],
                    not_blank(state::prompt_of(*content, sv[j])),
                ),
        decreases slugs.len() - i,
    {
        assert(sv[i as int] == slugs@[i as int]@);
        let prompt: Option<String> = unless_blank(content.aspect_prompt(slugs[i].as_str()));
        r.push(AspectLink { slug: slugs[i].clone(), prompt });
        i = i + 1;
    }
    assert(state::rows(r@) =~= scope_aspects(*content, collection@));
    r
}

/// The ranking of the members of a question.
pub open spec fn rankings_for(c: ContentState, collection: Seq<char>, aspect: Option<Seq<char>>) -> RankingsModel {
    match aspect {
        Some(slug) => if slug.len() > 0 && state::aspect_index(c, collection, slug) is Some {
            c.aspect_groups@[state::aspect_index(c, collection, slug).unwrap()].rankings@
        } else {
            state::rankings_of(c, collection)
        },
        None => state::rankings_of(c, collection),
    }
}

/// The ranking of the members of a question: under the aspect where it has votes, else the
/// canonical one.
pub fn question_rankings(content: &ContentState, collection: &ItemId, aspect: Option<&str>) -> (r:
    ChildrenRankings)
    ensures
        r@ == rankings_for(*content, collection@, text::opt_str(aspect)),
{
    match aspect {
        Some(slug) => {
            if !slug.is_empty() {
                match content.aspect_group(collection, slug) {
                    Some(at) => {
                        return content.aspect_groups[at].rankings.copy();
                    },
                    None => {},
                }
            }
        },
        None => {},
    }
    content.children_rankings(collection)
}

/// How many of some pairs have both ends among some members.
pub open spec fn pairs_among(pairs: Seq<(Seq<char>, Seq<char>)>, members: Seq<Seq<char>>) -> nat
    decreases pairs.len(),
{
    if pairs.len() == 0 {
        0
    } else {
        pairs_among(pairs.drop_last(), members) + if members.contains(pairs.last().0)
            && members.contains(pairs.last().1) {
            1nat
        } else {
            0nat
        }
    }
}

/// How many pairs of the members have been compared in a vote graph.
pub fn scoped_comparison_count(group: &GroupState, members: &Vec<ItemId>) -> (r: usize)
    ensures
        r == pairs_among(state::rows(group.voted_pairs@), paths::keys(members@)),
{
    let ghost pv = state::rows(group.voted_pairs@);
    let ghost mk = paths::keys(members@);
    let mut n: usize = 0;
    let mut i: usize = 0;
    assert(pairs_among(pv.take(0), mk) == 0);
    while i < group.voted_pairs.len()
        invariant
            i <= group.voted_pairs.len(),
            n <= i,
            pv == state::rows(group.voted_pairs@),
            mk == paths::keys(members@),
            n == pairs_among(pv.take(i as int), mk),
        decreases group.voted_pairs.len() - i,
    {
        assert(pv.take(i + 1).drop_last() =~= pv.take(i as int));
        assert(pv.take(i + 1).last() == group.voted_pairs@[i as int]@);
        let p: &ItemPair = &group.voted_pairs[i];
        if paths::holds_item(members, &p.a) && paths::holds_item(members, &p.b) {
            n = n + 1;
        }
        i = i + 1;
    }
    assert(pv.take(pv.len() as int) =~= pv);
    n
}

/// How many pairs of a question have been compared.
pub open spec fn comparisons_of(c: ContentState, collection: Seq<char>, aspect: Option<Seq<char>>) -> nat {
    let members = state::members_of(c, collection);
    match aspect {
        Some(slug) => if slug.len() > 0 {
            match state::aspect_index(c, collection, slug) {
                Some(at) => pairs_among(
                    state::rows(c.aspect_groups@[at].group.voted_pairs@),
                    members,
                ),
                None => 0,
            }
        } else {
            pairs_among(state::rows(c.ranking_group.voted_pairs@), members)
        },
        None => pairs_among(state::rows(c.ranking_group.voted_pairs@), members),
    }
}

/// How many pairs of a question have been compared.
pub fn question_comparison_count(content: &ContentState, collection: &ItemId, aspect: Option<&str>) -> (r:
    usize)
    ensures
        r == comparisons_of(*content, collection@, text::opt_str(aspect)),
{
    let members: Vec<ItemId> = content.members_of(collection);
    match aspect {
        Some(slug) => {
            if !slug.is_empty() {
                return match content.aspect_group(collection, slug) {
                    Some(at) => scoped_comparison_count(
                        &content.aspect_groups[at].group,
                        &members,
                    ),
                    None => 0,
                };
            }
        },
        None => {},
    }
    scoped_comparison_count(&content.ranking_group, &members)
}

/// The ends of the newest votes of a graph.
pub open spec fn recent_ends(v: Seq<RecentVote>) -> Seq<(Seq<char>, Seq<char>)> {
    Seq::new(v.len(), |i: int| (v[i].a@, v[i].b@))
}

/// The ends of recorded votes.
pub open spec fn vote_ends(v: Seq<VoteData>) -> Seq<(Seq<char>, Seq<char>)> {
    Seq::new(v.len(), |i: int| (v[i].a@, v[i].b@))
}

/// How many votes a question has.
pub open spec fn votes_of(c: ContentState, collection: Seq<char>, aspect: Option<Seq<char>>) -> nat {
    let members = state::members_of(c, collection);
    match aspect {
        Some(slug) => if slug.len() > 0 {
            match state::aspect_index(c, collection, slug) {
                Some(at) => pairs_among(
                    recent_ends(c.aspect_groups@[at].group.recent_votes@),
                    members,
                ),
                None => 0,
            }
        } else {
            pairs_among(vote_ends(c.votes@), members)
        },
        None => pairs_among(vote_ends(c.votes@), members),
    }
}

fn count_recent(v: &Vec<RecentVote>, members: &Vec<ItemId>) -> (r: usize)
    ensures
        r == pairs_among(recent_ends(v@), paths::keys(members@)),
{
    let ghost pv = recent_ends(v@);
    let ghost mk = paths::keys(members@);
    let mut n: usize = 0;
    let mut i: usize = 0;
    assert(pairs_among(pv.take(0), mk) == 0);
    while i < v.len()
        invariant
            i <= v.len(),
            n <= i,
            pv == recent_ends(v@),
            mk == paths::keys(members@),
            n == pairs_among(pv.take(i as int), mk),
        decreases v.len() - i,
    {
        assert(pv.take(i + 1).drop_last() =~= pv.take(i as int));
        assert(pv.take(i + 1).last() == (v@[i as int].a@, v@[i as int].b@));
        if paths::holds_item(members, &v[i].a) && paths::holds_item(members, &v[i].b) {
            n = n + 1;
        }
        i = i + 1;
    }
    assert(pv.take(pv.len() as int) =~= pv);
    n
}

fn count_votes(v: &Vec<VoteData>, members: &Vec<ItemId>) -> (r: usize)
    ensures
        r == pairs_among(vote_ends(v@), paths::keys(members@)),
{
    let ghost pv = vote_ends(v@);
    let ghost mk = paths::keys(members@);
    let mut n: usize = 0;
    let mut i: usize = 0;
    assert(pairs_among(pv.take(0), mk) == 0);
    while i < v.len()
        invariant
            i <= v.len(),
            n <= i,
            pv == vote_ends(v@),
            mk == paths::keys(members@),
            n == pairs_among(pv.take(i as int), mk),
        decreases v.len() - i,
    {
        assert(pv.take(i + 1).drop_last() =~= pv.take(i as int));
        assert(pv.take(i + 1).last() == (v@[i as int].a@, v@[i as int].b@));
        if paths::holds_item(members, &v[i].a) && paths::holds_item(members, &v[i].b) {
            n = n + 1;
        }
        i = i + 1;
    }
    assert(pv.take(pv.len() as int) =~= pv);
    n
}

/// How many votes a question has between its members.
pub fn question_vote_count(content: &ContentState, collection: &ItemId, aspect: Option<&str>) -> (r:
    usize)
    ensures
        r == votes_of(*content, collection@, text::opt_str(aspect)),
{
    let members: Vec<ItemId> = content.members_of(collection);
    match aspect {
        Some(slug) => {
            if !slug.is_empty() {
                return match content.aspect_group(collection, slug) {
                    Some(at) => count_recent(
                        &content.aspect_groups[at].group.recent_votes,
                        &members,
                    ),
                    None => 0,
                };
            }
        },
        None => {},
    }
    count_votes(&content.votes, &members)
}

/// The suspended claims among the first `n` that something belongs to a scope.
pub open spec fn suspended_upto(c: ContentState, parent: Seq<char>, n: int) -> Seq<BorderModel>
    decreases n,
{
    if n <= 0 {
        Seq::empty()
    } else {
        let b = c.borders@[n - 1]@;
        let front = suspended_upto(c, parent, n - 1);
        if b.parent == parent && b.status == MembershipStatus::Suspended {
            front.push(b)
        } else {
            front
        }
    }
}

/// What suspended members are ordered by.
pub open spec fn child_keys(rows: Seq<BorderModel>) -> Seq<Key> {
    Seq::new(rows.len(), |i: int| Key { major: 0, minor: 0, text: rows[i].child })
}

/// The suspended members of a scope, in the order of their keys.
pub open spec fn suspended_members(c: ContentState, parent: Seq<char>) -> Seq<BorderModel> {
    let rows = suspended_upto(c, paths::leaf_key(parent), c.borders@.len() as int);
    sort::pick(rows, sort::stable_order(child_keys(rows)))
}

/// The suspended members of a scope, in the order of their keys.
pub fn suspended_in_scope(content: &ContentState, parent: &ItemId) -> (r: Vec<BorderPairState>)
    ensures
        state::rows(r@) == suspended_members(*content, parent@),
{
    let leaf: ItemId = parent.ontology_leaf();
    let mut all: Vec<BorderPairState> = Vec::new();
    let mut keys: Vec<SortKey> = Vec::new();
    let mut i: usize = 0;
    assert(state::rows(all@) =~= suspended_upto(*content, leaf@, 0));
    while i < content.borders.len()
        invariant
            i <= content.borders.len(),
            all.len() == keys.len(),
            state::rows(all@) == suspended_upto(*content, leaf@, i as int),
            forall|j: int|
                0 <= j < keys.len() ==> (#[trigger] keys@[j])@ == (Key {
                    major: 0,
                    minor: 0,
                    text: all@[j].child@,
                }),
        decreases content.borders.len() - i,
    {
        let b: &BorderPairState = &content.borders[i];
        if b.parent.same(&leaf) && b.status == MembershipStatus::Suspended {
            let row: BorderPairState = b.copy();
            let key = SortKey { major: 0, minor: 0, text: row.child.to_storage_string() };
            proof {
                state::lemma_rows_push(all@, row);
            }
            all.push(row);
            keys.push(key);
        }
        i = i + 1;
    }
    assert(sort::key_views(keys@) =~= child_keys(state::rows(all@)));
    item_page::pick_borders(&all, &keys)
}

/// A row of the standings of a question.
pub struct StandingsRow {
    pub position: usize,
    pub item: ItemId,
    pub score: String,
    pub pairs: usize,
}

/// The mathematical value of a [`StandingsRow`].
pub struct StandingsModel {
    pub position: nat,
    pub item: Seq<char>,
    pub score: Seq<char>,
    pub pairs: nat,
}

impl View for StandingsRow {
    type V = StandingsModel;

    open spec fn view(&self) -> StandingsModel {
        StandingsModel {
            position: self.position as nat,
            item: self.item@,
            score: self.score@,
            pairs: self.pairs as nat,
        }
    }
}

/// Ranked items as rows, numbered on from `start`.
pub open spec fn component_rows(c: state::ComponentModel, start: nat) -> Seq<StandingsModel> {
    Seq::new(
        c.ranked.len(),
        |i: int|
            StandingsModel {
                position: (start + i + 1) as nat,
                item: c.ranked[i].item,
                score: c.ranked[i].score,
                pairs: c.pairs,
            },
    )
}

/// The rows of some components one after the other, numbered throughout.
pub open spec fn all_standings(components: Seq<state::ComponentModel>) -> Seq<StandingsModel>
    decreases components.len(),
{
    if components.len() == 0 {
        Seq::empty()
    } else {
        let front = all_standings(components.drop_last());
        front + component_rows(components.last(), front.len())
    }
}

/// The components that are listed: under a limit of zero only the first is looked at.
pub open spec fn listed_components(components: Seq<state::ComponentModel>, limit: Option<nat>) -> Seq<
    state::ComponentModel,
> {
    if limit == Some(0nat) && components.len() > 1 {
        components.take(1)
    } else {
        components
    }
}

/// The first rows up to a limit; a limit of zero leaves one row, if there is any.
pub open spec fn limited(rows: Seq<StandingsModel>, limit: Option<nat>) -> Seq<StandingsModel> {
    match limit {
        None => rows,
        Some(n) => {
            let m = if n == 0 {
                1
            } else {
                n
            };
            if rows.len() <= m {
                rows
            } else {
                rows.take(m as int)
            }
        },
    }
}

proof fn lemma_standings_prefix(components: Seq<state::ComponentModel>, n: int)
    requires
        0 <= n <= components.len(),
    ensures
        all_standings(components.take(n)).len() <= all_standings(components).len(),
        all_standings(components.take(n)) == all_standings(components).take(
            all_standings(components.take(n)).len() as int,
        ),
    decreases components.len() - n,
{
    if n == components.len() {
        assert(components.take(n) =~= components);
        assert(all_standings(components).take(all_standings(components).len() as int)
            =~= all_standings(components));
    } else {
        lemma_standings_prefix(components, n + 1);
        assert(components.take(n + 1).drop_last() =~= components.take(n));
        let a = all_standings(components.take(n));
        let b = all_standings(components.take(n + 1));
        assert(b.take(a.len() as int) =~= a);
        assert(all_standings(components).take(a.len() as int) =~= b.take(a.len() as int));
    }
}

/// The standings of a question: position, item, score and number of pairs, up to a limit.
pub fn compact_standings(rankings: &ChildrenRankings, limit: Option<usize>) -> (r: Vec<StandingsRow>)
    requires
        all_standings(rankings@.components).len() < usize::MAX,
    ensures
        ({
            let upto = match limit {
                Some(n) => Some(n as nat),
                None => None,
            };
            state::rows(r@) == limited(
                all_standings(listed_components(rankings@.components, upto)),
                upto,
            )
        }),
{
    let ghost upto = match limit {
        Some(n) => Some(n as nat),
        None => None,
    };
    let ghost comps = listed_components(rankings@.components, upto);
    let ghost full = all_standings(comps);
    proof {
        if comps.len() < rankings@.components.len() {
            lemma_standings_prefix(rankings@.components, 1);
        }
    }
    let listed: usize = match limit {
        Some(n) => if n == 0 && rankings.component_rankings.len() > 1 {
            1
        } else {
            rankings.component_rankings.len()
        },
        None => rankings.component_rankings.len(),
    };
    let mut rows: Vec<StandingsRow> = Vec::new();
    let mut i: usize = 0;
    assert(comps =~= rankings@.components.take(listed as int));
    assert(state::rows(rows@) =~= all_standings(comps.take(0)));
    while i < listed
        invariant
            i <= listed <= rankings.component_rankings.len(),
            upto == (match limit {
                Some(n) => Some(n as nat),
                None => None,
            }),
            comps == listed_components(rankings@.components, upto),
            comps.len() == listed,
            comps == rankings@.components.take(listed as int),
            full == all_standings(comps),
            full.len() < usize::MAX,
            state::rows(rows@) == all_standings(comps.take(i as int)),
            match limit {
                Some(n) => i > 0 ==> rows.len() < n || (rows.len() == 0),
                None => true,
            },
        decreases listed - i,
    {
        let comp: &state::ScopedComponent = &rankings.component_rankings[i];
        let ghost front = all_standings(comps.take(i as int));
        let ghost step = all_standings(comps.take(i + 1));
        let ghost more = component_rows(comp@, front.len());
        assert(comps.take(i + 1).drop_last() =~= comps.take(i as int));
        assert(comps.take(i + 1).last() == comp@);
        assert(step == front + more);
        proof {
            lemma_standings_prefix(comps, i + 1);
        }
        let mut k: usize = 0;
        assert(front + more.take(0) =~= front);
        while k < comp.ranked.len()
            invariant
                k <= comp.ranked.len(),
                i < listed <= rankings.component_rankings.len(),
                upto == (match limit {
                Some(n) => Some(n as nat),
                None => None,
            }),
            comps == listed_components(rankings@.components, upto),
                full == all_standings(comps),
                full.len() < usize::MAX,
                front == all_standings(comps.take(i as int)),
                step == front + more,
                more == component_rows(comp@, front.len()),
                step == full.take(step.len() as int),
                step.len() <= full.len(),
                state::rows(rows@) == front + more.take(k as int),
                match limit {
                    Some(n) => rows.len() < n || rows.len() == 0,
                    None => true,
                },
            decreases comp.ranked.len() - k,
        {
            assert(comp@.ranked.len() == comp.ranked@.len());
            assert(more.len() == comp.ranked@.len());
            assert(state::rows(rows@).len() == rows@.len());
            let row = StandingsRow {
                position: rows.len() + 1,
                item: comp.ranked[k].item.copy(),
                score: comp.ranked[k].score.clone(),
                pairs: comp.pairs,
            };
            assert(comp@.ranked[k as int] == comp.ranked@[k as int]@);
            assert(row@ == more[k as int]);
            let ghost before = state::rows(rows@);
            proof {
                state::lemma_rows_push(rows@, row);
            }
            rows.push(row);
            assert(front + more.take(k + 1) =~= before.push(more[k as int]));
            k = k + 1;
            match limit {
                Some(n) => {
                    if rows.len() >= n {
                        assert(state::rows(rows@).len() == rows@.len());
                        assert(front + more.take(k as int) =~= full.take(rows@.len() as int)) by {
                            assert forall|j: int| 0 <= j < rows@.len() implies (front + more.take(
                                k as int,
                            ))[j] == full[j] by {
                                assert(step[j] == full.take(step.len() as int)[j]);
                            }
                        }
                        assert(full.len() == rows@.len() ==> full.take(rows@.len() as int) =~= full);
                        return rows;
                    }
                },
                None => {},
            }
        }
        assert(more.take(more.len() as int) =~= more);
        i = i + 1;
    }
    assert(comps.take(comps.len() as int) =~= comps);
    assert(state::rows(rows@).len() == rows@.len());
    rows
}

/// How many pairs lie among some members: each further pair counts where both of its ends are
/// members.
pub proof fn law_pairs_among(
    pairs: Seq<(Seq<char>, Seq<char>)>,
    members: Seq<Seq<char>>,
    p: (Seq<char>, Seq<char>),
)
    ensures
        pairs_among(pairs, members) == pairs.filter(
            |q: (Seq<char>, Seq<char>)| members.contains(q.0) && members.contains(q.1),
        ).len(),
        pairs_among(pairs.push(p), members) == pairs_among(pairs, members) + (if members.contains(
            p.0,
        ) && members.contains(p.1) {
            1nat
        } else {
            0
        }),
    decreases pairs.len(),
{
    reveal(Seq::filter);
    assert(pairs.push(p).drop_last() =~= pairs);
    if pairs.len() > 0 {
        law_pairs_among(pairs.drop_last(), members, p);
    }
}

/// A question counts the judged pairs of its own graph, and its own votes, among the members of
/// its collection.
pub proof fn law_question_counts(c: ContentState, collection: Seq<char>, slug: Seq<char>, at: int)
    requires
        c.wf(),
        slug.len() > 0,
        0 <= at < c.aspect_groups@.len(),
        c.aspect_groups@[at].scope@ == collection,
        c.aspect_groups@[at].slug@ == slug,
    ensures
        comparisons_of(c, collection, None) == pairs_among(
            state::rows(c.ranking_group.voted_pairs@),
            state::members_of(c, collection),
        ),
        comparisons_of(c, collection, Some(slug)) == pairs_among(
            state::rows(c.aspect_groups@[at].group.voted_pairs@),
            state::members_of(c, collection),
        ),
        votes_of(c, collection, None) == pairs_among(
            Seq::new(c.votes@.len(), |i: int| (c.votes@[i].a@, c.votes@[i].b@)),
            state::members_of(c, collection),
        ),
        votes_of(c, collection, Some(slug)) == pairs_among(
            Seq::new(
                c.aspect_groups@[at].group.recent_votes@.len(),
                |i: int|
                    (
                        c.aspect_groups@[at].group.recent_votes@[i].a@,
                        c.aspect_groups@[at].group.recent_votes@[i].b@,
                    ),
            ),
            state::members_of(c, collection),
        ),
        rankings_for(c, collection, Some(slug)) == c.aspect_groups@[at].rankings@,
        rankings_for(c, collection, None) == state::rankings_of(c, collection),
{
    state::law_pairs_are_found_by_both_names(c, collection, slug, at);
    assert(vote_ends(c.votes@) =~= Seq::new(
        c.votes@.len(),
        |i: int| (c.votes@[i].a@, c.votes@[i].b@),
    ));
    let v = c.aspect_groups@[at].group.recent_votes@;
    assert(recent_ends(v) =~= Seq::new(v.len(), |i: int| (v[i].a@, v[i].b@)));
}

/// The suspended members of a scope are the children of its suspended claims, in the order of
/// their keys.
pub proof fn law_suspended_members(c: ContentState, parent: Seq<char>, b: BorderModel)
    ensures
        suspended_members(c, parent).contains(b) <==> exists|k: int|
            0 <= k < c.borders@.len() && (#[trigger] c.borders@[k])@ == b && c.borders@[k].parent@
                == paths::leaf_key(parent) && c.borders@[k].status is Suspended,
        forall|i: int, j: int|
            0 <= i < j < suspended_members(c, parent).len() ==> !text::text_lt(
                (#[trigger] suspended_members(c, parent)[j]).child,
                (#[trigger] suspended_members(c, parent)[i]).child,
            ),
{
    let n = c.borders@.len() as int;
    let rows = suspended_upto(c, paths::leaf_key(parent), n);
    let keys = child_keys(rows);
    lemma_suspended(c, paths::leaf_key(parent), n, b);
    sort::lemma_sorted_rows(rows, keys);
    let o = sort::stable_order(keys);
    let r = suspended_members(c, parent);
    assert forall|i: int, j: int| 0 <= i < j < r.len() implies !text::text_lt(
        (#[trigger] r[j]).child,
        (#[trigger] r[i]).child,
    ) by {
        assert(!sort::key_lt(keys[o[j]], keys[o[i]]));
    }
}

proof fn lemma_suspended(c: ContentState, parent: Seq<char>, n: int, b: BorderModel)
    requires
        0 <= n <= c.borders@.len(),
    ensures
        suspended_upto(c, parent, n).contains(b) <==> exists|k: int|
            0 <= k < n && (#[trigger] c.borders@[k])@ == b && c.borders@[k].parent@ == parent
                && c.borders@[k].status is Suspended,
    decreases n,
{
    if n > 0 {
        lemma_suspended(c, parent, n - 1, b);
        let front = suspended_upto(c, parent, n - 1);
        let all = suspended_upto(c, parent, n);
        let last = c.borders@[n - 1];
        if all.contains(b) {
            let k = choose|k: int| 0 <= k < all.len() && all[k] == b;
            if k < front.len() {
                assert(front[k] == b);
                assert(front.contains(b));
            } else {
                assert(last@ == b);
            }
        }
        if front.contains(b) {
            let k = choose|k: int| 0 <= k < front.len() && front[k] == b;
            assert(all[k] == b);
        }
        if last.parent@ == parent && last.status is Suspended {
            assert(all[all.len() - 1] == last@);
        }
    }
}

/// Standings are numbered from one throughout the components, in whose order they stand, and the
/// items of a component in the order of their rank. A limit keeps the first rows.
pub proof fn law_standings(components: Seq<state::ComponentModel>, c: state::ComponentModel, i: int)
    ensures
        all_standings(Seq::empty()).len() == 0,
        all_standings(components.push(c)).len() == all_standings(components).len() + c.ranked.len(),
        0 <= i < all_standings(components).len() ==> all_standings(components.push(c))[i]
            == all_standings(components)[i],
        0 <= i < c.ranked.len() ==> {
            let r = all_standings(components.push(c))[all_standings(components).len() + i];
            &&& r.position == all_standings(components).len() + i + 1
            &&& r.item == c.ranked[i].item
            &&& r.score == c.ranked[i].score
            &&& r.pairs == c.pairs
        },
{
    assert(components.push(c).drop_last() =~= components);
}

/// A limit keeps as many rows from the front, one of them where it is zero; none keeps all.
pub proof fn law_limited_standings(rows: Seq<StandingsModel>, n: nat, i: int)
    ensures
        limited(rows, None) == rows,
        n > 0 && rows.len() > n ==> limited(rows, Some(n)).len() == n,
        n > 0 && rows.len() <= n ==> limited(rows, Some(n)) == rows,
        rows.len() > 0 ==> limited(rows, Some(0)).len() == 1,
        0 <= i < limited(rows, Some(n)).len() ==> limited(rows, Some(n))[i] == rows[i],
{
}

/// What a question asks in words: the prompt of its aspect, or the body of its collection, each
/// without white space around it; and words made from its name where that is blank.
pub proof fn law_headlines(c: ContentState, collection: Seq<char>, slug: Seq<char>)
    ensures
        match state::prompt_of(c, slug) {
            Some(p) => text::trim(p).len() > 0 ==> headline_of(c, collection, Some(slug))
                == Headline::Body(text::trim(p)),
            None => headline_of(c, collection, Some(slug)) == Headline::Fallback(
                ":"@ + slug + " — which wins?"@,
            ),
        },
        match state::body_of(c, collection) {
            Some(b) => text::trim(b).len() > 0 ==> headline_of(c, collection, None)
                == Headline::Body(text::trim(b)),
            None => headline_of(c, collection, None) == Headline::Fallback(
                "Which is greater: "@ + paths::last_piece(collection) + "?"@,
            ),
        },
{
}

/// A title is the first line of what is asked; a longer one is cut to seventy-nine characters
/// and an ellipsis.
pub proof fn law_titles(b: Seq<char>)
    ensures
        ({
            let line = text::trim(text::first_line(b));
            &&& 0 < line.len() <= 80 ==> title_of(Headline::Body(b)) == line
            &&& line.len() > 80 ==> title_of(Headline::Body(b)) == line.take(79) + "…"@
            &&& line.len() == 0 ==> title_of(Headline::Body(b)) == "question"@
        }),
        title_of(Headline::Fallback(b)) == b,
{
}

/// A collection is known by an item, by a body or by a member; and the page of a question is
/// there exactly where its collection is known and its aspect, if it has one, is spelled well.
pub proof fn law_known_questions(c: ContentState, name: Seq<char>, key: Seq<char>, slug: Seq<char>)
    requires
        collection_key(name) == Some(key),
    ensures
        is_known(c, key) <==> paths::keys(c.items@).contains(key) || state::body_of(c, key) is Some
            || state::members_of(c, key).len() > 0,
        question_target(c, name, None) == (if is_known(c, key) {
            Some(key)
        } else {
            None
        }),
        garden::is_aspect_slug(slug) ==> question_target(c, name, Some(slug)) == question_target(
            c,
            name,
            None,
        ),
        !garden::is_aspect_slug(slug) ==> question_target(c, name, Some(slug)) is None,
{
}

/// Where the page of a question and its ranking are found.
pub proof fn law_question_urls(nav: NavModel, leaf: Seq<char>, a: Seq<char>, collection: Seq<char>)
    ensures
        question_path(nav, leaf, None) == nav::vote_prefix(nav) + "/q/"@ + leaf,
        question_path(nav, leaf, Some(a)) == nav::vote_prefix(nav) + "/q/"@ + leaf + "/"@ + a,
        ranking_url(nav, collection, None) == nav::item_href(nav, collection),
        a.len() > 0 ==> ranking_url(nav, collection, Some(a)) == nav::item_href(nav, collection)
            + "#aspect-"@ + a,
{
}

/// The aspects of a collection are those under which it has votes, each once and in order, with
/// their prompts where these are not blank.
pub proof fn law_aspects_of_a_collection(c: ContentState, collection: Seq<char>, slug: Seq<char>)
    ensures
        (exists|i: int|
            0 <= i < scope_aspects(c, collection).len() && (#[trigger] scope_aspects(
                c,
                collection,
            )[i]).0 == slug) <==> exists|k: int|
            0 <= k < c.aspect_groups@.len() && (#[trigger] c.aspect_groups@[k]).scope@
                == paths::normal_key(collection) && c.aspect_groups@[k].slug@ == slug,
        forall|i: int|
            0 <= i < scope_aspects(c, collection).len() ==> (#[trigger] scope_aspects(
                c,
                collection,
            )[i]).1 == not_blank(state::prompt_of(c, scope_aspects(c, collection)[i].0)),
        forall|i: int, j: int|
            0 <= i < j < scope_aspects(c, collection).len() ==> text::text_lt(
                (#[trigger] scope_aspects(c, collection)[i]).0,
                (#[trigger] scope_aspects(c, collection)[j]).0,
            ),
{
    let key = paths::normal_key(collection);
    let n = c.aspect_groups@.len() as int;
    let v = landing::slugs_upto(c, key, n);
    sort::law_sorted_set(v);
    landing::lemma_slugs_contain(c, key, n, slug);
    let set = sort::sorted_set(v);
    let ks = state::aspect_keys(c);
    assert(ks.take(n) =~= ks);
    let all = scope_aspects(c, collection);
    if exists|i: int| 0 <= i < all.len() && (#[trigger] all[i]).0 == slug {
        let i = choose|i: int| 0 <= i < all.len() && (#[trigger] all[i]).0 == slug;
        assert(set[i] == slug);
        assert(set.contains(slug));
        let k = choose|k: int| 0 <= k < ks.len() && ks[k] == (key, slug);
        assert(c.aspect_groups@[k].scope@ == key);
    }
    if exists|k: int|
        0 <= k < c.aspect_groups@.len() && (#[trigger] c.aspect_groups@[k]).scope@ == key
            && c.aspect_groups@[k].slug@ == slug {
        let k = choose|k: int|
            0 <= k < c.aspect_groups@.len() && (#[trigger] c.aspect_groups@[k]).scope@ == key
                && c.aspect_groups@[k].slug@ == slug;
        assert(ks[k] == (key, slug));
        assert(set.contains(slug));
        let i = choose|i: int| 0 <= i < set.len() && set[i] == slug;
        assert(all[i].0 == slug);
    }
    assert forall|i: int, j: int| 0 <= i < j < all.len() implies text::text_lt(
        (#[trigger] all[i]).0,
        (#[trigger] all[j]).0,
    ) by {
        assert(text::text_lt(set[i], set[j]));
    }
}

} // verus!
