//! The page that puts two items side by side for a vote.

use vstd::prelude::*;

use crate::forum;
use crate::garden;
use crate::nav::{self, ScopeId, ThreadNav};
use crate::paths::{self, ItemId};
use crate::state::{self, ContentState, GroupState, ItemPair, ReducerState, VoteData, VoteModel};
use crate::text;
use crate::votes;

verus! {

/// The query of the compare page.
#[derive(Debug)]
pub struct VoteCompareQuery {
    pub left: Option<String>,
    pub right: Option<String>,
    pub thread: Option<String>,
    pub pool: Option<String>,
    /// The aspect to vote under, in place of the canonical ranking.
    pub aspect: Option<String>,
}

/// Why no pair is shown.
#[derive(Debug, PartialEq, Eq, Structural)]
pub enum CompareError {
    BadPool,
    BadAspect,
    BadLeft,
    BadRight,
    ItemsMustDiffer,
    PoolTooSmall,
    NoPairs,
    Incomplete,
}

/// The message for the reader.
pub fn compare_error_text(e: &CompareError) -> (r: &'static str)
    ensures
        r@ == match *e {
            CompareError::BadPool => "bad pool item"@,
            CompareError::BadAspect => "bad aspect slug"@,
            CompareError::BadLeft => "bad left item"@,
            CompareError::BadRight => "bad right item"@,
            CompareError::ItemsMustDiffer => "items must differ"@,
            CompareError::PoolTooSmall => "pool needs at least 2 direct items with bodies; folder paths are scopes, not vote targets"@,
            CompareError::NoPairs => "no pairs available in pool"@,
            CompareError::Incomplete => "provide both left and right, or just pool"@,
        },
{
    match e {
        CompareError::BadPool => "bad pool item",
        CompareError::BadAspect => "bad aspect slug",
        CompareError::BadLeft => "bad left item",
        CompareError::BadRight => "bad right item",
        CompareError::ItemsMustDiffer => "items must differ",
        CompareError::PoolTooSmall => "pool needs at least 2 direct items with bodies; folder paths are scopes, not vote targets",
        CompareError::NoPairs => "no pairs available in pool",
        CompareError::Incomplete => "provide both left and right, or just pool",
    }
}

/// The HTTP status of the answer: not found for a bad item on either side, else a bad request.
pub fn compare_error_status(e: &CompareError) -> (r: u16)
    ensures
        r == if *e == CompareError::BadLeft || *e == CompareError::BadRight {
            404u16
        } else {
            400u16
        },
{
    match e {
        CompareError::BadLeft => 404,
        CompareError::BadRight => 404,
        _ => 400,
    }
}

/// What a request for the compare page shows.
pub enum CompareTarget {
    /// No pair was asked for.
    Landing,
    Pair { left: ItemId, right: ItemId, pool: Option<ItemId>, aspect: Option<String> },
}

/// The mathematical value of a [`CompareTarget`].
pub enum TargetModel {
    Landing,
    Pair {
        left: Seq<char>,
        right: Seq<char>,
        pool: Option<Seq<char>>,
        aspect: Option<Seq<char>>,
    },
}

impl View for CompareTarget {
    type V = TargetModel;

    open spec fn view(&self) -> TargetModel {
        match *self {
            CompareTarget::Landing => TargetModel::Landing,
            CompareTarget::Pair { left, right, pool, aspect } => TargetModel::Pair {
                left: left@,
                right: right@,
                pool: votes::opt_item(pool),
                aspect: text::opt_view(aspect),
            },
        }
    }
}

/// The item that a parameter names: its last segment in the ontology.
pub open spec fn named_item(s: Seq<char>) -> Option<Seq<char>> {
    match paths::item_key(text::trim(s)) {
        Some(k) => Some(paths::leaf_key(paths::normal_key(k))),
        None => None,
    }
}

/// The item that a parameter names.
pub fn item_from_param(s: &str) -> (r: Option<ItemId>)
    ensures
        match r {
            Some(i) => named_item(s@) == Some(i@),
            None => named_item(s@) is None,
        },
{
    let t: String = text::trim_str(s);
    match ItemId::parse(t.as_str()) {
        Some(i) => Some(i.normalized_storage().ontology_leaf()),
        None => None,
    }
}

/// The aspect that a parameter names; none where it is blank.
pub open spec fn named_aspect(s: Option<Seq<char>>) -> Option<Seq<char>> {
    match s {
        Some(a) => if text::trim(a).len() > 0 {
            Some(text::trim(a))
        } else {
            None
        },
        None => None,
    }
}

/// The aspect that a parameter names.
pub fn aspect_from_param(s: &Option<String>) -> (r: Option<String>)
    ensures
        text::opt_view(r) == named_aspect(text::opt_view(*s)),
{
    match s {
        Some(a) => {
            let t: String = text::trim_str(a.as_str());
            if t.as_str().is_empty() {
                None
            } else {
                Some(t)
            }
        },
        None => None,
    }
}

/// The pair that a pool deals to a reader.
pub open spec fn pool_pair(
    c: ContentState,
    pool: Seq<char>,
    aspect: Option<Seq<char>>,
    excluded: Seq<ItemPair>,
) -> Result<(Seq<char>, Seq<char>), CompareError> {
    let children = state::comparable_of(c, state::members_of(c, paths::leaf_key(pool)));
    if children.len() < 2 {
        Err(CompareError::PoolTooSmall)
    } else {
        match votes::next_pair(votes::group_for(c, Some(pool), aspect), children, None, excluded) {
            Some(p) => Ok(p),
            None => Err(CompareError::NoPairs),
        }
    }
}

/// What a request for the compare page shows: the pair that it names, or the next one of the
/// pool that it names, or the landing page where it names neither.
pub open spec fn compare_target(
    c: ContentState,
    left: Option<Seq<char>>,
    right: Option<Seq<char>>,
    pool: Option<Seq<char>>,
    aspect: Option<Seq<char>>,
    excluded: Seq<ItemPair>,
) -> Result<TargetModel, CompareError> {
    let pool_id = match pool {
        Some(p) => named_item(p),
        None => None,
    };
    let slug = named_aspect(aspect);
    if pool is Some && pool_id is None {
        Err(CompareError::BadPool)
    } else if slug is Some && !garden::is_aspect_slug(slug.unwrap()) {
        Err(CompareError::BadAspect)
    } else {
        match (left, right) {
            (Some(l), Some(r)) => match named_item(l) {
                None => Err(CompareError::BadLeft),
                Some(li) => match named_item(r) {
                    None => Err(CompareError::BadRight),
                    Some(ri) => if li == ri {
                        Err(CompareError::ItemsMustDiffer)
                    } else {
                        Ok(TargetModel::Pair { left: li, right: ri, pool: pool_id, aspect: slug })
                    },
                },
            },
            (None, None) => match pool_id {
                None => Ok(TargetModel::Landing),
                Some(p) => match pool_pair(c, p, slug, excluded) {
                    Ok(pair) => Ok(
                        TargetModel::Pair {
                            left: pair.0,
                            right: pair.1,
                            pool: pool_id,
                            aspect: slug,
                        },
                    ),
                    Err(e) => Err(e),
                },
            },
            _ => Err(CompareError::Incomplete),
        }
    }
}

fn pair_from_pool(
    content: &ContentState,
    pool: &ItemId,
    aspect: Option<&str>,
    excluded: &Vec<ItemPair>,
) -> (r: Result<ItemPair, CompareError>)
    ensures
        match r {
            Ok(p) => pool_pair(*content, pool@, text::opt_str(aspect), excluded@) == Ok::<
                (Seq<char>, Seq<char>),
                CompareError,
            >(p@),
            Err(e) => pool_pair(*content, pool@, text::opt_str(aspect), excluded@) == Err::<
                (Seq<char>, Seq<char>),
                CompareError,
            >(e),
        },
{
    let children: Vec<ItemId> = content.comparable_items(
        &content.members_of(&pool.ontology_leaf()),
    );
    assert(paths::keys(children@).len() == children@.len());
    if children.len() < 2 {
        return Err(CompareError::PoolTooSmall);
    }
    let group: &GroupState = votes::vote_ranking_group(content, Some(pool), aspect);
    match votes::suggest_next_pair_in_pool_excluding(group, &children, None, excluded) {
        Some(p) => Ok(p),
        None => Err(CompareError::NoPairs),
    }
}

/// What a request for the compare page shows. `excluded` are the pairs that the reader has
/// skipped under the aspect.
pub fn vote_compare_target(content: &ContentState, q: &VoteCompareQuery, excluded: &Vec<ItemPair>) -> (r:
    Result<CompareTarget, CompareError>)
    ensures
        match r {
            Ok(t) => compare_target(
                *content,
                text::opt_view(q.left),
                text::opt_view(q.right),
                text::opt_view(q.pool),
                text::opt_view(q.aspect),
                excluded@,
            ) == Ok::<TargetModel, CompareError>(t@),
            Err(e) => compare_target(
                *content,
                text::opt_view(q.left),
                text::opt_view(q.right),
                text::opt_view(q.pool),
                text::opt_view(q.aspect),
                excluded@,
            ) == Err::<TargetModel, CompareError>(e),
        },
{
    let pool: Option<ItemId> = match &q.pool {
        Some(p) => match item_from_param(p.as_str()) {
            Some(i) => Some(i),
            None => {
                return Err(CompareError::BadPool);
            },
        },
        None => None,
    };
    let aspect: Option<String> = aspect_from_param(&q.aspect);
    match &aspect {
        Some(slug) => {
            if !garden::is_valid_aspect_slug(slug.as_str()) {
                return Err(CompareError::BadAspect);
            }
        },
        None => {},
    }
    match (&q.left, &q.right) {
        (Some(l), Some(r)) => {
            let left: ItemId = match item_from_param(l.as_str()) {
                Some(i) => i,
                None => {
                    return Err(CompareError::BadLeft);
                },
            };
            let right: ItemId = match item_from_param(r.as_str()) {
                Some(i) => i,
                None => {
                    return Err(CompareError::BadRight);
                },
            };
            if left.same(&right) {
                return Err(CompareError::ItemsMustDiffer);
            }
            Ok(CompareTarget::Pair { left, right, pool, aspect })
        },
        (None, None) => {
            let slug: Option<&str> = match &aspect {
                Some(a) => Some(a.as_str()),
                None => None,
            };
            let pair: ItemPair = match &pool {
                None => {
                    return Ok(CompareTarget::Landing);
                },
                Some(p) => match pair_from_pool(content, p, slug, excluded) {
                    Ok(pair) => pair,
                    Err(e) => {
                        return Err(e);
                    },
                },
            };
            Ok(CompareTarget::Pair { left: pair.a, right: pair.b, pool, aspect })
        },
        _ => Err(CompareError::Incomplete),
    }
}

/// The two items of a pair that was named are never the same.
pub proof fn law_named_items_differ(
    c: ContentState,
    left: Seq<char>,
    right: Seq<char>,
    pool: Option<Seq<char>>,
    aspect: Option<Seq<char>>,
    excluded: Seq<ItemPair>,
)
    ensures
        match compare_target(c, Some(left), Some(right), pool, aspect, excluded) {
            Ok(t) => match t {
                TargetModel::Pair { left: l, right: r, .. } => l != r,
                TargetModel::Landing => false,
            },
            Err(_) => true,
        },
{
}

// ---------------------------------------------------------------------------
// The page
// ---------------------------------------------------------------------------

/// What the compare page shows of a pair.
pub struct ComparePage {
    pub title: String,
    pub logged_in: bool,
    /// Guests see the form too: posting it leads them through the login.
    pub show_vote_form: bool,
    pub auto_thread: String,
    pub thread_tags: Vec<String>,
    pub history: Vec<VoteData>,
    pub left_body: Option<String>,
    pub right_body: Option<String>,
    pub next_pair: Option<ItemPair>,
}

/// The thread that a vote goes to: the one asked for, or the one that the pair has by itself.
pub open spec fn chosen_thread(
    c: ContentState,
    left: Seq<char>,
    right: Seq<char>,
    asked: Option<Seq<char>>,
) -> Seq<char> {
    match asked {
        Some(t) => if nav::canonical_tag(t).len() > 0 {
            nav::canonical_tag(t)
        } else {
            votes::auto_thread(c, left, right)
        },
        None => votes::auto_thread(c, left, right),
    }
}

/// The threads on offer: those of the pair, and in front of them the chosen one where it is not
/// among them.
pub open spec fn offered_threads(tags: Seq<Seq<char>>, chosen: Seq<char>) -> Seq<Seq<char>> {
    if chosen.len() > 0 && !tags.contains(chosen) {
        seq![chosen] + tags
    } else {
        tags
    }
}

/// The chosen thread is always on offer, unless it has no name.
pub proof fn law_chosen_thread_is_offered(tags: Seq<Seq<char>>, chosen: Seq<char>)
    requires
        chosen.len() > 0,
    ensures
        offered_threads(tags, chosen).contains(chosen),
{
    if !tags.contains(chosen) {
        assert(offered_threads(tags, chosen)[0] == chosen);
    }
}

fn offer_threads(tags: Vec<String>, chosen: &str) -> (r: Vec<String>)
    ensures
        text::views(r@) == offered_threads(text::views(tags@), chosen@),
{
    if chosen.is_empty() || text::contains(&tags, chosen) {
        return tags;
    }
    let ghost tv = text::views(tags@);
    let mut r: Vec<String> = tags;
    r.insert(0, chosen.to_owned());
    assert(text::views(r@) =~= seq![chosen@] + tv);
    r
}

/// What the compare page shows of a pair. `excluded` are the pairs that the reader has skipped
/// under the aspect.
pub fn compare_page(
    reduced: &ReducerState,
    content: &ContentState,
    nav: &ThreadNav,
    viewer: Option<&str>,
    left: &ItemId,
    right: &ItemId,
    pool: Option<&ItemId>,
    aspect: Option<&str>,
    query_thread: Option<&str>,
    excluded: &Vec<ItemPair>,
) -> (r: ComparePage)
    ensures
        r.title@ == "vote — "@ + garden::shown_path(left@) + " vs "@ + garden::shown_path(right@),
        r.logged_in == (viewer is Some),
        r.show_vote_form == (forum::can_post(*reduced, nav@.scope, text::opt_str(viewer)) || viewer
            is None),
        r.auto_thread@ == chosen_thread(*content, left@, right@, text::opt_str(query_thread)),
        text::views(r.thread_tags@) == offered_threads(
            votes::canonical_tags(votes::pair_threads(*content, left@, right@)),
            r.auto_thread@,
        ),
        state::rows(r.history@) == votes::display_order(
            votes::edge_votes(*content, left@, right@),
            left@,
            right@,
        ),
        text::opt_view(r.left_body) == state::body_of(*content, left@),
        text::opt_view(r.right_body) == state::body_of(*content, right@),
        votes::opt_pair(r.next_pair) == votes::pair_after(
            *content,
            left@,
            right@,
            votes::opt_key(pool),
            votes::group_for(*content, votes::opt_key(pool), text::opt_str(aspect)),
            excluded@,
        ),
{
    let logged_in: bool = viewer.is_some();
    let scope: ScopeId = nav.scope();
    let can_post: bool = forum::user_can_post(reduced, &scope, viewer);
    let auto_thread: String = match query_thread {
        Some(t) => {
            let c: String = nav::canonicalize_tag(t);
            if c.as_str().is_empty() {
                votes::pick_autothread_for_vote_pair(content, left, right)
            } else {
                c
            }
        },
        None => votes::pick_autothread_for_vote_pair(content, left, right),
    };
    let tags: Vec<String> = votes::vote_thread_tags_for_pair(content, left, right);
    let thread_tags: Vec<String> = offer_threads(tags, auto_thread.as_str());
    let entries: Vec<VoteData> = votes::edge_vote_entries_for_pair(content, left, right);
    let history: Vec<VoteData> = votes::sort_votes_for_compare_display(entries, left, right);
    let left_body: Option<String> = match content.body(left) {
        Some(b) => Some(b.clone()),
        None => None,
    };
    let right_body: Option<String> = match content.body(right) {
        Some(b) => Some(b.clone()),
        None => None,
    };
    let group: &GroupState = votes::vote_ranking_group(content, pool, aspect);
    let next_pair: Option<ItemPair> = votes::suggest_next_vote_pair(
        content,
        left,
        right,
        pool,
        group,
        excluded,
    );
    let shown_left: String = garden::item_display_path(left.as_str());
    let shown_right: String = garden::item_display_path(right.as_str());
    ComparePage {
        title: text::cat4("vote — ", shown_left.as_str(), " vs ", shown_right.as_str()),
        logged_in,
        show_vote_form: can_post || !logged_in,
        auto_thread,
        thread_tags,
        history,
        left_body,
        right_body,
        next_pair,
    }
}

/// The links of a compare panel.
pub struct CompareNav {
    /// Where a guest goes who wants to skip: the login. Members skip by a form.
    pub skip_login_href: Option<String>,
    pub skipped_href: String,
    pub next_href: Option<String>,
}

/// The links of a compare panel: members skip and see what they skipped, guests are led to the
/// login first.
pub fn compare_nav(
    nav: &ThreadNav,
    next_pair: &Option<ItemPair>,
    pool: Option<&ItemId>,
    aspect: Option<&str>,
    logged_in: bool,
    next_path: &str,
) -> (r: CompareNav)
    ensures
        text::opt_view(r.skip_login_href) == if logged_in {
            None
        } else {
            Some(garden::login_href(next_path@))
        },
        r.skipped_href@ == if logged_in {
            nav::vote_prefix(nav@) + "/vote/skipped"@
        } else {
            garden::login_href(nav::vote_prefix(nav@) + "/vote/skipped"@)
        },
        text::opt_view(r.next_href) == match *next_pair {
            Some(p) => Some(
                votes::compare_href(
                    nav@,
                    p.a@,
                    p.b@,
                    None,
                    votes::opt_key(pool),
                    text::opt_str(aspect),
                ),
            ),
            None => None,
        },
{
    let skipped: String = votes::vote_skipped_href(nav);
    let next_href: Option<String> = match next_pair {
        Some(p) => Some(votes::vote_compare_href(nav, &p.a, &p.b, None, pool, aspect)),
        None => None,
    };
    if logged_in {
        CompareNav { skip_login_href: None, skipped_href: skipped, next_href }
    } else {
        CompareNav {
            skip_login_href: Some(garden::login_href_with_next(next_path)),
            skipped_href: garden::login_href_with_next(skipped.as_str()),
            next_href,
        }
    }
}

/// What stands below a pair: the form, the way to it through the login, or that the reader may
/// not vote here.
#[derive(Debug, PartialEq, Eq, Structural)]
pub enum PanelFoot {
    Form,
    Login,
    NoAccess,
}

/// What stands below a pair.
pub fn panel_foot(show_vote_form: bool, logged_in: bool) -> (r: PanelFoot)
    ensures
        r == if show_vote_form && logged_in {
            PanelFoot::Form
        } else if show_vote_form {
            PanelFoot::Login
        } else {
            PanelFoot::NoAccess
        },
{
    if show_vote_form && logged_in {
        PanelFoot::Form
    } else if show_vote_form {
        PanelFoot::Login
    } else {
        PanelFoot::NoAccess
    }
}

// ---------------------------------------------------------------------------
// Parts of the page
// ---------------------------------------------------------------------------

/// One side of a pair.
pub struct CompareCard {
    pub href: String,
    pub name: String,
    /// The body, unless it is blank.
    pub body: Option<String>,
}

/// A body, unless it is blank.
pub open spec fn shown_body(b: Option<Seq<char>>) -> Option<Seq<char>> {
    match b {
        Some(t) => if text::trim(t).len() > 0 {
            Some(t)
        } else {
            None
        },
        None => None,
    }
}

/// One side of a pair.
pub fn vote_compare_item_card(nav: &ThreadNav, item: &ItemId, body: Option<&String>) -> (r:
    CompareCard)
    ensures
        r.href@ == nav::item_href(nav@, item@),
        r.name@ == garden::shown_path(item@),
        text::opt_view(r.body) == shown_body(
            match body {
                Some(b) => Some(b@),
                None => None,
            },
        ),
{
    let shown: Option<String> = match body {
        Some(b) => if text::trimmed(&text::chars(b.as_str())).len() > 0 {
            Some(b.clone())
        } else {
            None
        },
        None => None,
    };
    CompareCard {
        href: nav.garden_item_href(item),
        name: garden::item_display_path(item.as_str()),
        body: shown,
    }
}

/// A thread to post a vote into.
pub struct ThreadOption {
    pub tag: String,
    pub selected: bool,
}

impl View for ThreadOption {
    type V = (Seq<char>, bool);

    open spec fn view(&self) -> (Seq<char>, bool) {
        (self.tag@, self.selected)
    }
}

/// The threads to choose from: `vote` where there is none.
pub open spec fn thread_choices(tags: Seq<Seq<char>>, chosen: Seq<char>) -> Seq<(Seq<char>, bool)> {
    if tags.len() == 0 {
        seq![("vote"@, true)]
    } else {
        Seq::new(tags.len(), |i: int| (tags[i], tags[i] == chosen))
    }
}

/// The threads to choose from.
pub fn thread_options(tags: &Vec<String>, chosen: &str) -> (r: Vec<ThreadOption>)
    ensures
        state::rows(r@) == thread_choices(text::views(tags@), chosen@),
{
    let ghost tv = text::views(tags@);
    let mut r: Vec<ThreadOption> = Vec::new();
    if tags.len() == 0 {
        r.push(ThreadOption { tag: "vote".to_owned(), selected: true });
        assert(state::rows(r@) =~= thread_choices(tv, chosen@));
        return r;
    }
    let mut i: usize = 0;
    while i < tags.len()
        invariant
            i <= tags.len(),
            r.len() == i,
            tv == text::views(tags@),
            forall|j: int| 0 <= j < i ==> (#[trigger] r@[j])@ == (tv[j], tv[j] == chosen@),
        decreases tags.len() - i,
    {
        assert(tv[i as int] == tags@[i as int]@);
        let selected: bool = text::same(tags[i].as_str(), chosen);
        r.push(ThreadOption { tag: tags[i].clone(), selected });
        i = i + 1;
    }
    assert(state::rows(r@) =~= thread_choices(tv, chosen@));
    r
}

/// The key under which the draft of a vote is kept.
pub fn vote_draft_key(nav: &ThreadNav, left: &ItemId, right: &ItemId) -> (r: String)
    ensures
        r@ == "vote:"@ + nav@.room_wire + "/"@ + left@ + "/"@ + right@,
{
    let head: String = text::cat5("vote:", nav.wire(), "/", left.as_str(), "/");
    text::cat(head.as_str(), right.as_str())
}

/// A ratio as shown.
pub open spec fn ratio_text(ratio: (int, int)) -> Seq<char> {
    text::decimal_int(ratio.0) + ":"@ + text::decimal_int(ratio.1)
}

/// A row of the votes on a pair.
pub struct EdgeHistoryRow {
    pub ratio: String,
    pub tip: String,
    /// The reason, unless it is blank.
    pub reason: Option<String>,
}

/// What is said of a vote when the pointer rests on it.
pub open spec fn history_tip(v: VoteModel, left: Seq<char>, right: Seq<char>) -> Seq<char> {
    ratio_text(votes::page_ratio(v, left, right)) + " counts toward "@ + garden::shown_path(left)
        + " (left of bar) vs "@ + garden::shown_path(right) + " (right of bar); #"@ + v.thread_tag
        + " · @"@ + v.principal
}

/// A row of the votes on a pair, as seen from a page with an item on either side.
pub fn edge_history_row(v: &VoteData, left: &ItemId, right: &ItemId) -> (r: EdgeHistoryRow)
    ensures
        r.ratio@ == ratio_text(votes::page_ratio(v@, left@, right@)),
        r.tip@ == history_tip(v@, left@, right@),
        text::opt_view(r.reason) == if text::trim(v@.body).len() > 0 {
            Some(text::trim(v@.body))
        } else {
            None
        },
{
    let (l, rr) = votes::ratios_for_compare_page(v, left, right);
    let ls: String = text::integer(l as i64);
    let rs: String = text::integer(rr as i64);
    let ratio: String = text::cat3(ls.as_str(), ":", rs.as_str());
    let shown_left: String = garden::item_display_path(left.as_str());
    let shown_right: String = garden::item_display_path(right.as_str());
    let head: String = text::cat5(
        ratio.as_str(),
        " counts toward ",
        shown_left.as_str(),
        " (left of bar) vs ",
        shown_right.as_str(),
    );
    let tip: String = text::cat5(
        head.as_str(),
        " (right of bar); #",
        v.thread_tag.as_str(),
        " · @",
        v.principal.as_str(),
    );
    let body: String = text::trim_str(v.body.as_str());
    let reason: Option<String> = if body.as_str().is_empty() {
        None
    } else {
        Some(body)
    };
    EdgeHistoryRow { ratio, tip, reason }
}

/// What a request for the compare page leads to. A pair that is named is shown, with its pool and
/// its aspect; a pool alone deals its next pair; nothing named is the landing page; and half a
/// pair is refused.
pub proof fn law_compare_requests(
    c: ContentState,
    l: Seq<char>,
    r: Seq<char>,
    pool: Option<Seq<char>>,
    aspect: Option<Seq<char>>,
    excluded: Seq<ItemPair>,
)
    requires
        pool is Some ==> named_item(pool.unwrap()) is Some,
        named_aspect(aspect) is Some ==> garden::is_aspect_slug(named_aspect(aspect).unwrap()),
    ensures
        ({
            let pool_id = match pool {
                Some(p) => named_item(p),
                None => None,
            };
            &&& named_item(l) is Some && named_item(r) is Some && named_item(l) != named_item(r)
                ==> compare_target(c, Some(l), Some(r), pool, aspect, excluded) == Ok::<
                TargetModel,
                CompareError,
            >(
                TargetModel::Pair {
                    left: named_item(l).unwrap(),
                    right: named_item(r).unwrap(),
                    pool: pool_id,
                    aspect: named_aspect(aspect),
                },
            )
            &&& named_item(l) is Some && named_item(l) == named_item(r) ==> compare_target(
                c,
                Some(l),
                Some(r),
                pool,
                aspect,
                excluded,
            ) == Err::<TargetModel, CompareError>(CompareError::ItemsMustDiffer)
            &&& named_item(l) is None ==> compare_target(
                c,
                Some(l),
                Some(r),
                pool,
                aspect,
                excluded,
            ) == Err::<TargetModel, CompareError>(CompareError::BadLeft)
            &&& named_item(l) is Some && named_item(r) is None ==> compare_target(
                c,
                Some(l),
                Some(r),
                pool,
                aspect,
                excluded,
            ) == Err::<TargetModel, CompareError>(CompareError::BadRight)
            &&& compare_target(c, Some(l), None, pool, aspect, excluded) == Err::<
                TargetModel,
                CompareError,
            >(CompareError::Incomplete)
            &&& compare_target(c, None, Some(r), pool, aspect, excluded) == Err::<
                TargetModel,
                CompareError,
            >(CompareError::Incomplete)
            &&& pool is None ==> compare_target(c, None, None, pool, aspect, excluded) == Ok::<
                TargetModel,
                CompareError,
            >(TargetModel::Landing)
        }),
{
}

/// A pool or an aspect that names nothing is refused, whatever else a request names.
pub proof fn law_bad_pools_and_aspects(
    c: ContentState,
    l: Option<Seq<char>>,
    r: Option<Seq<char>>,
    pool: Option<Seq<char>>,
    aspect: Option<Seq<char>>,
    excluded: Seq<ItemPair>,
)
    ensures
        pool is Some && named_item(pool.unwrap()) is None ==> compare_target(
            c,
            l,
            r,
            pool,
            aspect,
            excluded,
        ) == Err::<TargetModel, CompareError>(CompareError::BadPool),
        (pool is None || named_item(pool.unwrap()) is Some) && named_aspect(aspect) is Some
            && !garden::is_aspect_slug(named_aspect(aspect).unwrap()) ==> compare_target(
            c,
            l,
            r,
            pool,
            aspect,
            excluded,
        ) == Err::<TargetModel, CompareError>(CompareError::BadAspect),
{
}

/// A pool deals a pair of two of its members that can be compared, that nobody has judged in the
/// graph of the aspect and that is not excluded. It says that it is too small where it has fewer
/// than two such members, and that nothing is left only where every pair is judged or excluded.
pub proof fn law_pools_deal_open_pairs(
    c: ContentState,
    pool: Seq<char>,
    aspect: Option<Seq<char>>,
    excluded: Seq<ItemPair>,
)
    ensures
        ({
            let members = state::comparable_of(c, state::members_of(c, paths::leaf_key(pool)));
            let group = votes::group_for(c, Some(pool), aspect);
            match pool_pair(c, pool, aspect, excluded) {
                Ok(p) => {
                    &&& exists|i: int, j: int|
                        0 <= i < j < members.len() && p == (
                            #[trigger] members[i],
                            #[trigger] members[j],
                        )
                    &&& forall|k: int|
                        0 <= k < group.voted_pairs@.len() ==> {
                            let v = #[trigger] group.voted_pairs@[k];
                            !(v.a@ == p.0 && v.b@ == p.1) && !(v.a@ == p.1 && v.b@ == p.0)
                        }
                    &&& forall|k: int|
                        0 <= k < excluded.len() ==> {
                            let v = #[trigger] excluded[k];
                            !(v.a@ == p.0 && v.b@ == p.1) && !(v.a@ == p.1 && v.b@ == p.0)
                        }
                },
                Err(CompareError::PoolTooSmall) => members.len() < 2,
                Err(e) => e == CompareError::NoPairs && members.len() >= 2 && forall|i: int, j: int|
                    0 <= i < j < members.len() ==> votes::holds_pair(
                        group.voted_pairs@,
                        #[trigger] members[i],
                        #[trigger] members[j],
                    ) || votes::holds_pair(excluded, members[i], members[j]),
            }
        }),
{
    let members = state::comparable_of(c, state::members_of(c, paths::leaf_key(pool)));
    let group = votes::group_for(c, Some(pool), aspect);
    votes::law_next_pair_is_open(group, members, None, excluded);
    match votes::next_pair(group, members, None, excluded) {
        Some(p) => {
            let (i, j) = choose|i: int, j: int|
                0 <= i < j < members.len() && p == (members[i], members[j])
                    && #[trigger] votes::open_at(group, members, None, excluded, i, j);
            votes::lemma_holds_pair(group.voted_pairs@, p.0, p.1);
            votes::lemma_holds_pair(excluded, p.0, p.1);
        },
        None => {
            assert forall|i: int, j: int| 0 <= i < j < members.len() implies votes::holds_pair(
                group.voted_pairs@,
                #[trigger] members[i],
                #[trigger] members[j],
            ) || votes::holds_pair(excluded, members[i], members[j]) by {
                assert(!votes::open_at(group, members, None, excluded, i, j));
            }
        },
    }
}

/// A vote goes to the thread that is asked for, and without one to that of the pair; the threads
/// on offer are those of the pair, with the chosen one in front where it is not among them.
pub proof fn law_thread_of_a_vote(
    c: ContentState,
    l: Seq<char>,
    r: Seq<char>,
    asked: Seq<char>,
    tags: Seq<Seq<char>>,
    i: int,
)
    ensures
        nav::canonical_tag(asked).len() > 0 ==> chosen_thread(c, l, r, Some(asked))
            == nav::canonical_tag(asked),
        nav::canonical_tag(asked).len() == 0 ==> chosen_thread(c, l, r, Some(asked))
            == votes::auto_thread(c, l, r),
        chosen_thread(c, l, r, None) == votes::auto_thread(c, l, r),
        tags.contains(asked) ==> offered_threads(tags, asked) == tags,
        asked.len() > 0 && !tags.contains(asked) ==> offered_threads(tags, asked) == seq![asked]
            + tags,
        tags.len() > 0 ==> thread_choices(tags, asked).len() == tags.len(),
        0 <= i < tags.len() ==> thread_choices(tags, asked)[i].0 == tags[i] && (thread_choices(
            tags,
            asked,
        )[i].1 <==> tags[i] == asked),
        thread_choices(Seq::empty(), asked) == seq![("vote"@, true)],
{
}

/// Parameters are read without the white space around them; one that is blank names no aspect,
/// and a body that is blank is not shown.
pub proof fn law_blank_parameters(a: Seq<char>)
    ensures
        text::trim(a).len() == 0 ==> named_aspect(Some(a)) is None && shown_body(Some(a)) is None,
        text::trim(a).len() > 0 ==> named_aspect(Some(a)) == Some(text::trim(a)) && shown_body(Some(a))
            == Some(a),
        named_aspect(None) is None,
        shown_body(None) is None,
{
}

/// What is said of a vote: its ratio as seen from the page, the left item before the right one,
/// the thread and the person.
pub proof fn law_tips(v: VoteModel, l: Seq<char>, r: Seq<char>)
    requires
        l != r,
        v.a == r,
        v.b == l,
    ensures
        history_tip(v, l, r) == text::decimal_int(v.ratio_right) + ":"@ + text::decimal_int(
            v.ratio_left,
        ) + " counts toward "@ + garden::shown_path(l) + " (left of bar) vs "@ + garden::shown_path(r)
            + " (right of bar); #"@ + v.thread_tag + " · @"@ + v.principal,
        ratio_text((v.ratio_left, v.ratio_right)) == text::decimal_int(v.ratio_left) + ":"@
            + text::decimal_int(v.ratio_right),
{
}

} // verus!
