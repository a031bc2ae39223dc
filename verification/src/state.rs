//! The state that pages are computed from: rooms, grants, threads, posts, and the garden
//! content of each scope, as lists of rows.

use vstd::prelude::*;

use crate::nav::ScopeId;
use crate::paths::{self, ItemId};
use crate::text;

verus! {

/// The views of a list of rows.
pub open spec fn rows<T: View>(v: Seq<T>) -> Seq<T::V> {
    Seq::new(v.len(), |i: int| v[i]@)
}

/// Appending a row appends its view.
pub proof fn lemma_rows_push<T: View>(v: Seq<T>, x: T)
    ensures
        rows(v.push(x)) == rows(v).push(x@),
{
    assert(rows(v.push(x)) =~= rows(v).push(x@));
}

// ---------------------------------------------------------------------------
// Rooms and grants
// ---------------------------------------------------------------------------

/// What a member may do in a room.
#[derive(Clone, Copy, Debug, PartialEq, Eq, Structural)]
pub enum ThreadCapability {
    View,
    Post,
    Vote,
    AddItem,
    Manage,
}

/// A private room.
pub struct Room {
    pub id: String,
    pub created_ts: i64,
}

/// The capabilities of one member of a room.
pub struct Grant {
    pub room: String,
    pub username: String,
    pub caps: Vec<ThreadCapability>,
}

/// The mathematical value of a [`Grant`].
pub struct GrantModel {
    pub room: Seq<char>,
    pub username: Seq<char>,
    pub caps: Seq<ThreadCapability>,
}

impl View for Grant {
    type V = GrantModel;

    open spec fn view(&self) -> GrantModel {
        GrantModel { room: self.room@, username: self.username@, caps: self.caps@ }
    }
}

// ---------------------------------------------------------------------------
// Threads and posts
// ---------------------------------------------------------------------------

/// A thread of a scope.
pub struct ForumThread {
    pub scope: ScopeId,
    pub tag: String,
    pub last_activity_ts: i64,
    pub last_actor: String,
}

/// The mathematical value of a [`ForumThread`].
pub struct ThreadModel {
    pub scope: Option<Seq<char>>,
    pub tag: Seq<char>,
    pub last_ts: int,
    pub last_actor: Seq<char>,
}

impl View for ForumThread {
    type V = ThreadModel;

    open spec fn view(&self) -> ThreadModel {
        ThreadModel {
            scope: self.scope@,
            tag: self.tag@,
            last_ts: self.last_activity_ts as int,
            last_actor: self.last_actor@,
        }
    }
}

/// The ids of the posts of a thread, newest first.
pub struct ThreadPosts {
    pub scope: ScopeId,
    pub tag: String,
    pub ids: Vec<String>,
}

/// The mathematical value of a [`ThreadPosts`].
pub struct PostsModel {
    pub scope: Option<Seq<char>>,
    pub tag: Seq<char>,
    pub ids: Seq<Seq<char>>,
}

impl View for ThreadPosts {
    type V = PostsModel;

    open spec fn view(&self) -> PostsModel {
        PostsModel { scope: self.scope@, tag: self.tag@, ids: text::views(self.ids@) }
    }
}

/// A post.
pub struct Ingest {
    pub ts: i64,
    pub id: String,
    pub raw: String,
    pub principal: String,
    pub delegate: Option<String>,
    pub room_id: String,
    pub thread_tag: String,
}

/// The mathematical value of an [`Ingest`].
pub struct IngestModel {
    pub ts: int,
    pub id: Seq<char>,
    pub raw: Seq<char>,
    pub principal: Seq<char>,
    pub delegate: Option<Seq<char>>,
    pub room_id: Seq<char>,
    pub thread_tag: Seq<char>,
}

impl View for Ingest {
    type V = IngestModel;

    open spec fn view(&self) -> IngestModel {
        IngestModel {
            ts: self.ts as int,
            id: self.id@,
            raw: self.raw@,
            principal: self.principal@,
            delegate: text::opt_view(self.delegate),
            room_id: self.room_id@,
            thread_tag: self.thread_tag@,
        }
    }
}

/// A copy of an optional string.
pub fn copy_opt(o: &Option<String>) -> (r: Option<String>)
    ensures
        text::opt_view(r) == text::opt_view(*o),
{
    match o {
        Some(s) => Some(s.clone()),
        None => None,
    }
}

// ---------------------------------------------------------------------------
// Votes
// ---------------------------------------------------------------------------

/// A recorded vote between two items.
pub struct VoteData {
    pub ts: i64,
    pub a: ItemId,
    pub b: ItemId,
    pub ratio_left: i32,
    pub ratio_right: i32,
    pub body: String,
    pub principal: String,
    pub delegate: Option<String>,
    pub thread_tag: String,
}

/// The mathematical value of a [`VoteData`].
pub struct VoteModel {
    pub ts: int,
    pub a: Seq<char>,
    pub b: Seq<char>,
    pub ratio_left: int,
    pub ratio_right: int,
    pub body: Seq<char>,
    pub principal: Seq<char>,
    pub delegate: Option<Seq<char>>,
    pub thread_tag: Seq<char>,
}

impl View for VoteData {
    type V = VoteModel;

    open spec fn view(&self) -> VoteModel {
        VoteModel {
            ts: self.ts as int,
            a: self.a@,
            b: self.b@,
            ratio_left: self.ratio_left as int,
            ratio_right: self.ratio_right as int,
            body: self.body@,
            principal: self.principal@,
            delegate: text::opt_view(self.delegate),
            thread_tag: self.thread_tag@,
        }
    }
}

impl VoteData {
    /// A copy of the vote.
    pub fn copy(&self) -> (r: VoteData)
        ensures
            r@ == self@,
    {
        VoteData {
            ts: self.ts,
            a: self.a.copy(),
            b: self.b.copy(),
            ratio_left: self.ratio_left,
            ratio_right: self.ratio_right,
            body: self.body.clone(),
            principal: self.principal.clone(),
            delegate: copy_opt(&self.delegate),
            thread_tag: self.thread_tag.clone(),
        }
    }
}

/// The ends and the time of a vote, as kept in the newest-first list of a vote graph.
pub struct RecentVote {
    pub ts: i64,
    pub a: ItemId,
    pub b: ItemId,
}

/// The mathematical value of a [`RecentVote`].
pub struct RecentModel {
    pub ts: int,
    pub a: Seq<char>,
    pub b: Seq<char>,
}

impl View for RecentVote {
    type V = RecentModel;

    open spec fn view(&self) -> RecentModel {
        RecentModel { ts: self.ts as int, a: self.a@, b: self.b@ }
    }
}

/// An unordered pair of items.
pub struct ItemPair {
    pub a: ItemId,
    pub b: ItemId,
}

impl View for ItemPair {
    type V = (Seq<char>, Seq<char>);

    open spec fn view(&self) -> (Seq<char>, Seq<char>) {
        (self.a@, self.b@)
    }
}

impl ItemPair {
    /// A copy of the pair.
    pub fn copy(&self) -> (r: ItemPair)
        ensures
            r@ == self@,
    {
        ItemPair { a: self.a.copy(), b: self.b.copy() }
    }
}

/// A vote graph: which pairs have been compared, and the newest votes first.
pub struct GroupState {
    pub voted_pairs: Vec<ItemPair>,
    pub recent_votes: Vec<RecentVote>,
}

// ---------------------------------------------------------------------------
// Rankings
// ---------------------------------------------------------------------------

/// An item of a ranking with its score as shown.
pub struct RankedItem {
    pub item: ItemId,
    pub score: String,
}

/// The mathematical value of a [`RankedItem`].
pub struct RankedModel {
    pub item: Seq<char>,
    pub score: Seq<char>,
}

impl View for RankedItem {
    type V = RankedModel;

    open spec fn view(&self) -> RankedModel {
        RankedModel { item: self.item@, score: self.score@ }
    }
}

/// Items that votes connect, best first.
pub struct ScopedComponent {
    pub pairs: usize,
    pub ranked: Vec<RankedItem>,
}

/// The mathematical value of a [`ScopedComponent`].
pub struct ComponentModel {
    pub pairs: nat,
    pub ranked: Seq<RankedModel>,
}

impl View for ScopedComponent {
    type V = ComponentModel;

    open spec fn view(&self) -> ComponentModel {
        ComponentModel { pairs: self.pairs as nat, ranked: rows(self.ranked@) }
    }
}

/// The ranking of the members of a scope: one ordering per component, largest first, and the
/// members without votes.
pub struct ChildrenRankings {
    pub component_rankings: Vec<ScopedComponent>,
    pub unranked_items: Vec<ItemId>,
}

/// The mathematical value of a [`ChildrenRankings`].
pub struct RankingsModel {
    pub components: Seq<ComponentModel>,
    pub unranked: Seq<Seq<char>>,
}

impl View for ChildrenRankings {
    type V = RankingsModel;

    open spec fn view(&self) -> RankingsModel {
        RankingsModel {
            components: rows(self.component_rankings@),
            unranked: paths::keys(self.unranked_items@),
        }
    }
}

/// No components and no items.
pub open spec fn no_rankings() -> RankingsModel {
    RankingsModel { components: Seq::empty(), unranked: Seq::empty() }
}

fn copy_ranked(v: &Vec<RankedItem>) -> (r: Vec<RankedItem>)
    ensures
        rows(r@) == rows(v@),
{
    let mut r: Vec<RankedItem> = Vec::new();
    let mut i: usize = 0;
    while i < v.len()
        invariant
            i <= v.len(),
            r.len() == i,
            forall|j: int| 0 <= j < i ==> (#[trigger] r@[j])@ == v@[j]@,
        decreases v.len() - i,
    {
        r.push(RankedItem { item: v[i].item.copy(), score: v[i].score.clone() });
        i = i + 1;
    }
    assert(rows(r@) =~= rows(v@));
    r
}

impl ChildrenRankings {
    /// An empty ranking.
    pub fn empty() -> (r: ChildrenRankings)
        ensures
            r@ == no_rankings(),
    {
        let r = ChildrenRankings { component_rankings: Vec::new(), unranked_items: Vec::new() };
        assert(r@.components =~= Seq::empty());
        assert(r@.unranked =~= Seq::empty());
        r
    }

    /// A copy of the ranking.
    pub fn copy(&self) -> (r: ChildrenRankings)
        ensures
            r@ == self@,
    {
        let mut c: Vec<ScopedComponent> = Vec::new();
        let mut i: usize = 0;
        while i < self.component_rankings.len()
            invariant
                i <= self.component_rankings.len(),
                c.len() == i,
                forall|j: int|
                    0 <= j < i ==> (#[trigger] c@[j])@ == self.component_rankings@[j]@,
            decreases self.component_rankings.len() - i,
        {
            let comp: &ScopedComponent = &self.component_rankings[i];
            c.push(ScopedComponent { pairs: comp.pairs, ranked: copy_ranked(&comp.ranked) });
            i = i + 1;
        }
        assert(rows(c@) =~= rows(self.component_rankings@));
        ChildrenRankings {
            component_rankings: c,
            unranked_items: paths::copy_items(&self.unranked_items),
        }
    }
}

// ---------------------------------------------------------------------------
// Garden content
// ---------------------------------------------------------------------------

/// The body of an item.
pub struct ItemBody {
    pub item: ItemId,
    pub body: String,
}

/// The threads that mention an item.
pub struct ItemThreads {
    pub item: ItemId,
    pub tags: Vec<String>,
}

/// The active members of a scope.
pub struct ScopeMembers {
    pub scope: ItemId,
    pub members: Vec<ItemId>,
}

/// Whether a membership counts.
#[derive(Clone, Copy, Debug, PartialEq, Eq, Structural)]
pub enum MembershipStatus {
    Active,
    Suspended,
}

/// The claims for and against one membership.
pub struct BorderPairState {
    pub child: ItemId,
    pub parent: ItemId,
    pub containment_weight: u32,
    pub border_weight: u32,
    pub status: MembershipStatus,
}

/// The mathematical value of a [`BorderPairState`].
pub struct BorderModel {
    pub child: Seq<char>,
    pub parent: Seq<char>,
    pub containment: nat,
    pub border: nat,
    pub status: MembershipStatus,
}

impl View for BorderPairState {
    type V = BorderModel;

    open spec fn view(&self) -> BorderModel {
        BorderModel {
            child: self.child@,
            parent: self.parent@,
            containment: self.containment_weight as nat,
            border: self.border_weight as nat,
            status: self.status,
        }
    }
}

impl BorderPairState {
    /// A copy of the pair.
    pub fn copy(&self) -> (r: BorderPairState)
        ensures
            r@ == self@,
    {
        BorderPairState {
            child: self.child.copy(),
            parent: self.parent.copy(),
            containment_weight: self.containment_weight,
            border_weight: self.border_weight,
            status: self.status,
        }
    }
}

/// A border that fell: when, where, and with which weights.
pub struct FallenBorderEntry {
    pub ts: i64,
    pub child: ItemId,
    pub parent: ItemId,
    pub containment_weight: u32,
    pub border_weight: u32,
}

/// The mathematical value of a [`FallenBorderEntry`].
pub struct FallenModel {
    pub ts: int,
    pub child: Seq<char>,
    pub parent: Seq<char>,
    pub containment: nat,
    pub border: nat,
}

impl View for FallenBorderEntry {
    type V = FallenModel;

    open spec fn view(&self) -> FallenModel {
        FallenModel {
            ts: self.ts as int,
            child: self.child@,
            parent: self.parent@,
            containment: self.containment_weight as nat,
            border: self.border_weight as nat,
        }
    }
}

impl FallenBorderEntry {
    /// A copy of the entry.
    pub fn copy(&self) -> (r: FallenBorderEntry)
        ensures
            r@ == self@,
    {
        FallenBorderEntry {
            ts: self.ts,
            child: self.child.copy(),
            parent: self.parent.copy(),
            containment_weight: self.containment_weight,
            border_weight: self.border_weight,
        }
    }
}

/// A vote graph of a scope under an aspect, with the ranking it gives.
pub struct AspectGroup {
    pub scope: ItemId,
    pub slug: String,
    pub group: GroupState,
    pub rankings: ChildrenRankings,
}

/// The question that an aspect asks.
pub struct AspectPrompt {
    pub slug: String,
    pub prompt: String,
}

/// The ranking of the members of a scope.
pub struct ScopeRankings {
    pub scope: ItemId,
    pub rankings: ChildrenRankings,
}

/// A change of an item's rank by a post.
pub struct RankHistoryEntry {
    pub ts: i64,
    pub scope_rank: usize,
    pub scope_total: usize,
    pub scope_rank_delta: i32,
    pub thread: String,
    pub post_id: String,
}

/// The mathematical value of a [`RankHistoryEntry`].
pub struct HistoryModel {
    pub ts: int,
    pub rank: nat,
    pub total: nat,
    pub delta: int,
    pub thread: Seq<char>,
    pub post_id: Seq<char>,
}

impl View for RankHistoryEntry {
    type V = HistoryModel;

    open spec fn view(&self) -> HistoryModel {
        HistoryModel {
            ts: self.ts as int,
            rank: self.scope_rank as nat,
            total: self.scope_total as nat,
            delta: self.scope_rank_delta as int,
            thread: self.thread@,
            post_id: self.post_id@,
        }
    }
}

/// The rank changes of an item, oldest first.
pub struct ItemRankHistory {
    pub item: ItemId,
    pub entries: Vec<RankHistoryEntry>,
}

/// The garden of one scope.
pub struct ContentState {
    pub items: Vec<ItemId>,
    pub item_bodies: Vec<ItemBody>,
    /// Votes in the canonical graph, in the order in which they were recorded.
    pub votes: Vec<VoteData>,
    pub item_threads: Vec<ItemThreads>,
    pub members_by_scope: Vec<ScopeMembers>,
    /// One row for each pair of a child and a parent that was ever claimed or contested.
    pub borders: Vec<BorderPairState>,
    pub fallen_borders: Vec<FallenBorderEntry>,
    /// Items that can be put up for a vote.
    pub comparable: Vec<ItemId>,
    pub ranking_group: GroupState,
    pub aspect_groups: Vec<AspectGroup>,
    pub aspect_prompts: Vec<AspectPrompt>,
    pub rankings: Vec<ScopeRankings>,
    pub rank_history: Vec<ItemRankHistory>,
}

/// The keys of the bodies.
pub open spec fn body_keys(c: ContentState) -> Seq<Seq<char>> {
    Seq::new(c.item_bodies@.len(), |i: int| c.item_bodies@[i].item@)
}

/// The body of an item.
pub open spec fn body_of(c: ContentState, key: Seq<char>) -> Option<Seq<char>> {
    match text::position(body_keys(c), key) {
        Some(i) => Some(c.item_bodies@[i].body@),
        None => None,
    }
}

/// The keys of the thread lists.
pub open spec fn thread_keys(c: ContentState) -> Seq<Seq<char>> {
    Seq::new(c.item_threads@.len(), |i: int| c.item_threads@[i].item@)
}

/// The threads that mention an item.
pub open spec fn threads_of(c: ContentState, key: Seq<char>) -> Seq<Seq<char>> {
    match text::position(thread_keys(c), key) {
        Some(i) => text::views(c.item_threads@[i].tags@),
        None => Seq::empty(),
    }
}

/// The scopes that have members.
pub open spec fn scope_keys(c: ContentState) -> Seq<Seq<char>> {
    Seq::new(c.members_by_scope@.len(), |i: int| c.members_by_scope@[i].scope@)
}

/// The active members of a scope.
pub open spec fn members_of(c: ContentState, scope: Seq<char>) -> Seq<Seq<char>> {
    match text::position(scope_keys(c), scope) {
        Some(i) => paths::keys(c.members_by_scope@[i].members@),
        None => Seq::empty(),
    }
}

/// The scopes among the first `n` rows of which an item is a member.
pub open spec fn scopes_of_upto(c: ContentState, item: Seq<char>, n: nat) -> Seq<Seq<char>>
    decreases n,
{
    if n == 0 || n > c.members_by_scope@.len() {
        Seq::empty()
    } else {
        let front = scopes_of_upto(c, item, (n - 1) as nat);
        let row = c.members_by_scope@[n - 1];
        if paths::keys(row.members@).contains(item) {
            front.push(row.scope@)
        } else {
            front
        }
    }
}

/// The scopes of which an item is an active member.
pub open spec fn scopes_of(c: ContentState, item: Seq<char>) -> Seq<Seq<char>> {
    scopes_of_upto(c, item, c.members_by_scope@.len())
}

/// The child and the parent of each border row.
pub open spec fn border_keys(c: ContentState) -> Seq<(Seq<char>, Seq<char>)> {
    Seq::new(c.borders@.len(), |i: int| (c.borders@[i].child@, c.borders@[i].parent@))
}

/// The claims for and against a membership.
pub open spec fn border_of(c: ContentState, child: Seq<char>, parent: Seq<char>) -> Option<
    BorderModel,
> {
    match text::position(border_keys(c), (child, parent)) {
        Some(i) => Some(c.borders@[i]@),
        None => None,
    }
}

/// The scope and the slug of each aspect group.
pub open spec fn aspect_keys(c: ContentState) -> Seq<(Seq<char>, Seq<char>)> {
    Seq::new(c.aspect_groups@.len(), |i: int| (c.aspect_groups@[i].scope@, c.aspect_groups@[i].slug@))
}

/// Where the group of an aspect stands.
pub open spec fn aspect_index(c: ContentState, scope: Seq<char>, slug: Seq<char>) -> Option<int> {
    text::position(aspect_keys(c), (scope, slug))
}

/// The slugs of the prompts.
pub open spec fn prompt_keys(c: ContentState) -> Seq<Seq<char>> {
    Seq::new(c.aspect_prompts@.len(), |i: int| c.aspect_prompts@[i].slug@)
}

/// The prompt of an aspect.
pub open spec fn prompt_of(c: ContentState, slug: Seq<char>) -> Option<Seq<char>> {
    match text::position(prompt_keys(c), slug) {
        Some(i) => Some(c.aspect_prompts@[i].prompt@),
        None => None,
    }
}

/// The scopes that have a ranking.
pub open spec fn ranking_keys(c: ContentState) -> Seq<Seq<char>> {
    Seq::new(c.rankings@.len(), |i: int| c.rankings@[i].scope@)
}

/// The ranking of the members of a scope.
pub open spec fn rankings_of(c: ContentState, scope: Seq<char>) -> RankingsModel {
    match text::position(ranking_keys(c), scope) {
        Some(i) => c.rankings@[i].rankings@,
        None => no_rankings(),
    }
}

/// The items that have a rank history.
pub open spec fn history_keys(c: ContentState) -> Seq<Seq<char>> {
    Seq::new(c.rank_history@.len(), |i: int| c.rank_history@[i].item@)
}

/// The rank changes of an item.
pub open spec fn history_of(c: ContentState, key: Seq<char>) -> Seq<HistoryModel> {
    match text::position(history_keys(c), key) {
        Some(i) => rows(c.rank_history@[i].entries@),
        None => Seq::empty(),
    }
}

/// The items of a pool that can be put up for a vote.
pub open spec fn comparable_of(c: ContentState, pool: Seq<Seq<char>>) -> Seq<Seq<char>> {
    pool.filter(|k: Seq<char>| paths::keys(c.comparable@).contains(k))
}

/// Whether no pair of a vote graph occurs twice, in whatever order it is named.
pub open spec fn pairs_differ(g: GroupState) -> bool {
    forall|i: int, j: int|
        0 <= i < j < g.voted_pairs@.len() ==> {
            let p = #[trigger] g.voted_pairs@[i];
            let q = #[trigger] g.voted_pairs@[j];
            !(p.a@ == q.a@ && p.b@ == q.b@) && !(p.a@ == q.b@ && p.b@ == q.a@)
        }
}

impl ContentState {
    /// Whether the rows are those of maps and sets: no key occurs twice, nor any element of a
    /// set. A membership is active where more claims are for it than against it.
    pub open spec fn wf(self) -> bool {
        &&& paths::keys(self.items@).no_duplicates()
        &&& body_keys(self).no_duplicates()
        &&& thread_keys(self).no_duplicates()
        &&& scope_keys(self).no_duplicates()
        &&& border_keys(self).no_duplicates()
        &&& aspect_keys(self).no_duplicates()
        &&& prompt_keys(self).no_duplicates()
        &&& ranking_keys(self).no_duplicates()
        &&& history_keys(self).no_duplicates()
        &&& paths::keys(self.comparable@).no_duplicates()
        &&& forall|i: int|
            0 <= i < self.item_threads@.len() ==> text::views(
                (#[trigger] self.item_threads@[i]).tags@,
            ).no_duplicates()
        &&& forall|i: int|
            0 <= i < self.members_by_scope@.len() ==> paths::keys(
                (#[trigger] self.members_by_scope@[i]).members@,
            ).no_duplicates()
        &&& forall|i: int|
            0 <= i < self.borders@.len() ==> ((#[trigger] self.borders@[i]).status is Active
                <==> self.borders@[i].containment_weight > self.borders@[i].border_weight)
        &&& pairs_differ(self.ranking_group)
        &&& forall|i: int|
            0 <= i < self.aspect_groups@.len() ==> pairs_differ(
                (#[trigger] self.aspect_groups@[i]).group,
            )
    }

    /// An empty garden.
    pub fn empty() -> (r: ContentState)
        ensures
            r.items@.len() == 0,
            r.item_bodies@.len() == 0,
            r.votes@.len() == 0,
            r.item_threads@.len() == 0,
            r.members_by_scope@.len() == 0,
            r.borders@.len() == 0,
            r.fallen_borders@.len() == 0,
            r.comparable@.len() == 0,
            r.ranking_group.voted_pairs@.len() == 0,
            r.ranking_group.recent_votes@.len() == 0,
            r.aspect_groups@.len() == 0,
            r.aspect_prompts@.len() == 0,
            r.rankings@.len() == 0,
            r.rank_history@.len() == 0,
            r.wf(),
    {
        ContentState {
            items: Vec::new(),
            item_bodies: Vec::new(),
            votes: Vec::new(),
            item_threads: Vec::new(),
            members_by_scope: Vec::new(),
            borders: Vec::new(),
            fallen_borders: Vec::new(),
            comparable: Vec::new(),
            ranking_group: GroupState { voted_pairs: Vec::new(), recent_votes: Vec::new() },
            aspect_groups: Vec::new(),
            aspect_prompts: Vec::new(),
            rankings: Vec::new(),
            rank_history: Vec::new(),
        }
    }

    /// The body of an item.
    pub fn body(&self, item: &ItemId) -> (r: Option<&String>)
        ensures
            match r {
                Some(s) => body_of(*self, item@) == Some(s@),
                None => body_of(*self, item@) is None,
            },
    {
        let ghost ks = body_keys(*self);
        let mut i: usize = 0;
        while i < self.item_bodies.len()
            invariant
                i <= self.item_bodies.len(),
                ks == body_keys(*self),
                text::position(ks.take(i as int), item@) is None,
            decreases self.item_bodies.len() - i,
        {
            assert(ks.take(i + 1).drop_last() =~= ks.take(i as int));
            if self.item_bodies[i].item.same(item) {
                proof {
                    text::lemma_position_prefix(ks, item@, i + 1);
                }
                return Some(&self.item_bodies[i].body);
            }
            i = i + 1;
        }
        assert(ks.take(ks.len() as int) =~= ks);
        None
    }

    /// The threads that mention an item.
    pub fn threads(&self, item: &ItemId) -> (r: Vec<String>)
        ensures
            text::views(r@) == threads_of(*self, item@),
    {
        let ghost ks = thread_keys(*self);
        let mut i: usize = 0;
        while i < self.item_threads.len()
            invariant
                i <= self.item_threads.len(),
                ks == thread_keys(*self),
                text::position(ks.take(i as int), item@) is None,
            decreases self.item_threads.len() - i,
        {
            assert(ks.take(i + 1).drop_last() =~= ks.take(i as int));
            if self.item_threads[i].item.same(item) {
                proof {
                    text::lemma_position_prefix(ks, item@, i + 1);
                }
                return text::copies(&self.item_threads[i].tags);
            }
            i = i + 1;
        }
        assert(ks.take(ks.len() as int) =~= ks);
        let r: Vec<String> = Vec::new();
        assert(text::views(r@) =~= Seq::empty());
        r
    }

    /// The active members of a scope.
    pub fn members_of(&self, scope: &ItemId) -> (r: Vec<ItemId>)
        ensures
            paths::keys(r@) == members_of(*self, scope@),
    {
        let ghost ks = scope_keys(*self);
        let mut i: usize = 0;
        while i < self.members_by_scope.len()
            invariant
                i <= self.members_by_scope.len(),
                ks == scope_keys(*self),
                text::position(ks.take(i as int), scope@) is None,
            decreases self.members_by_scope.len() - i,
        {
            assert(ks.take(i + 1).drop_last() =~= ks.take(i as int));
            if self.members_by_scope[i].scope.same(scope) {
                proof {
                    text::lemma_position_prefix(ks, scope@, i + 1);
                }
                return paths::copy_items(&self.members_by_scope[i].members);
            }
            i = i + 1;
        }
        assert(ks.take(ks.len() as int) =~= ks);
        let r: Vec<ItemId> = Vec::new();
        assert(paths::keys(r@) =~= Seq::empty());
        r
    }

    /// The scopes of which an item is an active member.
    pub fn scopes_of(&self, item: &ItemId) -> (r: Vec<ItemId>)
        ensures
            paths::keys(r@) == scopes_of(*self, item@),
    {
        let mut r: Vec<ItemId> = Vec::new();
        let mut i: usize = 0;
        assert(paths::keys(r@) =~= scopes_of_upto(*self, item@, 0));
        while i < self.members_by_scope.len()
            invariant
                i <= self.members_by_scope.len(),
                paths::keys(r@) == scopes_of_upto(*self, item@, i as nat),
            decreases self.members_by_scope.len() - i,
        {
            if paths::holds_item(&self.members_by_scope[i].members, item) {
                let ghost before = r@;
                r.push(self.members_by_scope[i].scope.copy());
                assert(paths::keys(r@) =~= paths::keys(before).push(
                    self.members_by_scope@[i as int].scope@,
                ));
            }
            i = i + 1;
        }
        r
    }

    /// The claims for and against a membership.
    pub fn border_state(&self, child: &ItemId, parent: &ItemId) -> (r: Option<BorderPairState>)
        ensures
            match r {
                Some(b) => border_of(*self, child@, parent@) == Some(b@),
                None => border_of(*self, child@, parent@) is None,
            },
    {
        let ghost ks = border_keys(*self);
        let ghost key = (child@, parent@);
        let mut i: usize = 0;
        while i < self.borders.len()
            invariant
                i <= self.borders.len(),
                ks == border_keys(*self),
                key == (child@, parent@),
                text::position(ks.take(i as int), key) is None,
            decreases self.borders.len() - i,
        {
            assert(ks.take(i + 1).drop_last() =~= ks.take(i as int));
            if self.borders[i].child.same(child) && self.borders[i].parent.same(parent) {
                proof {
                    text::lemma_position_prefix(ks, key, i + 1);
                }
                return Some(self.borders[i].copy());
            }
            i = i + 1;
        }
        assert(ks.take(ks.len() as int) =~= ks);
        None
    }

    /// Where the group of an aspect stands.
    pub fn aspect_group(&self, scope: &ItemId, slug: &str) -> (r: Option<usize>)
        ensures
            match r {
                Some(i) => aspect_index(*self, scope@, slug@) == Some(i as int) && i
                    < self.aspect_groups@.len(),
                None => aspect_index(*self, scope@, slug@) is None,
            },
    {
        let ghost ks = aspect_keys(*self);
        let ghost key = (scope@, slug@);
        let mut i: usize = 0;
        while i < self.aspect_groups.len()
            invariant
                i <= self.aspect_groups.len(),
                ks == aspect_keys(*self),
                key == (scope@, slug@),
                text::position(ks.take(i as int), key) is None,
            decreases self.aspect_groups.len() - i,
        {
            assert(ks.take(i + 1).drop_last() =~= ks.take(i as int));
            if self.aspect_groups[i].scope.same(scope) && text::same(
                self.aspect_groups[i].slug.as_str(),
                slug,
            ) {
                proof {
                    text::lemma_position_prefix(ks, key, i + 1);
                }
                return Some(i);
            }
            i = i + 1;
        }
        assert(ks.take(ks.len() as int) =~= ks);
        None
    }

    /// The prompt of an aspect.
    pub fn aspect_prompt(&self, slug: &str) -> (r: Option<&String>)
        ensures
            match r {
                Some(s) => prompt_of(*self, slug@) == Some(s@),
                None => prompt_of(*self, slug@) is None,
            },
    {
        let ghost ks = prompt_keys(*self);
        let mut i: usize = 0;
        while i < self.aspect_prompts.len()
            invariant
                i <= self.aspect_prompts.len(),
                ks == prompt_keys(*self),
                text::position(ks.take(i as int), slug@) is None,
            decreases self.aspect_prompts.len() - i,
        {
            assert(ks.take(i + 1).drop_last() =~= ks.take(i as int));
            if text::same(self.aspect_prompts[i].slug.as_str(), slug) {
                proof {
                    text::lemma_position_prefix(ks, slug@, i + 1);
                }
                return Some(&self.aspect_prompts[i].prompt);
            }
            i = i + 1;
        }
        assert(ks.take(ks.len() as int) =~= ks);
        None
    }

    /// The ranking of the members of a scope.
    pub fn children_rankings(&self, scope: &ItemId) -> (r: ChildrenRankings)
        ensures
            r@ == rankings_of(*self, scope@),
    {
        let ghost ks = ranking_keys(*self);
        let mut i: usize = 0;
        while i < self.rankings.len()
            invariant
                i <= self.rankings.len(),
                ks == ranking_keys(*self),
                text::position(ks.take(i as int), scope@) is None,
            decreases self.rankings.len() - i,
        {
            assert(ks.take(i + 1).drop_last() =~= ks.take(i as int));
            if self.rankings[i].scope.same(scope) {
                proof {
                    text::lemma_position_prefix(ks, scope@, i + 1);
                }
                return self.rankings[i].rankings.copy();
            }
            i = i + 1;
        }
        assert(ks.take(ks.len() as int) =~= ks);
        ChildrenRankings::empty()
    }

    /// The items of a pool that can be put up for a vote.
    pub fn comparable_items(&self, pool: &Vec<ItemId>) -> (r: Vec<ItemId>)
        ensures
            paths::keys(r@) == comparable_of(*self, paths::keys(pool@)),
    {
        let ghost ks = paths::keys(pool@);
        let ghost p = |k: Seq<char>| paths::keys(self.comparable@).contains(k);
        let mut r: Vec<ItemId> = Vec::new();
        let mut i: usize = 0;
        proof {
            reveal(Seq::filter);
            assert(paths::keys(r@) =~= ks.take(0).filter(p));
        }
        while i < pool.len()
            invariant
                i <= pool.len(),
                ks == paths::keys(pool@),
                p == (|k: Seq<char>| paths::keys(self.comparable@).contains(k)),
                paths::keys(r@) == ks.take(i as int).filter(p),
            decreases pool.len() - i,
        {
            reveal(Seq::filter);
            assert(ks.take(i + 1).drop_last() =~= ks.take(i as int));
            if paths::holds_item(&self.comparable, &pool[i]) {
                let ghost before = r@;
                r.push(pool[i].copy());
                assert(paths::keys(r@) =~= paths::keys(before).push(ks[i as int]));
            }
            i = i + 1;
        }
        assert(ks.take(ks.len() as int) =~= ks);
        r
    }
}

// ---------------------------------------------------------------------------
// The whole state
// ---------------------------------------------------------------------------

/// The garden of a room.
pub struct RoomContent {
    pub room: String,
    pub content: ContentState,
}

/// Everything that pages are computed from.
pub struct ReducerState {
    pub rooms: Vec<Room>,
    pub grants: Vec<Grant>,
    pub forum_threads: Vec<ForumThread>,
    pub thread_posts: Vec<ThreadPosts>,
    pub ingests: Vec<Ingest>,
    pub redacted_posts: Vec<String>,
    pub public_content: ContentState,
    pub room_content: Vec<RoomContent>,
}

/// Whether a member has a capability in a room.
pub open spec fn has_cap(
    s: ReducerState,
    room: Seq<char>,
    username: Seq<char>,
    cap: ThreadCapability,
) -> bool {
    exists|i: int|
        0 <= i < s.grants@.len() && (#[trigger] s.grants@[i]).room@ == room
            && s.grants@[i].username@ == username && s.grants@[i].caps@.contains(cap)
}

/// The ids of the rooms.
pub open spec fn room_ids(s: ReducerState) -> Seq<Seq<char>> {
    Seq::new(s.rooms@.len(), |i: int| s.rooms@[i].id@)
}

/// The scope and the tag of each list of posts.
pub open spec fn post_keys(s: ReducerState) -> Seq<(Option<Seq<char>>, Seq<char>)> {
    Seq::new(s.thread_posts@.len(), |i: int| (s.thread_posts@[i].scope@, s.thread_posts@[i].tag@))
}

/// The ids of the posts of a thread, newest first.
pub open spec fn posts_of(s: ReducerState, scope: Option<Seq<char>>, tag: Seq<char>) -> Seq<
    Seq<char>,
> {
    match text::position(post_keys(s), (scope, tag)) {
        Some(i) => text::views(s.thread_posts@[i].ids@),
        None => Seq::empty(),
    }
}

/// The ids of the posts of a thread, oldest first.
pub open spec fn chronological(s: ReducerState, scope: Option<Seq<char>>, tag: Seq<char>) -> Seq<
    Seq<char>,
> {
    posts_of(s, scope, tag).reverse()
}

/// The ids of all posts.
pub open spec fn ingest_ids(s: ReducerState) -> Seq<Seq<char>> {
    Seq::new(s.ingests@.len(), |i: int| s.ingests@[i].id@)
}

/// Where the post with an id stands.
pub open spec fn ingest_index(s: ReducerState, id: Seq<char>) -> Option<int> {
    text::position(ingest_ids(s), id)
}

/// The post with an id.
pub open spec fn ingest_of(s: ReducerState, id: Seq<char>) -> Option<IngestModel> {
    match ingest_index(s, id) {
        Some(i) => Some(s.ingests@[i]@),
        None => None,
    }
}

/// The scope and the tag of each thread.
pub open spec fn forum_keys(s: ReducerState) -> Seq<(Option<Seq<char>>, Seq<char>)> {
    Seq::new(
        s.forum_threads@.len(),
        |i: int| (s.forum_threads@[i].scope@, s.forum_threads@[i].tag@),
    )
}

/// When a thread was last active; zero where there is no such thread.
pub open spec fn thread_activity(s: ReducerState, scope: Option<Seq<char>>, tag: Seq<char>) -> int {
    match text::position(forum_keys(s), (scope, tag)) {
        Some(i) => s.forum_threads@[i].last_activity_ts as int,
        None => 0,
    }
}

/// The rooms that have a garden.
pub open spec fn content_keys(s: ReducerState) -> Seq<Seq<char>> {
    Seq::new(s.room_content@.len(), |i: int| s.room_content@[i].room@)
}

/// The garden of a scope, if it has one.
pub open spec fn content_of(s: ReducerState, scope: Option<Seq<char>>) -> Option<ContentState> {
    match scope {
        None => Some(s.public_content),
        Some(room) => match text::position(content_keys(s), room) {
            Some(i) => Some(s.room_content@[i].content),
            None => None,
        },
    }
}

/// The room and the member of each grant.
pub open spec fn grant_keys(s: ReducerState) -> Seq<(Seq<char>, Seq<char>)> {
    Seq::new(s.grants@.len(), |i: int| (s.grants@[i].room@, s.grants@[i].username@))
}

impl ReducerState {
    /// Whether the rows are those of maps and sets: no key occurs twice, nor any element of a
    /// set.
    pub open spec fn wf(self) -> bool {
        &&& room_ids(self).no_duplicates()
        &&& grant_keys(self).no_duplicates()
        &&& forum_keys(self).no_duplicates()
        &&& post_keys(self).no_duplicates()
        &&& ingest_ids(self).no_duplicates()
        &&& text::views(self.redacted_posts@).no_duplicates()
        &&& content_keys(self).no_duplicates()
        &&& self.public_content.wf()
        &&& forall|i: int|
            0 <= i < self.room_content@.len() ==> (#[trigger] self.room_content@[i]).content.wf()
    }

    /// A state with nothing in it.
    pub fn empty() -> (r: ReducerState)
        ensures
            r.rooms@.len() == 0,
            r.grants@.len() == 0,
            r.forum_threads@.len() == 0,
            r.thread_posts@.len() == 0,
            r.ingests@.len() == 0,
            r.redacted_posts@.len() == 0,
            r.public_content.items@.len() == 0,
            r.public_content.item_bodies@.len() == 0,
            r.public_content.votes@.len() == 0,
            r.public_content.item_threads@.len() == 0,
            r.public_content.members_by_scope@.len() == 0,
            r.public_content.borders@.len() == 0,
            r.public_content.fallen_borders@.len() == 0,
            r.public_content.comparable@.len() == 0,
            r.public_content.ranking_group.voted_pairs@.len() == 0,
            r.public_content.ranking_group.recent_votes@.len() == 0,
            r.public_content.aspect_groups@.len() == 0,
            r.public_content.aspect_prompts@.len() == 0,
            r.public_content.rankings@.len() == 0,
            r.public_content.rank_history@.len() == 0,
            r.room_content@.len() == 0,
            r.wf(),
    {
        ReducerState {
            rooms: Vec::new(),
            grants: Vec::new(),
            forum_threads: Vec::new(),
            thread_posts: Vec::new(),
            ingests: Vec::new(),
            redacted_posts: Vec::new(),
            public_content: ContentState::empty(),
            room_content: Vec::new(),
        }
    }

    /// Whether a member has a capability in a room.
    pub fn user_has_cap(&self, room: &str, username: &str, cap: ThreadCapability) -> (r: bool)
        ensures
            r == has_cap(*self, room@, username@, cap),
    {
        let mut i: usize = 0;
        while i < self.grants.len()
            invariant
                i <= self.grants.len(),
                forall|j: int|
                    0 <= j < i ==> !((#[trigger] self.grants@[j]).room@ == room@
                        && self.grants@[j].username@ == username@
                        && self.grants@[j].caps@.contains(cap)),
            decreases self.grants.len() - i,
        {
            if text::same(self.grants[i].room.as_str(), room) && text::same(
                self.grants[i].username.as_str(),
                username,
            ) && holds_cap(&self.grants[i].caps, cap) {
                return true;
            }
            i = i + 1;
        }
        false
    }

    /// Whether a room exists.
    pub fn has_room(&self, room: &str) -> (r: bool)
        ensures
            r == room_ids(*self).contains(room@),
    {
        let ghost ids = room_ids(*self);
        let mut i: usize = 0;
        while i < self.rooms.len()
            invariant
                i <= self.rooms.len(),
                ids == room_ids(*self),
                forall|j: int| 0 <= j < i ==> ids[j] != room@,
            decreases self.rooms.len() - i,
        {
            if text::same(self.rooms[i].id.as_str(), room) {
                assert(ids[i as int] == room@);
                return true;
            }
            i = i + 1;
        }
        false
    }

    /// The ids of the posts of a thread, oldest first.
    pub fn posts_chronological(&self, scope: &ScopeId, tag: &str) -> (r: Vec<String>)
        ensures
            text::views(r@) == chronological(*self, scope@, tag@),
    {
        let ghost ks = post_keys(*self);
        let ghost key = (scope@, tag@);
        let mut i: usize = 0;
        while i < self.thread_posts.len()
            invariant
                i <= self.thread_posts.len(),
                ks == post_keys(*self),
                key == (scope@, tag@),
                text::position(ks.take(i as int), key) is None,
            decreases self.thread_posts.len() - i,
        {
            assert(ks.take(i + 1).drop_last() =~= ks.take(i as int));
            if self.thread_posts[i].scope.same(scope) && text::same(
                self.thread_posts[i].tag.as_str(),
                tag,
            ) {
                proof {
                    text::lemma_position_prefix(ks, key, i + 1);
                }
                return reversed(&self.thread_posts[i].ids);
            }
            i = i + 1;
        }
        assert(ks.take(ks.len() as int) =~= ks);
        let r: Vec<String> = Vec::new();
        assert(text::views(r@) =~= Seq::<Seq<char>>::empty().reverse());
        r
    }

    /// Where the post with an id stands.
    pub fn find_ingest(&self, id: &str) -> (r: Option<usize>)
        ensures
            match r {
                Some(i) => ingest_index(*self, id@) == Some(i as int) && i < self.ingests@.len(),
                None => ingest_index(*self, id@) is None,
            },
    {
        let ghost ks = ingest_ids(*self);
        let mut i: usize = 0;
        while i < self.ingests.len()
            invariant
                i <= self.ingests.len(),
                ks == ingest_ids(*self),
                text::position(ks.take(i as int), id@) is None,
            decreases self.ingests.len() - i,
        {
            assert(ks.take(i + 1).drop_last() =~= ks.take(i as int));
            if text::same(self.ingests[i].id.as_str(), id) {
                proof {
                    text::lemma_position_prefix(ks, id@, i + 1);
                }
                return Some(i);
            }
            i = i + 1;
        }
        assert(ks.take(ks.len() as int) =~= ks);
        None
    }

    /// Whether a post has been deleted.
    pub fn is_redacted(&self, id: &str) -> (r: bool)
        ensures
            r == text::views(self.redacted_posts@).contains(id@),
    {
        text::contains(&self.redacted_posts, id)
    }

    /// When a thread was last active; zero where there is no such thread.
    pub fn thread_activity(&self, scope: &ScopeId, tag: &str) -> (r: i64)
        ensures
            r == thread_activity(*self, scope@, tag@),
    {
        let ghost ks = forum_keys(*self);
        let ghost key = (scope@, tag@);
        let mut i: usize = 0;
        while i < self.forum_threads.len()
            invariant
                i <= self.forum_threads.len(),
                ks == forum_keys(*self),
                key == (scope@, tag@),
                text::position(ks.take(i as int), key) is None,
            decreases self.forum_threads.len() - i,
        {
            assert(ks.take(i + 1).drop_last() =~= ks.take(i as int));
            if self.forum_threads[i].scope.same(scope) && text::same(
                self.forum_threads[i].tag.as_str(),
                tag,
            ) {
                proof {
                    text::lemma_position_prefix(ks, key, i + 1);
                }
                return self.forum_threads[i].last_activity_ts;
            }
            i = i + 1;
        }
        assert(ks.take(ks.len() as int) =~= ks);
        0
    }

    /// The public garden.
    pub fn public(&self) -> (r: &ContentState)
        ensures
            *r == self.public_content,
    {
        &self.public_content
    }

    /// The garden of a scope, if it has one.
    pub fn content_for_scope(&self, scope: &ScopeId) -> (r: Option<&ContentState>)
        ensures
            match r {
                Some(c) => content_of(*self, scope@) == Some(*c),
                None => content_of(*self, scope@) is None,
            },
    {
        match scope {
            ScopeId::Public => Some(&self.public_content),
            ScopeId::Room(room) => {
                let ghost ks = content_keys(*self);
                let mut i: usize = 0;
                while i < self.room_content.len()
                    invariant
                        i <= self.room_content.len(),
                        ks == content_keys(*self),
                        scope@ == Some(room@),
                        text::position(ks.take(i as int), room@) is None,
                    decreases self.room_content.len() - i,
                {
                    assert(ks.take(i + 1).drop_last() =~= ks.take(i as int));
                    if text::same(self.room_content[i].room.as_str(), room.as_str()) {
                        proof {
                            text::lemma_position_prefix(ks, room@, i + 1);
                        }
                        return Some(&self.room_content[i].content);
                    }
                    i = i + 1;
                }
                assert(ks.take(ks.len() as int) =~= ks);
                None
            },
        }
    }
}

/// Whether a list of capabilities holds one.
pub fn holds_cap(caps: &Vec<ThreadCapability>, cap: ThreadCapability) -> (r: bool)
    ensures
        r == caps@.contains(cap),
{
    let mut i: usize = 0;
    while i < caps.len()
        invariant
            i <= caps.len(),
            forall|j: int| 0 <= j < i ==> caps@[j] != cap,
        decreases caps.len() - i,
    {
        if caps[i] == cap {
            return true;
        }
        i = i + 1;
    }
    false
}

/// The strings of a list from the last to the first.
pub fn reversed(v: &Vec<String>) -> (r: Vec<String>)
    ensures
        text::views(r@) == text::views(v@).reverse(),
{
    let mut r: Vec<String> = Vec::new();
    let mut n: usize = v.len();
    while n > 0
        invariant
            n <= v.len(),
            r.len() == v.len() - n,
            forall|j: int| 0 <= j < r.len() ==> (#[trigger] r@[j])@ == v@[v.len() - 1 - j]@,
        decreases n,
    {
        n = n - 1;
        r.push(v[n].clone());
    }
    assert(text::views(r@) =~= text::views(v@).reverse());
    r
}

/// Rows are found by their keys, and nothing is found by a key that no row has.
#[verifier::rlimit(50)]
pub proof fn law_content_is_found_by_key(c: ContentState, key: Seq<char>)
    requires
        c.wf(),
    ensures
        forall|i: int|
            0 <= i < c.item_bodies@.len() && (#[trigger] c.item_bodies@[i]).item@ == key
                ==> body_of(c, key) == Some(c.item_bodies@[i].body@),
        (forall|i: int| 0 <= i < c.item_bodies@.len() ==> (#[trigger] c.item_bodies@[i]).item@ != key)
            ==> body_of(c, key) is None,
        forall|i: int|
            0 <= i < c.item_threads@.len() && (#[trigger] c.item_threads@[i]).item@ == key
                ==> threads_of(c, key) == text::views(c.item_threads@[i].tags@),
        (forall|i: int|
            0 <= i < c.item_threads@.len() ==> (#[trigger] c.item_threads@[i]).item@ != key)
            ==> threads_of(c, key).len() == 0,
        forall|i: int|
            0 <= i < c.members_by_scope@.len() && (#[trigger] c.members_by_scope@[i]).scope@ == key
                ==> members_of(c, key) == paths::keys(c.members_by_scope@[i].members@),
        (forall|i: int|
            0 <= i < c.members_by_scope@.len() ==> (#[trigger] c.members_by_scope@[i]).scope@ != key)
            ==> members_of(c, key).len() == 0,
        forall|i: int|
            0 <= i < c.aspect_prompts@.len() && (#[trigger] c.aspect_prompts@[i]).slug@ == key
                ==> prompt_of(c, key) == Some(c.aspect_prompts@[i].prompt@),
        (forall|i: int|
            0 <= i < c.aspect_prompts@.len() ==> (#[trigger] c.aspect_prompts@[i]).slug@ != key)
            ==> prompt_of(c, key) is None,
        forall|i: int|
            0 <= i < c.rankings@.len() && (#[trigger] c.rankings@[i]).scope@ == key ==> rankings_of(
                c,
                key,
            ) == c.rankings@[i].rankings@,
        (forall|i: int| 0 <= i < c.rankings@.len() ==> (#[trigger] c.rankings@[i]).scope@ != key)
            ==> rankings_of(c, key).components.len() == 0 && rankings_of(c, key).unranked.len() == 0,
        forall|i: int|
            0 <= i < c.rank_history@.len() && (#[trigger] c.rank_history@[i]).item@ == key
                ==> history_of(c, key) == rows(c.rank_history@[i].entries@),
        (forall|i: int| 0 <= i < c.rank_history@.len() ==> (#[trigger] c.rank_history@[i]).item@ != key)
            ==> history_of(c, key).len() == 0,
{
    lemma_found(body_keys(c), key);
    lemma_found(thread_keys(c), key);
    lemma_found(scope_keys(c), key);
    lemma_found(prompt_keys(c), key);
    lemma_found(ranking_keys(c), key);
    lemma_found(history_keys(c), key);
    assert forall|i: int|
        0 <= i < c.item_bodies@.len() && (#[trigger] c.item_bodies@[i]).item@ == key implies body_of(
        c,
        key,
    ) == Some(c.item_bodies@[i].body@) by {
        assert(body_keys(c)[i] == key);
    }
    assert forall|i: int|
        0 <= i < c.item_threads@.len() && (#[trigger] c.item_threads@[i]).item@
            == key implies threads_of(c, key) == text::views(c.item_threads@[i].tags@) by {
        assert(thread_keys(c)[i] == key);
    }
    assert forall|i: int|
        0 <= i < c.members_by_scope@.len() && (#[trigger] c.members_by_scope@[i]).scope@
            == key implies members_of(c, key) == paths::keys(c.members_by_scope@[i].members@) by {
        assert(scope_keys(c)[i] == key);
    }
    assert forall|i: int|
        0 <= i < c.aspect_prompts@.len() && (#[trigger] c.aspect_prompts@[i]).slug@
            == key implies prompt_of(c, key) == Some(c.aspect_prompts@[i].prompt@) by {
        assert(prompt_keys(c)[i] == key);
    }
    assert forall|i: int|
        0 <= i < c.rankings@.len() && (#[trigger] c.rankings@[i]).scope@ == key implies rankings_of(
        c,
        key,
    ) == c.rankings@[i].rankings@ by {
        assert(ranking_keys(c)[i] == key);
    }
    assert forall|i: int|
        0 <= i < c.rank_history@.len() && (#[trigger] c.rank_history@[i]).item@
            == key implies history_of(c, key) == rows(c.rank_history@[i].entries@) by {
        assert(history_keys(c)[i] == key);
    }
}

proof fn lemma_found<K>(keys: Seq<K>, key: K)
    requires
        keys.no_duplicates(),
    ensures
        forall|i: int| 0 <= i < keys.len() && #[trigger] keys[i] == key ==> text::position(keys, key)
            == Some(i),
        match text::position(keys, key) {
            Some(i) => 0 <= i < keys.len() && keys[i] == key,
            None => true,
        },
{
    text::lemma_position(keys, key);
}

/// The claims on a membership, and the vote graph of an aspect, are found by both of the names
/// that they go by.
pub proof fn law_pairs_are_found_by_both_names(c: ContentState, a: Seq<char>, b: Seq<char>, i: int)
    requires
        c.wf(),
    ensures
        0 <= i < c.borders@.len() && c.borders@[i].child@ == a && c.borders@[i].parent@ == b
            ==> border_of(c, a, b) == Some(c.borders@[i]@),
        border_of(c, a, b) is Some ==> border_of(c, a, b).unwrap().child == a && border_of(
            c,
            a,
            b,
        ).unwrap().parent == b,
        0 <= i < c.aspect_groups@.len() && c.aspect_groups@[i].scope@ == a
            && c.aspect_groups@[i].slug@ == b ==> aspect_index(c, a, b) == Some(i),
        aspect_index(c, a, b) == Some(i) ==> 0 <= i < c.aspect_groups@.len()
            && c.aspect_groups@[i].scope@ == a && c.aspect_groups@[i].slug@ == b,
{
    lemma_found(border_keys(c), (a, b));
    lemma_found(aspect_keys(c), (a, b));
    if 0 <= i < c.borders@.len() {
        assert(border_keys(c)[i] == (c.borders@[i].child@, c.borders@[i].parent@));
    }
    if 0 <= i < c.aspect_groups@.len() {
        assert(aspect_keys(c)[i] == (c.aspect_groups@[i].scope@, c.aspect_groups@[i].slug@));
    }
}

/// The scopes of an item are those whose members it is one of.
pub proof fn law_scopes_are_those_with_the_member(c: ContentState, item: Seq<char>, scope: Seq<char>)
    ensures
        scopes_of(c, item).contains(scope) <==> exists|i: int, j: int|
            0 <= i < c.members_by_scope@.len() && 0 <= j < c.members_by_scope@[i].members@.len()
                && (#[trigger] c.members_by_scope@[i].members@[j])@ == item
                && c.members_by_scope@[i].scope@ == scope,
{
    lemma_scopes_upto_hold(c, item, scope, c.members_by_scope@.len());
}

proof fn lemma_scopes_upto_hold(c: ContentState, item: Seq<char>, scope: Seq<char>, n: nat)
    requires
        n <= c.members_by_scope@.len(),
    ensures
        scopes_of_upto(c, item, n).contains(scope) <==> exists|i: int, j: int|
            0 <= i < n && 0 <= j < c.members_by_scope@[i].members@.len() && (
            #[trigger] c.members_by_scope@[i].members@[j])@ == item && c.members_by_scope@[i].scope@
                == scope,
    decreases n,
{
    if n > 0 {
        lemma_scopes_upto_hold(c, item, scope, (n - 1) as nat);
        let front = scopes_of_upto(c, item, (n - 1) as nat);
        let all = scopes_of_upto(c, item, n);
        let ks = paths::keys(c.members_by_scope@[n - 1].members@);
        if all.contains(scope) {
            let k = choose|k: int| 0 <= k < all.len() && all[k] == scope;
            if k < front.len() {
                assert(front[k] == scope);
                assert(front.contains(scope));
            } else {
                let j = choose|j: int| 0 <= j < ks.len() && ks[j] == item;
                assert(c.members_by_scope@[n - 1].members@[j]@ == item);
            }
        }
        if exists|i: int, j: int|
            0 <= i < n && 0 <= j < c.members_by_scope@[i].members@.len() && (
            #[trigger] c.members_by_scope@[i].members@[j])@ == item && c.members_by_scope@[i].scope@
                == scope {
            let (i, j) = choose|i: int, j: int|
                0 <= i < n && 0 <= j < c.members_by_scope@[i].members@.len() && (
                #[trigger] c.members_by_scope@[i].members@[j])@ == item
                    && c.members_by_scope@[i].scope@ == scope;
            if i < n - 1 {
                let k = choose|k: int| 0 <= k < front.len() && front[k] == scope;
                assert(all[k] == scope);
            } else {
                assert(ks[j] == item);
                assert(all[all.len() - 1] == scope);
            }
        }
    }
}

/// Posts, threads and gardens are found by what they go by; the posts of a thread that are kept
/// newest first are read oldest first.
pub proof fn law_posts_are_found(
    s: ReducerState,
    scope: Option<Seq<char>>,
    tag: Seq<char>,
    id: Seq<char>,
    i: int,
)
    requires
        s.wf(),
    ensures
        0 <= i < s.ingests@.len() && s.ingests@[i].id@ == id ==> ingest_of(s, id) == Some(
            s.ingests@[i]@,
        ) && ingest_index(s, id) == Some(i),
        ingest_of(s, id) is Some ==> ingest_of(s, id).unwrap().id == id,
        0 <= i < s.thread_posts@.len() && s.thread_posts@[i].scope@ == scope
            && s.thread_posts@[i].tag@ == tag ==> posts_of(s, scope, tag) == text::views(
            s.thread_posts@[i].ids@,
        ),
        posts_of(s, scope, tag).len() > 0 ==> exists|k: int|
            0 <= k < s.thread_posts@.len() && (#[trigger] s.thread_posts@[k]).scope@ == scope
                && s.thread_posts@[k].tag@ == tag,
        chronological(s, scope, tag).len() == posts_of(s, scope, tag).len(),
        forall|k: int|
            0 <= k < chronological(s, scope, tag).len() ==> #[trigger] chronological(
                s,
                scope,
                tag,
            )[k] == posts_of(s, scope, tag)[posts_of(s, scope, tag).len() - 1 - k],
        0 <= i < s.forum_threads@.len() && s.forum_threads@[i].scope@ == scope
            && s.forum_threads@[i].tag@ == tag ==> thread_activity(s, scope, tag)
            == s.forum_threads@[i].last_activity_ts,
        (forall|k: int|
            0 <= k < s.forum_threads@.len() ==> !((#[trigger] s.forum_threads@[k]).scope@ == scope
                && s.forum_threads@[k].tag@ == tag)) ==> thread_activity(s, scope, tag) == 0,
{
    lemma_found(ingest_ids(s), id);
    lemma_found(post_keys(s), (scope, tag));
    lemma_found(forum_keys(s), (scope, tag));
    if 0 <= i < s.ingests@.len() {
        assert(ingest_ids(s)[i] == s.ingests@[i].id@);
    }
    if 0 <= i < s.thread_posts@.len() {
        assert(post_keys(s)[i] == (s.thread_posts@[i].scope@, s.thread_posts@[i].tag@));
    }
    if 0 <= i < s.forum_threads@.len() {
        assert(forum_keys(s)[i] == (s.forum_threads@[i].scope@, s.forum_threads@[i].tag@));
    }
    match text::position(post_keys(s), (scope, tag)) {
        Some(k) => {
            assert(post_keys(s)[k] == (s.thread_posts@[k].scope@, s.thread_posts@[k].tag@));
        },
        None => {},
    }
    match text::position(forum_keys(s), (scope, tag)) {
        Some(k) => {
            assert(forum_keys(s)[k] == (s.forum_threads@[k].scope@, s.forum_threads@[k].tag@));
        },
        None => {},
    }
}

/// The public scope has the public garden, and a room its own where it has one.
pub proof fn law_gardens(s: ReducerState, i: int, room: Seq<char>)
    requires
        s.wf(),
    ensures
        content_of(s, None) == Some(s.public_content),
        0 <= i < s.room_content@.len() && s.room_content@[i].room@ == room ==> content_of(
            s,
            Some(room),
        ) == Some(s.room_content@[i].content),
        (forall|k: int|
            0 <= k < s.room_content@.len() ==> (#[trigger] s.room_content@[k]).room@ != room)
            ==> content_of(s, Some(room)) is None,
{
    lemma_found(content_keys(s), room);
    if 0 <= i < s.room_content@.len() {
        assert(content_keys(s)[i] == s.room_content@[i].room@);
    }
}

} // verus!
