//! The forum: who may do what, and what thread, post, room and profile pages show.

use vstd::prelude::*;

use crate::identity;
use crate::markup;
use crate::nav::{self, NavModel, ScopeId, ThreadNav, THREAD_PAGE_SIZE};
use crate::search;
use crate::sort::{self, Key, SortKey};
use crate::state::{self, Ingest, IngestModel, ReducerState, ThreadCapability};
use crate::text;
use crate::unicode;

verus! {

/// The query of a thread page.
#[derive(Debug)]
pub struct ThreadViewQuery {
    pub offset: Option<usize>,
}

// ---------------------------------------------------------------------------
// Access
// ---------------------------------------------------------------------------

/// Whether a reader may view a room: it exists, and the reader is signed in and may view it.
pub open spec fn can_view_room(s: ReducerState, room: Seq<char>, username: Option<Seq<char>>) -> bool {
    state::room_ids(s).contains(room) && match username {
        Some(u) => state::has_cap(s, room, u, ThreadCapability::View),
        None => false,
    }
}

/// Whether a reader may view a room.
pub fn user_can_view_room(reduced: &ReducerState, room_id: &str, username: Option<&str>) -> (r: bool)
    ensures
        r == can_view_room(*reduced, room_id@, text::opt_str(username)),
{
    if !reduced.has_room(room_id) {
        return false;
    }
    match username {
        Some(u) => reduced.user_has_cap(room_id, u, ThreadCapability::View),
        None => false,
    }
}

/// Whether a member may post in a room.
pub fn user_can_post_room(reduced: &ReducerState, room_id: &str, username: &str) -> (r: bool)
    ensures
        r == state::has_cap(*reduced, room_id@, username@, ThreadCapability::Post),
{
    reduced.user_has_cap(room_id, username, ThreadCapability::Post)
}

/// Whether a member may manage a room.
pub fn user_can_manage_room(reduced: &ReducerState, room_id: &str, username: &str) -> (r: bool)
    ensures
        r == state::has_cap(*reduced, room_id@, username@, ThreadCapability::Manage),
{
    reduced.user_has_cap(room_id, username, ThreadCapability::Manage)
}

/// Whether a reader may post in a scope: everyone who is signed in may post in public.
pub open spec fn can_post(s: ReducerState, scope: Option<Seq<char>>, user: Option<Seq<char>>) -> bool {
    match user {
        None => false,
        Some(u) => match scope {
            None => true,
            Some(room) => state::has_cap(s, room, u, ThreadCapability::Post),
        },
    }
}

/// Whether a reader may post in a scope.
pub fn user_can_post(reduced: &ReducerState, scope: &ScopeId, user: Option<&str>) -> (r: bool)
    ensures
        r == can_post(*reduced, scope@, text::opt_str(user)),
{
    match user {
        None => false,
        Some(u) => match scope {
            ScopeId::Public => true,
            ScopeId::Room(room) => user_can_post_room(reduced, room.as_str(), u),
        },
    }
}

/// Nobody views a room without a grant, and nobody views a room that does not exist.
pub proof fn law_no_view_without_grant(s: ReducerState, room: Seq<char>, username: Option<Seq<char>>)
    requires
        can_view_room(s, room, username),
    ensures
        state::room_ids(s).contains(room),
        username is Some,
        exists|i: int|
            0 <= i < s.grants@.len() && (#[trigger] s.grants@[i]).room@ == room
                && s.grants@[i].username@ == username.unwrap() && s.grants@[i].caps@.contains(
                ThreadCapability::View,
            ),
{
}

// ---------------------------------------------------------------------------
// Thread rows
// ---------------------------------------------------------------------------

/// A thread in a list of threads.
pub struct ThreadRow {
    pub tag: String,
    pub last_ts: i64,
    pub last_actor: String,
    pub ingests: usize,
}

/// The mathematical value of a [`ThreadRow`].
pub struct ThreadRowModel {
    pub tag: Seq<char>,
    pub last_ts: int,
    pub last_actor: Seq<char>,
    pub ingests: nat,
}

impl View for ThreadRow {
    type V = ThreadRowModel;

    open spec fn view(&self) -> ThreadRowModel {
        ThreadRowModel {
            tag: self.tag@,
            last_ts: self.last_ts as int,
            last_actor: self.last_actor@,
            ingests: self.ingests as nat,
        }
    }
}

/// The threads of a scope among the first `n`.
pub open spec fn scope_threads(s: ReducerState, scope: Option<Seq<char>>, n: int) -> Seq<
    ThreadRowModel,
>
    decreases n,
{
    if n <= 0 {
        Seq::empty()
    } else {
        let t = s.forum_threads@[n - 1]@;
        let front = scope_threads(s, scope, n - 1);
        if t.scope == scope {
            front.push(
                ThreadRowModel {
                    tag: t.tag,
                    last_ts: t.last_ts,
                    last_actor: t.last_actor,
                    ingests: state::posts_of(s, scope, t.tag).len(),
                },
            )
        } else {
            front
        }
    }
}

/// The threads of a scope, most recently active first.
pub open spec fn feed_of(s: ReducerState, scope: Option<Seq<char>>) -> Seq<ThreadRowModel> {
    let rows = scope_threads(s, scope, s.forum_threads@.len() as int);
    sort::pick(rows, sort::stable_order(feed_keys(rows)))
}

/// What thread rows are ordered by.
pub open spec fn feed_keys(rows: Seq<ThreadRowModel>) -> Seq<Key> {
    Seq::new(rows.len(), |i: int| Key { major: -rows[i].last_ts, minor: 0, text: Seq::empty() })
}

/// The threads of a scope, in no particular order.
pub fn collect_thread_rows_for_scope(reduced: &ReducerState, scope: &ScopeId) -> (r: Vec<ThreadRow>)
    ensures
        state::rows(r@) == scope_threads(*reduced, scope@, reduced.forum_threads@.len() as int),
{
    let mut r: Vec<ThreadRow> = Vec::new();
    let mut i: usize = 0;
    assert(state::rows(r@) =~= scope_threads(*reduced, scope@, 0));
    while i < reduced.forum_threads.len()
        invariant
            i <= reduced.forum_threads.len(),
            state::rows(r@) == scope_threads(*reduced, scope@, i as int),
        decreases reduced.forum_threads.len() - i,
    {
        let t = &reduced.forum_threads[i];
        if t.scope.same(scope) {
            let posts: Vec<String> = reduced.posts_chronological(scope, t.tag.as_str());
            assert(text::views(posts@).len() == posts@.len());
            let row = ThreadRow {
                tag: t.tag.clone(),
                last_ts: t.last_activity_ts,
                last_actor: t.last_actor.clone(),
                ingests: posts.len(),
            };
            proof {
                state::lemma_rows_push(r@, row);
            }
            r.push(row);
        }
        i = i + 1;
    }
    r
}

/// The threads of a scope, most recently active first.
pub fn thread_feed(reduced: &ReducerState, scope: &ScopeId) -> (r: Vec<ThreadRow>)
    ensures
        state::rows(r@) == feed_of(*reduced, scope@),
{
    let all: Vec<ThreadRow> = collect_thread_rows_for_scope(reduced, scope);
    let ghost rows = state::rows(all@);
    let mut keys: Vec<SortKey> = Vec::new();
    let mut i: usize = 0;
    while i < all.len()
        invariant
            i <= all.len(),
            keys.len() == i,
            rows == state::rows(all@),
            forall|j: int| 0 <= j < i ==> (#[trigger] keys@[j])@ == feed_keys(rows)[j],
        decreases all.len() - i,
    {
        let k = SortKey { major: -(all[i].last_ts as i128), minor: 0, text: String::new() };
        assert(k@.text =~= Seq::empty());
        keys.push(k);
        i = i + 1;
    }
    assert(sort::key_views(keys@) =~= feed_keys(rows));
    let order: Vec<usize> = sort::order_by(&keys);
    let mut r: Vec<ThreadRow> = Vec::new();
    let mut k: usize = 0;
    while k < order.len()
        invariant
            k <= order.len(),
            r.len() == k,
            forall|j: int| 0 <= j < order@.len() ==> (#[trigger] order@[j]) < all@.len(),
            forall|j: int| 0 <= j < k ==> (#[trigger] r@[j])@ == all@[order@[j] as int]@,
        decreases order.len() - k,
    {
        let t: &ThreadRow = &all[order[k]];
        r.push(
            ThreadRow {
                tag: t.tag.clone(),
                last_ts: t.last_ts,
                last_actor: t.last_actor.clone(),
                ingests: t.ingests,
            },
        );
        k = k + 1;
    }
    proof {
        let o = sort::ints(order@);
        assert forall|j: int| 0 <= j < r@.len() implies #[trigger] state::rows(r@)[j]
            == sort::pick(rows, o)[j] by {
            assert(r@[j]@ == all@[order@[j] as int]@);
            assert(o[j] == order@[j] as int);
        }
        assert(state::rows(r@) =~= sort::pick(rows, o));
    }
    r
}

/// A feed shows the most recently active thread first, and every later one is no newer.
pub proof fn law_feed_is_newest_first(s: ReducerState, scope: Option<Seq<char>>)
    ensures
        forall|i: int, j: int|
            0 <= i < j < feed_of(s, scope).len() ==> (#[trigger] feed_of(s, scope)[i]).last_ts >= (
            #[trigger] feed_of(s, scope)[j]).last_ts,
        feed_of(s, scope).len() == scope_threads(s, scope, s.forum_threads@.len() as int).len(),
{
    let rows = scope_threads(s, scope, s.forum_threads@.len() as int);
    let keys = feed_keys(rows);
    let order = sort::stable_order(keys);
    sort::lemma_stable_order(keys);
    assert forall|i: int, j: int| 0 <= i < j < feed_of(s, scope).len() implies (
    #[trigger] feed_of(s, scope)[i]).last_ts >= (#[trigger] feed_of(s, scope)[j]).last_ts by {
        assert(0 <= order[i] < rows.len() && 0 <= order[j] < rows.len());
        assert(keys[order[i]].major == -rows[order[i]].last_ts);
        assert(keys[order[j]].major == -rows[order[j]].last_ts);
    }
}

/// The tags of a list of threads.
pub open spec fn row_tags(rows: Seq<ThreadRowModel>) -> Seq<Seq<char>> {
    Seq::new(rows.len(), |i: int| rows[i].tag)
}

proof fn lemma_scope_threads_differ(s: ReducerState, scope: Option<Seq<char>>, n: int)
    requires
        state::forum_keys(s).no_duplicates(),
        0 <= n <= s.forum_threads@.len(),
    ensures
        row_tags(scope_threads(s, scope, n)).no_duplicates(),
        forall|i: int|
            0 <= i < scope_threads(s, scope, n).len() ==> state::forum_keys(s).take(n).contains(
                (scope, (#[trigger] scope_threads(s, scope, n)[i]).tag),
            ),
    decreases n,
{
    let ks = state::forum_keys(s);
    if n > 0 {
        lemma_scope_threads_differ(s, scope, n - 1);
        let front = scope_threads(s, scope, n - 1);
        let all = scope_threads(s, scope, n);
        assert(ks[n - 1] == (s.forum_threads@[n - 1].scope@, s.forum_threads@[n - 1].tag@));
        assert forall|i: int| 0 <= i < front.len() implies (scope, (#[trigger] front[i]).tag)
            != ks[n - 1] && ks.take(n).contains((scope, front[i].tag)) by {
            let less = ks.take(n - 1);
            let k = choose|k: int| 0 <= k < less.len() && less[k] == (scope, front[i].tag);
            assert(ks.take(n)[k] == (scope, front[i].tag));
            assert(ks[k] == (scope, front[i].tag));
        }
        assert(ks.take(n)[n - 1] == ks[n - 1]);
        assert forall|i: int| 0 <= i < all.len() implies ks.take(n).contains(
            (scope, (#[trigger] all[i]).tag),
        ) by {
            if i < front.len() {
                assert(all[i] == front[i]);
            }
        }
        assert forall|i: int, j: int|
            0 <= i < all.len() && 0 <= j < all.len() && i != j implies row_tags(all)[i] != row_tags(
            all,
        )[j] by {
            if i < front.len() {
                assert(all[i] == front[i]);
                assert(row_tags(front)[i] == all[i].tag);
            }
            if j < front.len() {
                assert(all[j] == front[j]);
                assert(row_tags(front)[j] == all[j].tag);
            }
        }
    }
}

/// A feed shows every thread of its scope once.
pub proof fn law_threads_are_listed_once(s: ReducerState, scope: Option<Seq<char>>)
    requires
        s.wf(),
    ensures
        row_tags(feed_of(s, scope)).no_duplicates(),
{
    let rows = scope_threads(s, scope, s.forum_threads@.len() as int);
    let order = sort::stable_order(feed_keys(rows));
    lemma_scope_threads_differ(s, scope, s.forum_threads@.len() as int);
    sort::lemma_stable_order(feed_keys(rows));
    sort::lemma_pick_differs(row_tags(rows), order);
    assert(row_tags(feed_of(s, scope)) =~= sort::pick(row_tags(rows), order));
}

// ---------------------------------------------------------------------------
// Rooms
// ---------------------------------------------------------------------------

/// A room in a reader's list of rooms.
pub struct RoomRow {
    pub id: String,
    pub last_ts: i64,
}

/// The mathematical value of a [`RoomRow`].
pub struct RoomRowModel {
    pub id: Seq<char>,
    pub last_ts: int,
}

impl View for RoomRow {
    type V = RoomRowModel;

    open spec fn view(&self) -> RoomRowModel {
        RoomRowModel { id: self.id@, last_ts: self.last_ts as int }
    }
}

/// The latest activity among the first `n` threads of a room, if there is one.
pub open spec fn latest_activity(s: ReducerState, room: Seq<char>, n: int) -> Option<int>
    decreases n,
{
    if n <= 0 {
        None
    } else {
        let t = s.forum_threads@[n - 1]@;
        let front = latest_activity(s, room, n - 1);
        if t.scope == Some(room) {
            match front {
                Some(ts) => Some(
                    if t.last_ts > ts {
                        t.last_ts
                    } else {
                        ts
                    },
                ),
                None => Some(t.last_ts),
            }
        } else {
            front
        }
    }
}

/// When a room was last active: its newest post, or its creation where it has none.
pub open spec fn room_activity(s: ReducerState, room: Seq<char>, created_ts: int) -> int {
    match latest_activity(s, room, s.forum_threads@.len() as int) {
        Some(ts) => ts,
        None => created_ts,
    }
}

/// Whether a reader has a grant in a room.
pub open spec fn has_grant(s: ReducerState, room: Seq<char>, username: Seq<char>) -> bool {
    exists|i: int|
        0 <= i < s.grants@.len() && (#[trigger] s.grants@[i]).room@ == room
            && s.grants@[i].username@ == username
}

/// The rooms among the first `n` in which a reader has a grant.
pub open spec fn granted_rooms(s: ReducerState, username: Seq<char>, n: int) -> Seq<RoomRowModel>
    decreases n,
{
    if n <= 0 {
        Seq::empty()
    } else {
        let room = s.rooms@[n - 1];
        let front = granted_rooms(s, username, n - 1);
        if has_grant(s, room.id@, username) {
            front.push(
                RoomRowModel {
                    id: room.id@,
                    last_ts: room_activity(s, room.id@, room.created_ts as int),
                },
            )
        } else {
            front
        }
    }
}

/// What rooms are ordered by: the latest activity first, then the id.
pub open spec fn room_keys(rows: Seq<RoomRowModel>) -> Seq<Key> {
    Seq::new(rows.len(), |i: int| Key { major: -rows[i].last_ts, minor: 0, text: rows[i].id })
}

/// The rooms of a reader, most recently active first.
pub open spec fn rooms_of(s: ReducerState, username: Seq<char>) -> Seq<RoomRowModel> {
    let rows = granted_rooms(s, username, s.rooms@.len() as int);
    sort::pick(rows, sort::stable_order(room_keys(rows)))
}

fn holds_grant(s: &ReducerState, room: &str, username: &str) -> (r: bool)
    ensures
        r == has_grant(*s, room@, username@),
{
    let mut i: usize = 0;
    while i < s.grants.len()
        invariant
            i <= s.grants.len(),
            forall|j: int|
                0 <= j < i ==> !((#[trigger] s.grants@[j]).room@ == room@ && s.grants@[j].username@
                    == username@),
        decreases s.grants.len() - i,
    {
        if text::same(s.grants[i].room.as_str(), room) && text::same(
            s.grants[i].username.as_str(),
            username,
        ) {
            return true;
        }
        i = i + 1;
    }
    false
}

/// When a room was last active.
pub fn room_last_activity_ts(s: &ReducerState, room: &str, created_ts: i64) -> (r: i64)
    ensures
        r == room_activity(*s, room@, created_ts as int),
{
    let scope = ScopeId::Room(room.to_owned());
    assert(scope@ == Some(room@));
    let mut best: Option<i64> = None;
    let mut i: usize = 0;
    while i < s.forum_threads.len()
        invariant
            i <= s.forum_threads.len(),
            scope@ == Some(room@),
            match best {
                Some(ts) => latest_activity(*s, room@, i as int) == Some(ts as int),
                None => latest_activity(*s, room@, i as int) is None,
            },
        decreases s.forum_threads.len() - i,
    {
        let t = &s.forum_threads[i];
        if t.scope.same(&scope) {
            best = match best {
                Some(ts) => if t.last_activity_ts > ts {
                    Some(t.last_activity_ts)
                } else {
                    Some(ts)
                },
                None => Some(t.last_activity_ts),
            };
        }
        i = i + 1;
    }
    match best {
        Some(ts) => ts,
        None => created_ts,
    }
}

/// The rooms of a reader, most recently active first.
pub fn rooms_for_user(reduced: &ReducerState, username: &str) -> (r: Vec<RoomRow>)
    ensures
        state::rows(r@) == rooms_of(*reduced, username@),
{
    let mut all: Vec<RoomRow> = Vec::new();
    let mut keys: Vec<SortKey> = Vec::new();
    let mut i: usize = 0;
    assert(state::rows(all@) =~= granted_rooms(*reduced, username@, 0));
    while i < reduced.rooms.len()
        invariant
            i <= reduced.rooms.len(),
            all.len() == keys.len(),
            state::rows(all@) == granted_rooms(*reduced, username@, i as int),
            forall|j: int|
                0 <= j < keys.len() ==> (#[trigger] keys@[j])@ == (Key {
                    major: -(all@[j].last_ts as int),
                    minor: 0,
                    text: all@[j].id@,
                }),
        decreases reduced.rooms.len() - i,
    {
        let room = &reduced.rooms[i];
        if holds_grant(reduced, room.id.as_str(), username) {
            let last_ts: i64 = room_last_activity_ts(reduced, room.id.as_str(), room.created_ts);
            let row = RoomRow { id: room.id.clone(), last_ts };
            proof {
                state::lemma_rows_push(all@, row);
            }
            all.push(row);
            keys.push(SortKey { major: -(last_ts as i128), minor: 0, text: room.id.clone() });
        }
        i = i + 1;
    }
    let ghost rows = state::rows(all@);
    assert(sort::key_views(keys@) =~= room_keys(rows));
    let order: Vec<usize> = sort::order_by(&keys);
    let mut r: Vec<RoomRow> = Vec::new();
    let mut k: usize = 0;
    while k < order.len()
        invariant
            k <= order.len(),
            r.len() == k,
            forall|j: int| 0 <= j < order@.len() ==> (#[trigger] order@[j]) < all@.len(),
            forall|j: int| 0 <= j < k ==> (#[trigger] r@[j])@ == all@[order@[j] as int]@,
        decreases order.len() - k,
    {
        let t: &RoomRow = &all[order[k]];
        r.push(RoomRow { id: t.id.clone(), last_ts: t.last_ts });
        k = k + 1;
    }
    proof {
        let o = sort::ints(order@);
        assert forall|j: int| 0 <= j < r@.len() implies #[trigger] state::rows(r@)[j]
            == sort::pick(rows, o)[j] by {
            assert(r@[j]@ == all@[order@[j] as int]@);
            assert(o[j] == order@[j] as int);
        }
        assert(state::rows(r@) =~= sort::pick(rows, o));
    }
    r
}

proof fn lemma_granted_rooms(s: ReducerState, username: Seq<char>, n: int)
    requires
        0 <= n <= s.rooms@.len(),
    ensures
        forall|i: int|
            0 <= i < granted_rooms(s, username, n).len() ==> has_grant(
                s,
                (#[trigger] granted_rooms(s, username, n)[i]).id,
                username,
            ),
        forall|k: int|
            0 <= k < n && has_grant(s, (#[trigger] s.rooms@[k]).id@, username) ==> lists_room(
                granted_rooms(s, username, n),
                s.rooms@[k].id@,
            ),
    decreases n,
{
    if n > 0 {
        lemma_granted_rooms(s, username, n - 1);
        let front = granted_rooms(s, username, n - 1);
        let all = granted_rooms(s, username, n);
        assert forall|k: int|
            0 <= k < n && has_grant(s, (#[trigger] s.rooms@[k]).id@, username) implies lists_room(
            all,
            s.rooms@[k].id@,
        ) by {
            if k < n - 1 {
                let i = choose|i: int|
                    0 <= i < front.len() && (#[trigger] front[i]).id == s.rooms@[k].id@;
                assert(all[i] == front[i]);
            } else {
                assert(all[all.len() - 1].id == s.rooms@[k].id@);
            }
        }
    }
}

/// Whether a list of rooms holds a room.
pub open spec fn lists_room(rows: Seq<RoomRowModel>, id: Seq<char>) -> bool {
    exists|i: int| 0 <= i < rows.len() && (#[trigger] rows[i]).id == id
}

/// The ids of a list of rooms.
pub open spec fn row_ids(rows: Seq<RoomRowModel>) -> Seq<Seq<char>> {
    Seq::new(rows.len(), |i: int| rows[i].id)
}

proof fn lemma_granted_rooms_differ(s: ReducerState, username: Seq<char>, n: int)
    requires
        state::room_ids(s).no_duplicates(),
        0 <= n <= s.rooms@.len(),
    ensures
        row_ids(granted_rooms(s, username, n)).no_duplicates(),
        forall|i: int|
            0 <= i < granted_rooms(s, username, n).len() ==> state::room_ids(s).take(n).contains(
                (#[trigger] granted_rooms(s, username, n)[i]).id,
            ),
    decreases n,
{
    let ids = state::room_ids(s);
    if n > 0 {
        lemma_granted_rooms_differ(s, username, n - 1);
        let front = granted_rooms(s, username, n - 1);
        let all = granted_rooms(s, username, n);
        assert forall|i: int| 0 <= i < front.len() implies (#[trigger] front[i]).id != ids[n - 1]
            && ids.take(n).contains(front[i].id) by {
            let less = ids.take(n - 1);
            let k = choose|k: int| 0 <= k < less.len() && less[k] == front[i].id;
            assert(ids.take(n)[k] == front[i].id);
            assert(ids[k] == front[i].id);
        }
        assert(ids.take(n)[n - 1] == s.rooms@[n - 1].id@);
        assert forall|i: int| 0 <= i < all.len() implies ids.take(n).contains(
            (#[trigger] all[i]).id,
        ) by {
            if i < front.len() {
                assert(all[i] == front[i]);
            }
        }
        assert forall|i: int, j: int|
            0 <= i < all.len() && 0 <= j < all.len() && i != j implies row_ids(all)[i] != row_ids(
            all,
        )[j] by {
            if i < front.len() {
                assert(all[i] == front[i]);
                assert(row_ids(front)[i] == all[i].id);
            }
            if j < front.len() {
                assert(all[j] == front[j]);
                assert(row_ids(front)[j] == all[j].id);
            }
        }
    }
}

/// Every room of a reader is listed once.
pub proof fn law_rooms_are_listed_once(s: ReducerState, username: Seq<char>)
    requires
        s.wf(),
    ensures
        row_ids(rooms_of(s, username)).no_duplicates(),
{
    let rows = granted_rooms(s, username, s.rooms@.len() as int);
    let order = sort::stable_order(room_keys(rows));
    lemma_granted_rooms_differ(s, username, s.rooms@.len() as int);
    sort::lemma_stable_order(room_keys(rows));
    sort::lemma_pick_differs(row_ids(rows), order);
    assert(row_ids(rooms_of(s, username)) =~= sort::pick(row_ids(rows), order));
}

/// A reader's rooms are those in which they have a grant, most recently active first, and by id
/// where two were active at the same time.
pub proof fn law_rooms_are_newest_first(s: ReducerState, username: Seq<char>)
    ensures
        forall|i: int|
            0 <= i < rooms_of(s, username).len() ==> has_grant(
                s,
                (#[trigger] rooms_of(s, username)[i]).id,
                username,
            ),
        forall|k: int|
            0 <= k < s.rooms@.len() && has_grant(s, (#[trigger] s.rooms@[k]).id@, username)
                ==> lists_room(rooms_of(s, username), s.rooms@[k].id@),
        forall|i: int, j: int|
            0 <= i < j < rooms_of(s, username).len() ==> {
                let a = #[trigger] rooms_of(s, username)[i];
                let b = #[trigger] rooms_of(s, username)[j];
                a.last_ts > b.last_ts || (a.last_ts == b.last_ts && !text::text_lt(b.id, a.id))
            },
{
    let rows = granted_rooms(s, username, s.rooms@.len() as int);
    let keys = room_keys(rows);
    let order = sort::stable_order(keys);
    let out = rooms_of(s, username);
    lemma_granted_rooms(s, username, s.rooms@.len() as int);
    sort::lemma_stable_order(keys);
    assert forall|i: int| 0 <= i < out.len() implies has_grant(
        s,
        (#[trigger] out[i]).id,
        username,
    ) by {
        assert(out[i] == rows[order[i]]);
    }
    assert forall|k: int|
        0 <= k < s.rooms@.len() && has_grant(s, (#[trigger] s.rooms@[k]).id@, username) implies lists_room(
        out,
        s.rooms@[k].id@,
    ) by {
        let i = choose|i: int| 0 <= i < rows.len() && (#[trigger] rows[i]).id == s.rooms@[k].id@;
        sort::lemma_permutation_covers(order, rows.len() as int, i);
        let p = choose|p: int| 0 <= p < order.len() && order[p] == i;
        assert(out[p] == rows[i]);
    }
    assert forall|i: int, j: int| 0 <= i < j < out.len() implies {
        let a = #[trigger] out[i];
        let b = #[trigger] out[j];
        a.last_ts > b.last_ts || (a.last_ts == b.last_ts && !text::text_lt(b.id, a.id))
    } by {
        let ka = keys[order[i]];
        let kb = keys[order[j]];
        assert(out[i] == rows[order[i]] && out[j] == rows[order[j]]);
        assert(ka.major == -out[i].last_ts && kb.major == -out[j].last_ts);
        text::lemma_text_order(out[i].id, out[j].id);
    }
}

/// A room on the home page.
pub struct HomeRoom {
    pub id: String,
    pub href: String,
    pub slug: String,
    pub last_ts: i64,
}

/// The mathematical value of a [`HomeRoom`].
pub struct HomeRoomModel {
    pub id: Seq<char>,
    pub href: Seq<char>,
    pub slug: Seq<char>,
    pub last_ts: int,
}

impl View for HomeRoom {
    type V = HomeRoomModel;

    open spec fn view(&self) -> HomeRoomModel {
        HomeRoomModel {
            id: self.id@,
            href: self.href@,
            slug: self.slug@,
            last_ts: self.last_ts as int,
        }
    }
}

/// Those of some rooms that have a path, with it.
pub open spec fn rooms_with_paths(rows: Seq<RoomRowModel>) -> Seq<HomeRoomModel>
    decreases rows.len(),
{
    if rows.len() == 0 {
        Seq::empty()
    } else {
        let front = rooms_with_paths(rows.drop_last());
        match nav::room_nav(rows.last().id) {
            Some(n) => front.push(
                HomeRoomModel {
                    id: rows.last().id,
                    href: n.room_path,
                    slug: nav::room_slug(rows.last().id),
                    last_ts: rows.last().last_ts,
                },
            ),
            None => front,
        }
    }
}

/// The rooms on the home page of a reader; none for a guest.
pub fn home_rooms(reduced: &ReducerState, user: Option<&str>) -> (r: Vec<HomeRoom>)
    ensures
        state::rows(r@) == match user {
            Some(u) => rooms_with_paths(rooms_of(*reduced, u@)),
            None => Seq::empty(),
        },
{
    let mut out: Vec<HomeRoom> = Vec::new();
    let u: &str = match user {
        Some(u) => u,
        None => {
            assert(state::rows(out@) =~= Seq::empty());
            return out;
        },
    };
    let rooms: Vec<RoomRow> = rooms_for_user(reduced, u);
    let ghost rv = state::rows(rooms@);
    let mut i: usize = 0;
    assert(state::rows(out@) =~= rooms_with_paths(rv.take(0)));
    while i < rooms.len()
        invariant
            i <= rooms.len(),
            rv == state::rows(rooms@),
            state::rows(out@) == rooms_with_paths(rv.take(i as int)),
        decreases rooms.len() - i,
    {
        assert(rv.take(i + 1).drop_last() =~= rv.take(i as int));
        assert(rv.take(i + 1).last() == rooms@[i as int]@);
        match ThreadNav::from_room_id(rooms[i].id.as_str()) {
            Some(n) => {
                let row = HomeRoom {
                    id: rooms[i].id.clone(),
                    href: n.room_url().to_owned(),
                    slug: nav::room_slug_of(rooms[i].id.as_str()),
                    last_ts: rooms[i].last_ts,
                };
                proof {
                    state::lemma_rows_push(out@, row);
                }
                out.push(row);
            },
            None => {},
        }
        i = i + 1;
    }
    assert(rv.take(rv.len() as int) =~= rv);
    out
}

/// A member of a room with the names of what they may do.
pub struct RoomMemberRow {
    pub username: String,
    pub capabilities: Vec<&'static str>,
}

/// The mathematical value of a [`RoomMemberRow`].
pub struct MemberModel {
    pub username: Seq<char>,
    pub capabilities: Seq<Seq<char>>,
}

impl View for RoomMemberRow {
    type V = MemberModel;

    open spec fn view(&self) -> MemberModel {
        MemberModel {
            username: self.username@,
            capabilities: Seq::new(self.capabilities@.len(), |i: int| self.capabilities@[i]@),
        }
    }
}

/// The name of a capability.
pub open spec fn capability_name(cap: ThreadCapability) -> Seq<char> {
    match cap {
        ThreadCapability::View => "view"@,
        ThreadCapability::Post => "post"@,
        ThreadCapability::Vote => "vote"@,
        ThreadCapability::AddItem => "add_item"@,
        ThreadCapability::Manage => "manage"@,
    }
}

/// The name of a capability.
pub fn capability_label(cap: ThreadCapability) -> (r: &'static str)
    ensures
        r@ == capability_name(cap),
{
    match cap {
        ThreadCapability::View => "view",
        ThreadCapability::Post => "post",
        ThreadCapability::Vote => "vote",
        ThreadCapability::AddItem => "add_item",
        ThreadCapability::Manage => "manage",
    }
}

/// The name of a capability, where it is held.
pub open spec fn name_if_held(caps: Seq<ThreadCapability>, cap: ThreadCapability) -> Seq<Seq<char>> {
    if caps.contains(cap) {
        seq![capability_name(cap)]
    } else {
        Seq::empty()
    }
}

/// The names of the capabilities that are held, in a fixed order.
pub open spec fn capability_names(caps: Seq<ThreadCapability>) -> Seq<Seq<char>> {
    name_if_held(caps, ThreadCapability::View) + name_if_held(caps, ThreadCapability::Post)
        + name_if_held(caps, ThreadCapability::Vote) + name_if_held(
        caps,
        ThreadCapability::AddItem,
    ) + name_if_held(caps, ThreadCapability::Manage)
}

/// The members of a room among the first `n` grants.
pub open spec fn granted_members(s: ReducerState, room: Seq<char>, n: int) -> Seq<MemberModel>
    decreases n,
{
    if n <= 0 {
        Seq::empty()
    } else {
        let g = s.grants@[n - 1]@;
        let front = granted_members(s, room, n - 1);
        if g.room == room {
            front.push(
                MemberModel { username: g.username, capabilities: capability_names(g.caps) },
            )
        } else {
            front
        }
    }
}

/// What members are ordered by.
pub open spec fn member_keys(rows: Seq<MemberModel>) -> Seq<Key> {
    Seq::new(rows.len(), |i: int| Key { major: 0, minor: 0, text: rows[i].username })
}

/// The members of a room in the order of their names.
pub open spec fn members_of_room(s: ReducerState, room: Seq<char>) -> Seq<MemberModel> {
    let rows = granted_members(s, room, s.grants@.len() as int);
    sort::pick(rows, sort::stable_order(member_keys(rows)))
}

/// The labels of a list.
pub open spec fn labels(v: Seq<&'static str>) -> Seq<Seq<char>> {
    Seq::new(v.len(), |i: int| v[i]@)
}

fn push_if_held(caps: &Vec<ThreadCapability>, cap: ThreadCapability, out: &mut Vec<&'static str>)
    ensures
        labels(final(out)@) == labels(old(out)@) + name_if_held(caps@, cap),
{
    let ghost before = labels(out@);
    if state::holds_cap(caps, cap) {
        out.push(capability_label(cap));
        assert(labels(out@) =~= before + seq![capability_name(cap)]);
    } else {
        assert(labels(out@) =~= before + Seq::empty());
    }
}

/// The names of the capabilities that are held, in a fixed order.
pub fn capability_labels(caps: &Vec<ThreadCapability>) -> (r: Vec<&'static str>)
    ensures
        labels(r@) == capability_names(caps@),
{
    let mut out: Vec<&'static str> = Vec::new();
    assert(labels(out@) =~= Seq::empty());
    push_if_held(caps, ThreadCapability::View, &mut out);
    push_if_held(caps, ThreadCapability::Post, &mut out);
    push_if_held(caps, ThreadCapability::Vote, &mut out);
    push_if_held(caps, ThreadCapability::AddItem, &mut out);
    push_if_held(caps, ThreadCapability::Manage, &mut out);
    assert(labels(out@) =~= capability_names(caps@));
    out
}

fn copy_labels(v: &Vec<&'static str>) -> (r: Vec<&'static str>)
    ensures
        labels(r@) == labels(v@),
{
    let mut r: Vec<&'static str> = Vec::new();
    let mut i: usize = 0;
    while i < v.len()
        invariant
            i <= v.len(),
            r.len() == i,
            forall|j: int| 0 <= j < i ==> (#[trigger] r@[j])@ == v@[j]@,
        decreases v.len() - i,
    {
        r.push(v[i]);
        i = i + 1;
    }
    assert(labels(r@) =~= labels(v@));
    r
}

/// The members of a room in the order of their names.
pub fn room_members_for_room(reduced: &ReducerState, room_id: &str) -> (r: Vec<RoomMemberRow>)
    ensures
        state::rows(r@) == members_of_room(*reduced, room_id@),
{
    let mut all: Vec<RoomMemberRow> = Vec::new();
    let mut keys: Vec<SortKey> = Vec::new();
    let mut i: usize = 0;
    assert(state::rows(all@) =~= granted_members(*reduced, room_id@, 0));
    while i < reduced.grants.len()
        invariant
            i <= reduced.grants.len(),
            all.len() == keys.len(),
            state::rows(all@) == granted_members(*reduced, room_id@, i as int),
            forall|j: int|
                0 <= j < keys.len() ==> (#[trigger] keys@[j])@ == (Key {
                    major: 0,
                    minor: 0,
                    text: all@[j].username@,
                }),
        decreases reduced.grants.len() - i,
    {
        let g = &reduced.grants[i];
        if text::same(g.room.as_str(), room_id) {
            let row = RoomMemberRow {
                username: g.username.clone(),
                capabilities: capability_labels(&g.caps),
            };
            assert(row@.capabilities =~= capability_names(g.caps@));
            proof {
                state::lemma_rows_push(all@, row);
            }
            all.push(row);
            keys.push(SortKey { major: 0, minor: 0, text: g.username.clone() });
        }
        i = i + 1;
    }
    let ghost rows = state::rows(all@);
    assert(sort::key_views(keys@) =~= member_keys(rows));
    let order: Vec<usize> = sort::order_by(&keys);
    let mut r: Vec<RoomMemberRow> = Vec::new();
    let mut k: usize = 0;
    while k < order.len()
        invariant
            k <= order.len(),
            r.len() == k,
            forall|j: int| 0 <= j < order@.len() ==> (#[trigger] order@[j]) < all@.len(),
            forall|j: int| 0 <= j < k ==> (#[trigger] r@[j])@ == all@[order@[j] as int]@,
        decreases order.len() - k,
    {
        let t: &RoomMemberRow = &all[order[k]];
        let row = RoomMemberRow {
            username: t.username.clone(),
            capabilities: copy_labels(&t.capabilities),
        };
        assert(row@.capabilities =~= labels(row.capabilities@));
        assert(t@.capabilities =~= labels(t.capabilities@));
        r.push(row);
        k = k + 1;
    }
    proof {
        let o = sort::ints(order@);
        assert forall|j: int| 0 <= j < r@.len() implies #[trigger] state::rows(r@)[j]
            == sort::pick(rows, o)[j] by {
            assert(r@[j]@ == all@[order@[j] as int]@);
            assert(o[j] == order@[j] as int);
        }
        assert(state::rows(r@) =~= sort::pick(rows, o));
    }
    r
}

/// What the members section of a room page shows: nothing for a room without members; whether
/// the list is open; and whether the reader may delete the room.
pub struct RoomMembersSection {
    pub members: Vec<RoomMemberRow>,
    pub expanded: bool,
    pub can_delete: bool,
}

/// The members section of a room page.
pub fn room_members_section(
    reduced: &ReducerState,
    room_id: &str,
    members_expanded: bool,
    viewer: Option<&str>,
) -> (r: Option<RoomMembersSection>)
    ensures
        match r {
            Some(m) => {
                &&& members_of_room(*reduced, room_id@).len() > 0
                &&& state::rows(m.members@) == members_of_room(*reduced, room_id@)
                &&& m.expanded == members_expanded
                &&& m.can_delete == match viewer {
                    Some(u) => state::has_cap(*reduced, room_id@, u@, ThreadCapability::Manage),
                    None => false,
                }
            },
            None => members_of_room(*reduced, room_id@).len() == 0,
        },
{
    let members: Vec<RoomMemberRow> = room_members_for_room(reduced, room_id);
    assert(state::rows(members@).len() == members@.len());
    if members.len() == 0 {
        return None;
    }
    let can_delete: bool = match viewer {
        Some(u) => user_can_manage_room(reduced, room_id, u),
        None => false,
    };
    Some(RoomMembersSection { members, expanded: members_expanded, can_delete })
}

/// Why a room page is not shown.
#[derive(Debug, PartialEq, Eq, Structural)]
pub enum RoomPageError {
    /// There is no such room.
    RoomNotFound,
    /// The reader may not know of the room.
    NotFoundPage,
    /// The room has no path.
    BadRoomPath,
}

/// The pages of rooms.
pub struct RoomPage {
    pub nav: ThreadNav,
    pub rows: Vec<ThreadRow>,
    pub show_new_thread: bool,
    pub title: String,
    pub forum_cli: String,
    pub garden_cli: String,
    pub audit_cli: String,
}

/// What the page of a room shows.
pub fn room_page(reduced: &ReducerState, room_id: &str, user: Option<&str>) -> (r: Result<
    RoomPage,
    RoomPageError,
>)
    ensures
        match r {
            Ok(p) => {
                &&& can_view_room(*reduced, room_id@, text::opt_str(user))
                &&& nav::room_nav(room_id@) == Some(p.nav@)
                &&& state::rows(p.rows@) == feed_of(*reduced, Some(room_id@))
                &&& p.show_new_thread == can_post(*reduced, Some(room_id@), text::opt_str(user))
                &&& p.title@ == "room "@ + nav::room_slug(room_id@) + " — slug.social"@
                &&& p.forum_cli@ == "npx slugsocial private "@ + room_id@ + " forum list"@
                &&& p.garden_cli@ == "npx slugsocial private "@ + room_id@ + " garden tree"@
                &&& p.audit_cli@ == "npx slugsocial private "@ + room_id@ + " audit"@
            },
            Err(RoomPageError::RoomNotFound) => !state::room_ids(*reduced).contains(room_id@)
                || (can_view_room(*reduced, room_id@, text::opt_str(user)) && nav::room_nav(
                room_id@,
            ) is None),
            Err(RoomPageError::NotFoundPage) => state::room_ids(*reduced).contains(room_id@)
                && !can_view_room(*reduced, room_id@, text::opt_str(user)),
            Err(RoomPageError::BadRoomPath) => false,
        },
{
    if !reduced.has_room(room_id) {
        return Err(RoomPageError::RoomNotFound);
    }
    if !user_can_view_room(reduced, room_id, user) {
        return Err(RoomPageError::NotFoundPage);
    }
    let nav: ThreadNav = match ThreadNav::from_room_id(room_id) {
        Some(n) => n,
        None => {
            return Err(RoomPageError::RoomNotFound);
        },
    };
    let scope = ScopeId::Room(room_id.to_owned());
    assert(scope@ == Some(room_id@));
    let slug: String = nav::room_slug_of(room_id);
    Ok(
        RoomPage {
            nav,
            rows: thread_feed(reduced, &scope),
            show_new_thread: user_can_post(reduced, &scope, user),
            title: text::cat3("room ", slug.as_str(), " — slug.social"),
            forum_cli: text::cat3("npx slugsocial private ", room_id, " forum list"),
            garden_cli: text::cat3("npx slugsocial private ", room_id, " garden tree"),
            audit_cli: text::cat3("npx slugsocial private ", room_id, " audit"),
        },
    )
}

/// Whether the pages below a room are shown to a reader: the path names a room that the reader
/// may view.
pub fn room_gate(reduced: &ReducerState, room_key: &str, user: Option<&str>) -> (r: Result<
    ThreadNav,
    RoomPageError,
>)
    ensures
        match nav::segment_room(room_key@) {
            None => r == Err::<ThreadNav, RoomPageError>(RoomPageError::BadRoomPath),
            Some(room) => if !can_view_room(*reduced, room, text::opt_str(user)) {
                r == Err::<ThreadNav, RoomPageError>(RoomPageError::NotFoundPage)
            } else {
                match nav::room_nav(room) {
                    None => r == Err::<ThreadNav, RoomPageError>(RoomPageError::BadRoomPath),
                    Some(n) => match r {
                        Ok(m) => m@ == n,
                        Err(_) => false,
                    },
                }
            },
        },
{
    match nav::room_id_from_route_segment(room_key) {
        None => Err(RoomPageError::BadRoomPath),
        Some(room) => {
            if !user_can_view_room(reduced, room.as_str(), user) {
                return Err(RoomPageError::NotFoundPage);
            }
            match ThreadNav::from_room_id(room.as_str()) {
                None => Err(RoomPageError::BadRoomPath),
                Some(n) => Ok(n),
            }
        },
    }
}

// ---------------------------------------------------------------------------
// Posts
// ---------------------------------------------------------------------------

/// The URLs for the scope of a post.
pub fn thread_nav_for_ingest(ing: &Ingest) -> (r: Option<ThreadNav>)
    ensures
        match r {
            Some(n) => wire_nav(ing.room_id@) == Some(n@),
            None => wire_nav(ing.room_id@) is None,
        },
{
    nav_for_wire(ing.room_id.as_str())
}

/// The URLs for a room on the wire.
pub open spec fn wire_nav(wire: Seq<char>) -> Option<NavModel> {
    match nav::wire_scope(wire) {
        None => Some(nav::public_nav()),
        Some(room) => nav::room_nav(room),
    }
}

/// The URLs for a room on the wire.
pub fn nav_for_wire(wire: &str) -> (r: Option<ThreadNav>)
    ensures
        match r {
            Some(n) => wire_nav(wire@) == Some(n@),
            None => wire_nav(wire@) is None,
        },
{
    match nav::scope_from_room_wire(wire) {
        ScopeId::Public => Some(ThreadNav::public()),
        ScopeId::Room(room) => ThreadNav::from_room_id(room.as_str()),
    }
}

/// The place of a post among the posts of a thread, oldest first.
pub open spec fn post_index(
    s: ReducerState,
    scope: Option<Seq<char>>,
    tag: Seq<char>,
    id: Seq<char>,
) -> Option<int> {
    text::position(state::chronological(s, scope, nav::canonical_tag(tag)), id)
}

/// The place of a post in its thread, oldest first.
pub fn try_thread_post_index_chronological(
    reduced: &ReducerState,
    scope: &ScopeId,
    tag: &str,
    id: &str,
) -> (r: Option<usize>)
    ensures
        match r {
            Some(i) => post_index(*reduced, scope@, tag@, id@) == Some(i as int) && i < state::chronological(
                *reduced,
                scope@,
                nav::canonical_tag(tag@),
            ).len() && i < usize::MAX,
            None => post_index(*reduced, scope@, tag@, id@) is None,
        },
{
    let canon: String = nav::canonicalize_tag(tag);
    let ids: Vec<String> = reduced.posts_chronological(scope, canon.as_str());
    assert(text::views(ids@).len() == ids@.len());
    text::position_of(&ids, id)
}

/// The place of a post in the thread that it names.
pub fn thread_post_index_in_scope(reduced: &ReducerState, ing: &Ingest) -> (r: Option<usize>)
    ensures
        match r {
            Some(i) => post_index(
                *reduced,
                nav::wire_scope(ing.room_id@),
                ing.thread_tag@,
                ing.id@,
            ) == Some(i as int),
            None => post_index(
                *reduced,
                nav::wire_scope(ing.room_id@),
                ing.thread_tag@,
                ing.id@,
            ) is None,
        },
{
    let scope: ScopeId = nav::scope_from_room_wire(ing.room_id.as_str());
    try_thread_post_index_chronological(
        reduced,
        &scope,
        ing.thread_tag.as_str(),
        ing.id.as_str(),
    )
}

/// How a post is shown in a list.
pub struct PostCard {
    /// Where the post stands in the state.
    pub ingest: usize,
    pub post_idx: usize,
    pub href: String,
    pub profile: String,
    pub redacted: bool,
    pub show_delete: bool,
    /// Whether only the beginning of the body is shown.
    pub truncated: bool,
    pub char_len: usize,
    /// What of the body is shown; nothing of a deleted post.
    pub display_body: String,
}

/// Whether a card shows a post at a place to a reader.
pub open spec fn is_card(
    c: PostCard,
    s: ReducerState,
    nav: NavModel,
    tag: Seq<char>,
    idx: int,
    post: IngestModel,
    viewer: Option<Seq<char>>,
    preview: nat,
) -> bool {
    let redacted = text::views(s.redacted_posts@).contains(post.id);
    &&& c.post_idx == idx
    &&& c.href@ == nav::post_href(nav, tag, idx as nat)
    &&& c.profile@ == "/u/"@ + post.principal
    &&& c.redacted == redacted
    &&& c.show_delete == (!redacted && viewer == Some(post.principal))
    &&& c.truncated == (!redacted && post.raw.len() > preview)
    &&& c.char_len == post.raw.len()
    &&& c.display_body@ == if redacted {
        Seq::<char>::empty()
    } else {
        text::head(post.raw, preview)
    }
}

/// How a post is shown: a deleted post without its body, a long one up to `preview` characters.
pub fn post_card(
    reduced: &ReducerState,
    nav: &ThreadNav,
    tag: &str,
    post_idx: usize,
    ingest: usize,
    viewer: Option<&str>,
    preview: usize,
) -> (r: PostCard)
    requires
        ingest < reduced.ingests@.len(),
    ensures
        r.ingest == ingest,
        is_card(
            r,
            *reduced,
            nav@,
            tag@,
            post_idx as int,
            reduced.ingests@[ingest as int]@,
            text::opt_str(viewer),
            preview as nat,
        ),
{
    let post: &Ingest = &reduced.ingests[ingest];
    let redacted: bool = reduced.is_redacted(post.id.as_str());
    let mine: bool = match viewer {
        Some(v) => text::same(v, post.principal.as_str()),
        None => false,
    };
    let raw: Vec<char> = text::chars(post.raw.as_str());
    let display_body: String = if redacted {
        String::new()
    } else {
        text::string(&text::first_chars(&raw, preview))
    };
    PostCard {
        ingest,
        post_idx,
        href: nav.post_url(tag, post_idx),
        profile: markup::profile_href(post.principal.as_str()),
        redacted,
        show_delete: mine && !redacted,
        truncated: !redacted && raw.len() > preview,
        char_len: raw.len(),
        display_body,
    }
}

/// The ids on the page of a thread that starts at `offset`.
pub open spec fn page_ids(all: Seq<Seq<char>>, offset: int) -> Seq<Seq<char>> {
    if offset >= all.len() {
        Seq::empty()
    } else if offset + THREAD_PAGE_SIZE <= all.len() {
        all.subrange(offset, offset + THREAD_PAGE_SIZE)
    } else {
        all.subrange(offset, all.len() as int)
    }
}

/// The places of those posts of a page that the state holds.
pub open spec fn found_posts(s: ReducerState, ids: Seq<Seq<char>>) -> Seq<int>
    decreases ids.len(),
{
    if ids.len() == 0 {
        Seq::empty()
    } else {
        match state::ingest_index(s, ids.last()) {
            Some(i) => found_posts(s, ids.drop_last()).push(i),
            None => found_posts(s, ids.drop_last()),
        }
    }
}

/// Whether a card shows the post at a place of the state.
pub open spec fn is_card_of(
    c: PostCard,
    s: ReducerState,
    nav: NavModel,
    tag: Seq<char>,
    idx: int,
    place: int,
    viewer: Option<Seq<char>>,
    preview: nat,
) -> bool {
    &&& c.ingest == place
    &&& 0 <= place < s.ingests@.len()
    &&& is_card(c, s, nav, tag, idx, s.ingests@[place]@, viewer, preview)
}

/// Whether cards show the posts at the given places, numbered from `offset`.
pub open spec fn are_cards(
    cards: Seq<PostCard>,
    s: ReducerState,
    nav: NavModel,
    tag: Seq<char>,
    offset: int,
    found: Seq<int>,
    viewer: Option<Seq<char>>,
    preview: nat,
) -> bool {
    &&& cards.len() == found.len()
    &&& forall|i: int|
        0 <= i < cards.len() ==> is_card_of(
            #[trigger] cards[i],
            s,
            nav,
            tag,
            offset + i,
            found[i],
            viewer,
            preview,
        )
}

fn page_cards(
    reduced: &ReducerState,
    nav: &ThreadNav,
    tag: &str,
    all: &Vec<String>,
    offset: usize,
    viewer: Option<&str>,
    preview: usize,
) -> (r: Vec<PostCard>)
    requires
        offset + THREAD_PAGE_SIZE <= usize::MAX,
    ensures
        are_cards(
            r@,
            *reduced,
            nav@,
            tag@,
            offset as int,
            found_posts(*reduced, page_ids(text::views(all@), offset as int)),
            text::opt_str(viewer),
            preview as nat,
        ),
{
    let ghost av = text::views(all@);
    let ghost ids = page_ids(av, offset as int);
    let ghost vv = text::opt_str(viewer);
    let mut cards: Vec<PostCard> = Vec::new();
    let end: usize = if offset + THREAD_PAGE_SIZE <= all.len() {
        offset + THREAD_PAGE_SIZE
    } else {
        all.len()
    };
    let mut i: usize = offset;
    while i < end
        invariant
            offset <= i,
            i <= end || offset >= all.len(),
            end <= all.len(),
            offset < all.len() ==> end - offset == ids.len(),
            offset + THREAD_PAGE_SIZE <= usize::MAX,
            cards.len() <= i - offset,
            i - offset <= THREAD_PAGE_SIZE,
            end <= offset + THREAD_PAGE_SIZE,
            av == text::views(all@),
            ids == page_ids(av, offset as int),
            vv == text::opt_str(viewer),
            offset < all.len() ==> are_cards(
                cards@,
                *reduced,
                nav@,
                tag@,
                offset as int,
                found_posts(*reduced, ids.take(i - offset)),
                vv,
                preview as nat,
            ),
            offset >= all.len() ==> cards.len() == 0,
        decreases end - i,
    {
        let ghost step = ids.take(i - offset + 1);
        assert(step.drop_last() =~= ids.take(i - offset));
        assert(step.last() == all@[i as int]@);
        match reduced.find_ingest(all[i].as_str()) {
            Some(p) => {
                let ghost before = cards@;
                let card: PostCard = post_card(
                    reduced,
                    nav,
                    tag,
                    offset + cards.len(),
                    p,
                    viewer,
                    preview,
                );
                cards.push(card);
                assert(found_posts(*reduced, step) == found_posts(
                    *reduced,
                    ids.take(i - offset),
                ).push(p as int));
                assert(cards@.len() == found_posts(*reduced, step).len());
                assert forall|k: int| 0 <= k < cards@.len() implies is_card_of(
                    #[trigger] cards@[k],
                    *reduced,
                    nav@,
                    tag@,
                    offset + k,
                    found_posts(*reduced, step)[k],
                    vv,
                    preview as nat,
                ) by {
                    if k < before.len() {
                        assert(cards@[k] == before[k]);
                    }
                }
            },
            None => {},
        }
        i = i + 1;
    }
    assert(offset < all.len() ==> ids.take(ids.len() as int) =~= ids);
    cards
}

// ---------------------------------------------------------------------------
// Thread pages
// ---------------------------------------------------------------------------

/// What the page of a thread shows.
pub struct ThreadPage {
    pub tag: String,
    pub offset: usize,
    pub total: usize,
    pub cards: Vec<PostCard>,
    pub show_compose: bool,
    pub top: nav::ThreadPaginator,
    pub bottom: nav::ThreadPaginator,
    pub cli: String,
}

/// The command line that shows a thread.
pub open spec fn thread_cli(scope: Option<Seq<char>>, tag: Seq<char>) -> Seq<char> {
    match scope {
        None => "npx slugsocial public forum show "@ + tag,
        Some(room) => "npx slugsocial private "@ + room + " forum show "@ + tag,
    }
}

/// Whether a page shows a thread from `offset` on.
pub open spec fn is_thread_page(
    p: ThreadPage,
    s: ReducerState,
    nav: NavModel,
    tag: Seq<char>,
    offset: int,
    user: Option<Seq<char>>,
    preview: nat,
) -> bool {
    let all = state::chronological(s, nav.scope, tag);
    &&& p.tag@ == tag
    &&& p.offset == offset
    &&& p.total == all.len()
    &&& are_cards(
        p.cards@,
        s,
        nav,
        tag,
        offset,
        found_posts(s, page_ids(all, offset)),
        user,
        preview,
    )
    &&& p.show_compose == can_post(s, nav.scope, user)
    &&& p.cli@ == thread_cli(nav.scope, tag)
    &&& nav::is_paginator(p.top, nav, tag, offset as nat, all.len(), true)
    &&& nav::is_paginator(p.bottom, nav, tag, offset as nat, all.len(), false)
}

/// What the page of a thread shows: ten posts from the offset of the query on, oldest first.
pub fn thread_page(
    reduced: &ReducerState,
    nav: &ThreadNav,
    tag: &str,
    q: &ThreadViewQuery,
    user: Option<&str>,
    preview: usize,
) -> (r: ThreadPage)
    requires
        match q.offset {
            Some(o) => o + THREAD_PAGE_SIZE <= usize::MAX,
            None => true,
        },
    ensures
        is_thread_page(
            r,
            *reduced,
            nav@,
            nav::canonical_tag(tag@),
            match q.offset {
                Some(o) => o as int,
                None => 0,
            },
            text::opt_str(user),
            preview as nat,
        ),
{
    let offset: usize = match q.offset {
        Some(o) => o,
        None => 0,
    };
    thread_page_at(reduced, nav, tag, offset, user, preview)
}

/// What the page of a thread shows from an offset on.
pub fn thread_page_at(
    reduced: &ReducerState,
    nav: &ThreadNav,
    tag: &str,
    offset: usize,
    user: Option<&str>,
    preview: usize,
) -> (r: ThreadPage)
    requires
        offset + THREAD_PAGE_SIZE <= usize::MAX,
    ensures
        is_thread_page(
            r,
            *reduced,
            nav@,
            nav::canonical_tag(tag@),
            offset as int,
            text::opt_str(user),
            preview as nat,
        ),
{
    let canon: String = nav::canonicalize_tag(tag);
    let scope: ScopeId = nav.scope();
    let all: Vec<String> = reduced.posts_chronological(&scope, canon.as_str());
    assert(text::views(all@).len() == all@.len());
    let cards: Vec<PostCard> = page_cards(
        reduced,
        nav,
        canon.as_str(),
        &all,
        offset,
        user,
        preview,
    );
    let total: usize = all.len();
    let top: nav::ThreadPaginator = nav::thread_paginator(nav, canon.as_str(), offset, total, true);
    let bottom: nav::ThreadPaginator = nav::thread_paginator(
        nav,
        canon.as_str(),
        offset,
        total,
        false,
    );
    let cli: String = match &scope {
        ScopeId::Public => text::cat("npx slugsocial public forum show ", canon.as_str()),
        ScopeId::Room(room) => text::cat4(
            "npx slugsocial private ",
            room.as_str(),
            " forum show ",
            canon.as_str(),
        ),
    };
    ThreadPage {
        tag: canon,
        offset,
        total,
        cards,
        show_compose: user_can_post(reduced, &scope, user),
        top,
        bottom,
        cli,
    }
}

/// The part of a thread that a live update shows: the newest ten posts. None where the room on
/// the wire has no path.
pub fn thread_feed_region(
    reduced: &ReducerState,
    room_id: Option<&str>,
    tag: &str,
    viewer: Option<&str>,
    preview: usize,
) -> (r: Option<ThreadPage>)
    ensures
        ({
            let nav = match room_id {
                None => Some(nav::public_nav()),
                Some(room) => if room@ == "public"@ {
                    Some(nav::public_nav())
                } else {
                    nav::room_nav(room@)
                },
            };
            match r {
                Some(p) => match nav {
                    Some(n) => is_thread_page(
                        p,
                        *reduced,
                        n,
                        nav::canonical_tag(tag@),
                        nav::latest_offset(p.total as nat) as int,
                        text::opt_str(viewer),
                        preview as nat,
                    ),
                    None => false,
                },
                None => nav is None,
            }
        }),
{
    let nav: ThreadNav = match room_id {
        None => ThreadNav::public(),
        Some(room) => if text::same(room, "public") {
            ThreadNav::public()
        } else {
            match ThreadNav::from_room_id(room) {
                Some(n) => n,
                None => {
                    return None;
                },
            }
        },
    };
    let canon: String = nav::canonicalize_tag(tag);
    let scope: ScopeId = nav.scope();
    let all: Vec<String> = reduced.posts_chronological(&scope, canon.as_str());
    assert(text::views(all@).len() == all@.len());
    let offset: usize = all.len().saturating_sub(THREAD_PAGE_SIZE);
    Some(thread_page_at(reduced, &nav, tag, offset, viewer, preview))
}

/// The page of a post holds its id, and no more ids than a page has.
pub proof fn law_page_shows_its_posts(all: Seq<Seq<char>>, n: int)
    requires
        0 <= n < all.len(),
    ensures
        page_ids(all, nav::page_offset(n as nat) as int).contains(all[n]),
        page_ids(all, nav::page_offset(n as nat) as int).len() <= THREAD_PAGE_SIZE,
{
    let o = nav::page_offset(n as nat) as int;
    nav::law_page_holds_its_post(n as nat);
    assert(page_ids(all, o)[n - o] == all[n]);
}

// ---------------------------------------------------------------------------
// Single posts
// ---------------------------------------------------------------------------

/// The post at a place of a thread: where it stands in the state.
pub open spec fn post_at(s: ReducerState, scope: Option<Seq<char>>, tag: Seq<char>, idx: int) -> Option<
    int,
> {
    let all = state::chronological(s, scope, tag);
    if 0 <= idx < all.len() {
        state::ingest_index(s, all[idx])
    } else {
        None
    }
}

/// Finds the post at a place of a thread.
pub fn find_post_at(reduced: &ReducerState, scope: &ScopeId, tag: &str, idx: usize) -> (r: Option<
    usize,
>)
    ensures
        match r {
            Some(i) => post_at(*reduced, scope@, tag@, idx as int) == Some(i as int) && i
                < reduced.ingests@.len(),
            None => post_at(*reduced, scope@, tag@, idx as int) is None,
        },
{
    let all: Vec<String> = reduced.posts_chronological(scope, tag);
    assert(text::views(all@).len() == all@.len());
    if idx < all.len() {
        assert(text::views(all@)[idx as int] == all@[idx as int]@);
        reduced.find_ingest(all[idx].as_str())
    } else {
        None
    }
}

/// What the page of one post shows.
pub struct PostPage {
    pub tag: String,
    pub index: usize,
    pub title: String,
    pub card: Option<PostCard>,
    pub permalinks: Option<nav::PostPermalinkNav>,
}

/// The number that a path names a post by; zero where it is no number.
pub open spec fn path_index(s: Seq<char>) -> int {
    match text::parse_unsigned(s, usize::MAX as nat) {
        Some(n) => n as int,
        None => 0,
    }
}

/// The number that a path names a post by.
pub fn index_from_path(s: &str) -> (r: usize)
    ensures
        r == path_index(s@),
{
    match text::parsed_unsigned(&text::chars(s), usize::MAX as u64) {
        Some(n) => n as usize,
        None => 0,
    }
}

/// Where a post that was found by its place is linked from: its first place in the thread.
pub open spec fn shown_index(
    s: ReducerState,
    scope: Option<Seq<char>>,
    tag: Seq<char>,
    index: int,
) -> int {
    match post_at(s, scope, tag, index) {
        Some(i) => match post_index(s, scope, tag, s.ingests@[i].id@) {
            Some(k) => k,
            None => index,
        },
        None => index,
    }
}

/// What the page of one post shows. Links to the neighbours stand there where the thread has
/// more than one post.
pub fn post_page(
    reduced: &ReducerState,
    nav: &ThreadNav,
    tag: &str,
    index_str: &str,
    viewer: Option<&str>,
    preview: usize,
) -> (r: PostPage)
    ensures
        ({
            let canon = nav::canonical_tag(tag@);
            let index = path_index(index_str@);
            let total = state::chronological(*reduced, nav@.scope, canon).len();
            let shown = shown_index(*reduced, nav@.scope, canon, index);
            &&& r.tag@ == canon
            &&& r.index == index
            &&& r.title@ == "#"@ + canon + " / post #"@ + text::decimal(index as nat)
            &&& match r.card {
                Some(c) => match post_at(*reduced, nav@.scope, canon, index) {
                    Some(i) => c.ingest == i && is_card(
                        c,
                        *reduced,
                        nav@,
                        canon,
                        shown,
                        reduced.ingests@[i]@,
                        text::opt_str(viewer),
                        preview as nat,
                    ),
                    None => false,
                },
                None => post_at(*reduced, nav@.scope, canon, index) is None,
            }
            &&& match r.permalinks {
                Some(p) => total > 1 && r.card is Some && p.number == shown + 1 && p.total == total
                    && text::opt_view(p.prev_href) == if shown == 0 {
                    None::<Seq<char>>
                } else {
                    Some(nav::post_href(nav@, canon, (shown - 1) as nat))
                } && text::opt_view(p.next_href) == if shown + 1 < total {
                    Some(nav::post_href(nav@, canon, (shown + 1) as nat))
                } else {
                    None::<Seq<char>>
                },
                None => total <= 1 || r.card is None,
            }
        }),
{
    let canon: String = nav::canonicalize_tag(tag);
    let index: usize = index_from_path(index_str);
    let scope: ScopeId = nav.scope();
    let all: Vec<String> = reduced.posts_chronological(&scope, canon.as_str());
    let total: usize = all.len();
    assert(text::views(all@).len() == total);
    let n: String = text::size(index);
    let title: String = text::cat4("#", canon.as_str(), " / post #", n.as_str());
    match find_post_at(reduced, &scope, canon.as_str(), index) {
        None => PostPage { tag: canon, index, title, card: None, permalinks: None },
        Some(i) => {
            let shown: usize = match try_thread_post_index_chronological(
                reduced,
                &scope,
                canon.as_str(),
                reduced.ingests[i].id.as_str(),
            ) {
                Some(k) => k,
                None => index,
            };
            let card: PostCard = post_card(
                reduced,
                nav,
                canon.as_str(),
                shown,
                i,
                viewer,
                preview,
            );
            let permalinks: Option<nav::PostPermalinkNav> = if total > 1 {
                Some(nav::post_permalink_nav(nav, canon.as_str(), shown, total))
            } else {
                None
            };
            PostPage { tag: canon, index, title, card: Some(card), permalinks }
        },
    }
}

/// Why a post card is not updated.
#[derive(Debug, PartialEq, Eq, Structural)]
pub enum PostMorphError {
    BadRoom,
    Forbidden,
    PostNotFound,
}

/// The message that a refused update is answered with.
pub fn morph_error_text(e: &PostMorphError) -> (r: &'static str)
    ensures
        r@ == match *e {
            PostMorphError::BadRoom => "bad room"@,
            PostMorphError::Forbidden => "forbidden"@,
            PostMorphError::PostNotFound => "post not found"@,
        },
{
    match e {
        PostMorphError::BadRoom => "bad room",
        PostMorphError::Forbidden => "forbidden",
        PostMorphError::PostNotFound => "post not found",
    }
}

/// Which post a request to update a card is about: the room must have a path, the reader must
/// be able to view it, and the post must be there, deleted or not as asked.
pub open spec fn morph_target(
    s: ReducerState,
    room: Seq<char>,
    tag: Seq<char>,
    idx: int,
    viewer: Option<Seq<char>>,
    want_redacted: bool,
) -> Result<int, PostMorphError> {
    let scope = nav::wire_scope(room);
    if wire_nav(room) is None {
        Err(PostMorphError::BadRoom)
    } else if scope is Some && !can_view_room(s, scope.unwrap(), viewer) {
        Err(PostMorphError::Forbidden)
    } else {
        match post_at(s, scope, nav::canonical_tag(tag), idx) {
            Some(i) => if text::views(s.redacted_posts@).contains(s.ingests@[i].id@)
                == want_redacted {
                Ok(i)
            } else {
                Err(PostMorphError::PostNotFound)
            },
            None => Err(PostMorphError::PostNotFound),
        }
    }
}

/// A post whose card is updated, with the URLs of its scope.
pub struct MorphTarget {
    pub nav: ThreadNav,
    pub tag: String,
    pub ingest: usize,
    /// Whether the reader wrote the post.
    pub mine: bool,
    /// The selector of the card.
    pub selector: String,
}

/// Whether a target is the post that a request names.
pub open spec fn is_morph_target(
    r: Result<MorphTarget, PostMorphError>,
    s: ReducerState,
    room: Seq<char>,
    tag: Seq<char>,
    idx: int,
    viewer: Option<Seq<char>>,
    want_redacted: bool,
) -> bool {
    match r {
        Ok(t) => {
            &&& morph_target(s, room, tag, idx, viewer, want_redacted) == Ok::<int, PostMorphError>(
                t.ingest as int,
            )
            &&& t.ingest < s.ingests@.len()
            &&& wire_nav(room) == Some(t.nav@)
            &&& t.tag@ == nav::canonical_tag(tag)
            &&& t.mine == (viewer == Some(s.ingests@[t.ingest as int].principal@))
            &&& t.selector@ == "[data-ingest-id=\""@ + s.ingests@[t.ingest as int].id@ + "\"]"@
        },
        Err(e) => morph_target(s, room, tag, idx, viewer, want_redacted) == Err::<
            int,
            PostMorphError,
        >(e),
    }
}

fn find_morph_target(
    reduced: &ReducerState,
    room: &str,
    thread_tag: &str,
    post_index: usize,
    viewer: Option<&str>,
    want_redacted: bool,
) -> (r: Result<MorphTarget, PostMorphError>)
    ensures
        is_morph_target(
            r,
            *reduced,
            room@,
            thread_tag@,
            post_index as int,
            text::opt_str(viewer),
            want_redacted,
        ),
{
    let nav: ThreadNav = match nav_for_wire(room) {
        Some(n) => n,
        None => {
            return Err(PostMorphError::BadRoom);
        },
    };
    let scope: ScopeId = nav::scope_from_room_wire(room);
    match &scope {
        ScopeId::Public => {},
        ScopeId::Room(rid) => {
            if !user_can_view_room(reduced, rid.as_str(), viewer) {
                return Err(PostMorphError::Forbidden);
            }
        },
    }
    let tag: String = nav::canonicalize_tag(thread_tag);
    match find_post_at(reduced, &scope, tag.as_str(), post_index) {
        Some(i) => {
            if reduced.is_redacted(reduced.ingests[i].id.as_str()) != want_redacted {
                return Err(PostMorphError::PostNotFound);
            }
            let mine: bool = match viewer {
                Some(v) => text::same(v, reduced.ingests[i].principal.as_str()),
                None => false,
            };
            let selector: String = text::cat3(
                "[data-ingest-id=\"",
                reduced.ingests[i].id.as_str(),
                "\"]",
            );
            Ok(MorphTarget { nav, tag, ingest: i, mine, selector })
        },
        None => Err(PostMorphError::PostNotFound),
    }
}

/// The post whose full body a reader asks for.
pub fn thread_ui_expand_post_full(
    reduced: &ReducerState,
    room: &str,
    thread_tag: &str,
    post_index: usize,
    viewer: Option<&str>,
) -> (r: Result<MorphTarget, PostMorphError>)
    ensures
        is_morph_target(
            r,
            *reduced,
            room@,
            thread_tag@,
            post_index as int,
            text::opt_str(viewer),
            false,
        ),
{
    find_morph_target(reduced, room, thread_tag, post_index, viewer, false)
}

/// The deleted post whose body a reader asks for.
pub fn thread_ui_expand_redacted_post(
    reduced: &ReducerState,
    room: &str,
    thread_tag: &str,
    post_index: usize,
    viewer: Option<&str>,
) -> (r: Result<MorphTarget, PostMorphError>)
    ensures
        is_morph_target(
            r,
            *reduced,
            room@,
            thread_tag@,
            post_index as int,
            text::opt_str(viewer),
            true,
        ),
{
    find_morph_target(reduced, room, thread_tag, post_index, viewer, true)
}

/// The deleted post whose body a reader hides again.
pub fn thread_ui_collapse_redacted_post(
    reduced: &ReducerState,
    room: &str,
    thread_tag: &str,
    post_index: usize,
    viewer: Option<&str>,
) -> (r: Result<MorphTarget, PostMorphError>)
    ensures
        is_morph_target(
            r,
            *reduced,
            room@,
            thread_tag@,
            post_index as int,
            text::opt_str(viewer),
            true,
        ),
{
    find_morph_target(reduced, room, thread_tag, post_index, viewer, true)
}

/// A post of a room is handed out only to readers who may view the room.
pub proof fn law_room_posts_are_gated(
    s: ReducerState,
    room: Seq<char>,
    tag: Seq<char>,
    idx: int,
    viewer: Option<Seq<char>>,
    want_redacted: bool,
)
    requires
        morph_target(s, room, tag, idx, viewer, want_redacted) is Ok,
        nav::wire_scope(room) is Some,
    ensures
        can_view_room(s, nav::wire_scope(room).unwrap(), viewer),
{
}

// ---------------------------------------------------------------------------
// Copying a thread
// ---------------------------------------------------------------------------

/// A post of a thread as it is copied.
pub struct CopyEntry {
    pub index: usize,
    pub ingest: usize,
    /// Whether a separator stands in front of it.
    pub separated: bool,
    pub body: String,
}

/// The mathematical value of a [`CopyEntry`].
pub struct CopyModel {
    pub index: int,
    pub ingest: int,
    pub separated: bool,
    pub body: Seq<char>,
}

impl View for CopyEntry {
    type V = CopyModel;

    open spec fn view(&self) -> CopyModel {
        CopyModel {
            index: self.index as int,
            ingest: self.ingest as int,
            separated: self.separated,
            body: self.body@,
        }
    }
}

/// The entries for the first `n` posts of a thread: those that the state holds, deleted ones
/// without their body.
pub open spec fn copy_entries(s: ReducerState, all: Seq<Seq<char>>, n: int) -> Seq<CopyModel>
    decreases n,
{
    if n <= 0 {
        Seq::empty()
    } else {
        let front = copy_entries(s, all, n - 1);
        match state::ingest_index(s, all[n - 1]) {
            Some(i) => {
                let post = s.ingests@[i]@;
                front.push(
                    CopyModel {
                        index: n - 1,
                        ingest: i,
                        separated: n - 1 > 0,
                        body: if text::views(s.redacted_posts@).contains(post.id) {
                            Seq::empty()
                        } else {
                            text::trim(post.raw)
                        },
                    },
                )
            },
            None => front,
        }
    }
}

/// The posts of a thread as they are copied to the clipboard, oldest first.
pub fn thread_copy_entries(reduced: &ReducerState, scope: &ScopeId, tag: &str) -> (r: Vec<CopyEntry>)
    ensures
        ({
            let all = state::chronological(*reduced, scope@, nav::canonical_tag(tag@));
            state::rows(r@) == copy_entries(*reduced, all, all.len() as int)
        }),
{
    let canon: String = nav::canonicalize_tag(tag);
    let ids: Vec<String> = reduced.posts_chronological(scope, canon.as_str());
    let ghost all = text::views(ids@);
    let mut r: Vec<CopyEntry> = Vec::new();
    let mut i: usize = 0;
    assert(state::rows(r@) =~= copy_entries(*reduced, all, 0));
    while i < ids.len()
        invariant
            i <= ids.len(),
            all == text::views(ids@),
            state::rows(r@) == copy_entries(*reduced, all, i as int),
        decreases ids.len() - i,
    {
        assert(all[i as int] == ids@[i as int]@);
        match reduced.find_ingest(ids[i].as_str()) {
            Some(p) => {
                let post: &Ingest = &reduced.ingests[p];
                let body: String = if reduced.is_redacted(post.id.as_str()) {
                    String::new()
                } else {
                    text::trim_str(post.raw.as_str())
                };
                let e = CopyEntry { index: i, ingest: p, separated: i > 0, body };
                proof {
                    assert(e@.body =~= if text::views(reduced.redacted_posts@).contains(post.id@) {
                        Seq::empty()
                    } else {
                        text::trim(post.raw@)
                    });
                    state::lemma_rows_push(r@, e);
                }
                r.push(e);
            },
            None => {},
        }
        i = i + 1;
    }
    r
}

/// Whether a reader may copy the thread of a room on the wire.
pub fn may_copy_thread(reduced: &ReducerState, room: &str, viewer: Option<&str>) -> (r: bool)
    ensures
        r == match nav::wire_scope(room@) {
            None => true,
            Some(rid) => can_view_room(*reduced, rid, text::opt_str(viewer)),
        },
{
    match nav::scope_from_room_wire(room) {
        ScopeId::Public => true,
        ScopeId::Room(rid) => user_can_view_room(reduced, rid.as_str(), viewer),
    }
}

// ---------------------------------------------------------------------------
// Profiles
// ---------------------------------------------------------------------------

/// A post in the list of a user's posts.
pub struct ProfilePostRow {
    pub thread_tag: String,
    pub post_idx: usize,
    pub post_href: String,
    pub ts: i64,
    pub snippet: String,
}

/// The mathematical value of a [`ProfilePostRow`].
pub struct ProfileModel {
    pub thread_tag: Seq<char>,
    pub post_idx: nat,
    pub href: Seq<char>,
    pub ts: int,
    pub snippet: Seq<char>,
}

impl View for ProfilePostRow {
    type V = ProfileModel;

    open spec fn view(&self) -> ProfileModel {
        ProfileModel {
            thread_tag: self.thread_tag@,
            post_idx: self.post_idx as nat,
            href: self.post_href@,
            ts: self.ts as int,
            snippet: self.snippet@,
        }
    }
}

/// The row of a post: its thread, its place, its URL, and the beginning of its first line. None
/// for a deleted post, one that is not there, one whose room has no path, and one that stands in
/// no thread.
pub open spec fn profile_row(s: ReducerState, id: Seq<char>) -> Option<ProfileModel> {
    if text::views(s.redacted_posts@).contains(id) {
        None
    } else {
        match state::ingest_of(s, id) {
            None => None,
            Some(p) => match wire_nav(p.room_id) {
                None => None,
                Some(n) => match post_index(s, nav::wire_scope(p.room_id), p.thread_tag, p.id) {
                    None => None,
                    Some(k) => Some(
                        ProfileModel {
                            thread_tag: nav::canonical_tag(p.thread_tag),
                            post_idx: k as nat,
                            href: nav::post_href(n, nav::canonical_tag(p.thread_tag), k as nat),
                            ts: p.ts,
                            snippet: text::head(text::trim(text::first_line(p.raw)), 120),
                        },
                    ),
                },
            },
        }
    }
}

/// The rows of those posts that have one.
pub open spec fn profile_rows(s: ReducerState, ids: Seq<Seq<char>>) -> Seq<ProfileModel>
    decreases ids.len(),
{
    if ids.len() == 0 {
        Seq::empty()
    } else {
        match profile_row(s, ids.last()) {
            Some(r) => profile_rows(s, ids.drop_last()).push(r),
            None => profile_rows(s, ids.drop_last()),
        }
    }
}

/// What profile rows are ordered by.
pub open spec fn profile_keys(rows: Seq<ProfileModel>) -> Seq<Key> {
    Seq::new(rows.len(), |i: int| Key { major: -rows[i].ts, minor: 0, text: Seq::empty() })
}

/// The rows of a profile, newest first.
pub open spec fn profile_of(s: ReducerState, ids: Seq<Seq<char>>) -> Seq<ProfileModel> {
    let rows = profile_rows(s, ids);
    sort::pick(rows, sort::stable_order(profile_keys(rows)))
}

fn row_for_profile(reduced: &ReducerState, id: &str) -> (r: Option<ProfilePostRow>)
    ensures
        match r {
            Some(p) => profile_row(*reduced, id@) == Some(p@),
            None => profile_row(*reduced, id@) is None,
        },
{
    if reduced.is_redacted(id) {
        return None;
    }
    let i: usize = match reduced.find_ingest(id) {
        Some(i) => i,
        None => {
            return None;
        },
    };
    let ing: &Ingest = &reduced.ingests[i];
    let nav: ThreadNav = match thread_nav_for_ingest(ing) {
        Some(n) => n,
        None => {
            return None;
        },
    };
    let post_idx: usize = match thread_post_index_in_scope(reduced, ing) {
        Some(k) => k,
        None => {
            return None;
        },
    };
    let tag: String = nav::canonicalize_tag(ing.thread_tag.as_str());
    let post_href: String = nav.post_url(tag.as_str(), post_idx);
    let line: Vec<char> = text::trimmed(&text::head_line(&text::chars(ing.raw.as_str())));
    let snippet: String = text::string(&text::first_chars(&line, 120));
    Some(ProfilePostRow { thread_tag: tag, post_idx, post_href, ts: ing.ts, snippet })
}

/// Whether a post is by an actor, and in a scope that a reader may view.
pub open spec fn shows_post(
    s: ReducerState,
    post: IngestModel,
    actor: Seq<char>,
    viewer: Option<Seq<char>>,
) -> bool {
    post.principal == actor && search::scope_visible(s, nav::wire_scope(post.room_id), viewer)
}

/// The ids of the posts among the first `n` that are by an actor and in a scope that a reader
/// may view, in the order of the state.
pub open spec fn visible_upto(
    s: ReducerState,
    actor: Seq<char>,
    viewer: Option<Seq<char>>,
    n: int,
) -> Seq<Seq<char>>
    decreases n,
{
    if n <= 0 {
        Seq::empty()
    } else {
        let front = visible_upto(s, actor, viewer, n - 1);
        if shows_post(s, s.ingests@[n - 1]@, actor, viewer) {
            front.push(s.ingests@[n - 1].id@)
        } else {
            front
        }
    }
}

/// The ids of an actor's posts that a reader may see.
pub fn visible_posts_for_actor(reduced: &ReducerState, actor: &str, viewer: Option<&str>) -> (r: Vec<
    String,
>)
    ensures
        text::views(r@) == visible_upto(
            *reduced,
            actor@,
            text::opt_str(viewer),
            reduced.ingests@.len() as int,
        ),
{
    let mut r: Vec<String> = Vec::new();
    let ghost vv = text::opt_str(viewer);
    let mut i: usize = 0;
    assert(text::views(r@) =~= visible_upto(*reduced, actor@, vv, 0));
    while i < reduced.ingests.len()
        invariant
            i <= reduced.ingests.len(),
            vv == text::opt_str(viewer),
            text::views(r@) == visible_upto(*reduced, actor@, vv, i as int),
        decreases reduced.ingests.len() - i,
    {
        let post: &Ingest = &reduced.ingests[i];
        let scope: ScopeId = nav::scope_from_room_wire(post.room_id.as_str());
        if text::same(post.principal.as_str(), actor) && search::can_view_scope(
            reduced,
            &scope,
            viewer,
        ) {
            let ghost before = text::views(r@);
            r.push(post.id.clone());
            assert(text::views(r@) =~= before.push(post.id@));
        }
        i = i + 1;
    }
    r
}

proof fn lemma_visible_upto(s: ReducerState, actor: Seq<char>, viewer: Option<Seq<char>>, n: int)
    requires
        0 <= n <= s.ingests@.len(),
    ensures
        forall|id: Seq<char>| #[trigger]
            visible_upto(s, actor, viewer, n).contains(id) <==> exists|k: int|
                0 <= k < n && (#[trigger] s.ingests@[k]).id@ == id && shows_post(
                    s,
                    s.ingests@[k]@,
                    actor,
                    viewer,
                ),
    decreases n,
{
    if n > 0 {
        lemma_visible_upto(s, actor, viewer, n - 1);
        let front = visible_upto(s, actor, viewer, n - 1);
        let all = visible_upto(s, actor, viewer, n);
        let last = s.ingests@[n - 1];
        assert forall|id: Seq<char>| #[trigger] all.contains(id) <==> exists|k: int|
            0 <= k < n && (#[trigger] s.ingests@[k]).id@ == id && shows_post(
                s,
                s.ingests@[k]@,
                actor,
                viewer,
            ) by {
            if all.contains(id) {
                let i = choose|i: int| 0 <= i < all.len() && all[i] == id;
                if i < front.len() {
                    assert(front[i] == id);
                    assert(front.contains(id));
                } else {
                    assert(s.ingests@[n - 1].id@ == id);
                }
            }
            if exists|k: int|
                0 <= k < n && (#[trigger] s.ingests@[k]).id@ == id && shows_post(
                    s,
                    s.ingests@[k]@,
                    actor,
                    viewer,
                ) {
                let k = choose|k: int|
                    0 <= k < n && (#[trigger] s.ingests@[k]).id@ == id && shows_post(
                        s,
                        s.ingests@[k]@,
                        actor,
                        viewer,
                    );
                if k < n - 1 {
                    assert(front.contains(id));
                    let i = choose|i: int| 0 <= i < front.len() && front[i] == id;
                    assert(all[i] == id);
                } else {
                    assert(all[all.len() - 1] == id);
                }
            }
        }
    }
}

/// A reader sees an id among an actor's posts exactly where a post of that id is by the actor
/// and in a scope that the reader may view.
pub proof fn law_visible_posts(
    s: ReducerState,
    actor: Seq<char>,
    viewer: Option<Seq<char>>,
    id: Seq<char>,
)
    ensures
        visible_upto(s, actor, viewer, s.ingests@.len() as int).contains(id) <==> exists|k: int|
            0 <= k < s.ingests@.len() && (#[trigger] s.ingests@[k]).id@ == id && shows_post(
                s,
                s.ingests@[k]@,
                actor,
                viewer,
            ),
{
    lemma_visible_upto(s, actor, viewer, s.ingests@.len() as int);
}

/// The rows of a profile, newest first, for the posts of a user that the reader may see.
pub fn profile_post_rows(reduced: &ReducerState, ids: &Vec<String>) -> (r: Vec<ProfilePostRow>)
    ensures
        state::rows(r@) == profile_of(*reduced, text::views(ids@)),
{
    let ghost iv = text::views(ids@);
    let mut all: Vec<ProfilePostRow> = Vec::new();
    let mut keys: Vec<SortKey> = Vec::new();
    let mut i: usize = 0;
    assert(state::rows(all@) =~= profile_rows(*reduced, iv.take(0)));
    while i < ids.len()
        invariant
            i <= ids.len(),
            iv == text::views(ids@),
            all.len() == keys.len(),
            state::rows(all@) == profile_rows(*reduced, iv.take(i as int)),
            forall|j: int|
                0 <= j < keys.len() ==> (#[trigger] keys@[j])@ == (Key {
                    major: -(all@[j].ts as int),
                    minor: 0,
                    text: Seq::empty(),
                }),
        decreases ids.len() - i,
    {
        assert(iv.take(i + 1).drop_last() =~= iv.take(i as int));
        assert(iv.take(i + 1).last() == ids@[i as int]@);
        match row_for_profile(reduced, ids[i].as_str()) {
            Some(row) => {
                let k = SortKey { major: -(row.ts as i128), minor: 0, text: String::new() };
                assert(k@.text =~= Seq::empty());
                proof {
                    state::lemma_rows_push(all@, row);
                }
                all.push(row);
                keys.push(k);
            },
            None => {},
        }
        i = i + 1;
    }
    assert(iv.take(iv.len() as int) =~= iv);
    let ghost rows = state::rows(all@);
    assert(sort::key_views(keys@) =~= profile_keys(rows));
    let order: Vec<usize> = sort::order_by(&keys);
    let mut r: Vec<ProfilePostRow> = Vec::new();
    let mut k: usize = 0;
    while k < order.len()
        invariant
            k <= order.len(),
            r.len() == k,
            forall|j: int| 0 <= j < order@.len() ==> (#[trigger] order@[j]) < all@.len(),
            forall|j: int| 0 <= j < k ==> (#[trigger] r@[j])@ == all@[order@[j] as int]@,
        decreases order.len() - k,
    {
        let t: &ProfilePostRow = &all[order[k]];
        r.push(
            ProfilePostRow {
                thread_tag: t.thread_tag.clone(),
                post_idx: t.post_idx,
                post_href: t.post_href.clone(),
                ts: t.ts,
                snippet: t.snippet.clone(),
            },
        );
        k = k + 1;
    }
    proof {
        let o = sort::ints(order@);
        assert forall|j: int| 0 <= j < r@.len() implies #[trigger] state::rows(r@)[j]
            == sort::pick(rows, o)[j] by {
            assert(r@[j]@ == all@[order@[j] as int]@);
            assert(o[j] == order@[j] as int);
        }
        assert(state::rows(r@) =~= sort::pick(rows, o));
    }
    r
}

/// What the page of a user shows.
pub struct ProfilePage {
    pub username: String,
    pub title: String,
    pub href: String,
    pub rows: Vec<ProfilePostRow>,
}

/// What the page of a user shows: those of their posts that the reader may see; none for a name
/// that is no username.
pub fn user_profile_page(reduced: &ReducerState, username: &str, viewer: Option<&str>) -> (r: Option<
    ProfilePage,
>)
    ensures
        match identity::username_of(username@, unicode::lowercase(text::trim(username@))) {
            Ok(u) => match r {
                Some(p) => p.username@ == u && p.title@ == "@"@ + u && p.href@ == "/u/"@ + u
                    && state::rows(p.rows@) == profile_of(
                    *reduced,
                    visible_upto(
                        *reduced,
                        u,
                        text::opt_str(viewer),
                        reduced.ingests@.len() as int,
                    ),
                ),
                None => false,
            },
            Err(_) => r is None,
        },
{
    match identity::parse_username(username) {
        Ok(u) => {
            let title: String = text::cat("@", u.as_str());
            let href: String = markup::profile_href(u.as_str());
            let visible: Vec<String> = visible_posts_for_actor(reduced, u.as_str(), viewer);
            let rows: Vec<ProfilePostRow> = profile_post_rows(reduced, &visible);
            Some(ProfilePage { username: u, title, href, rows })
        },
        Err(_) => None,
    }
}

// ---------------------------------------------------------------------------
// What pages show
// ---------------------------------------------------------------------------

/// A reader may view a room exactly where it exists and a grant of theirs in it allows viewing,
/// and may post where they are signed in and the scope is public or a grant of theirs allows it.
pub proof fn law_who_may_view_and_post(s: ReducerState, room: Seq<char>, user: Seq<char>)
    ensures
        can_view_room(s, room, Some(user)) <==> (exists|i: int|
            0 <= i < s.rooms@.len() && (#[trigger] s.rooms@[i]).id@ == room) && (exists|i: int, k: int|
            0 <= i < s.grants@.len() && 0 <= k < s.grants@[i].caps@.len()
                && #[trigger] s.grants@[i].caps@[k] == ThreadCapability::View && s.grants@[i].room@
                == room && s.grants@[i].username@ == user),
        !can_view_room(s, room, None),
        can_post(s, None, Some(user)),
        !can_post(s, None, None),
        !can_post(s, Some(room), None),
        can_post(s, Some(room), Some(user)) <==> (exists|i: int, k: int|
            0 <= i < s.grants@.len() && 0 <= k < s.grants@[i].caps@.len()
                && #[trigger] s.grants@[i].caps@[k] == ThreadCapability::Post && s.grants@[i].room@
                == room && s.grants@[i].username@ == user),
{
    let ids = state::room_ids(s);
    if ids.contains(room) {
        let i = choose|i: int| 0 <= i < ids.len() && ids[i] == room;
        assert(s.rooms@[i].id@ == room);
    }
    if exists|i: int| 0 <= i < s.rooms@.len() && (#[trigger] s.rooms@[i]).id@ == room {
        let i = choose|i: int| 0 <= i < s.rooms@.len() && (#[trigger] s.rooms@[i]).id@ == room;
        assert(ids[i] == room);
    }
    lemma_cap_rows(s, room, user, ThreadCapability::View);
    lemma_cap_rows(s, room, user, ThreadCapability::Post);
}

proof fn lemma_cap_rows(s: ReducerState, room: Seq<char>, user: Seq<char>, cap: ThreadCapability)
    ensures
        state::has_cap(s, room, user, cap) <==> exists|i: int, k: int|
            0 <= i < s.grants@.len() && 0 <= k < s.grants@[i].caps@.len()
                && #[trigger] s.grants@[i].caps@[k] == cap && s.grants@[i].room@ == room
                && s.grants@[i].username@ == user,
{
    if state::has_cap(s, room, user, cap) {
        let i = choose|i: int|
            0 <= i < s.grants@.len() && (#[trigger] s.grants@[i]).room@ == room
                && s.grants@[i].username@ == user && s.grants@[i].caps@.contains(cap);
        let k = choose|k: int| 0 <= k < s.grants@[i].caps@.len() && s.grants@[i].caps@[k] == cap;
        assert(s.grants@[i].caps@[k] == cap);
    }
    if exists|i: int, k: int|
        0 <= i < s.grants@.len() && 0 <= k < s.grants@[i].caps@.len()
            && #[trigger] s.grants@[i].caps@[k] == cap && s.grants@[i].room@ == room
            && s.grants@[i].username@ == user {
        let (i, k) = choose|i: int, k: int|
            0 <= i < s.grants@.len() && 0 <= k < s.grants@[i].caps@.len()
                && #[trigger] s.grants@[i].caps@[k] == cap && s.grants@[i].room@ == room
                && s.grants@[i].username@ == user;
        assert(s.grants@[i].caps@.contains(cap));
    }
}

proof fn lemma_scope_threads_hold(s: ReducerState, scope: Option<Seq<char>>, n: int, row: ThreadRowModel)
    requires
        0 <= n <= s.forum_threads@.len(),
    ensures
        scope_threads(s, scope, n).contains(row) <==> exists|m: int|
            0 <= m < n && (#[trigger] s.forum_threads@[m]).scope@ == scope && row.tag
                == s.forum_threads@[m].tag@ && row.last_ts == s.forum_threads@[m].last_activity_ts
                && row.last_actor == s.forum_threads@[m].last_actor@ && row.ingests
                == state::posts_of(s, scope, row.tag).len(),
    decreases n,
{
    if n > 0 {
        lemma_scope_threads_hold(s, scope, n - 1, row);
        let front = scope_threads(s, scope, n - 1);
        let all = scope_threads(s, scope, n);
        if all.contains(row) {
            let k = choose|k: int| 0 <= k < all.len() && all[k] == row;
            if k < front.len() {
                assert(front[k] == row);
                assert(front.contains(row));
            } else {
                assert(s.forum_threads@[n - 1].scope@ == scope);
            }
        }
        if front.contains(row) {
            let k = choose|k: int| 0 <= k < front.len() && front[k] == row;
            assert(all[k] == row);
        }
        if s.forum_threads@[n - 1].scope@ == scope {
            assert(all[all.len() - 1] == all.last());
        }
    }
}

/// A feed lists the threads of its scope, all of them and no others, each with the number of its
/// posts.
pub proof fn law_feed_lists_the_threads(
    s: ReducerState,
    scope: Option<Seq<char>>,
    row: ThreadRowModel,
)
    ensures
        feed_of(s, scope).contains(row) <==> exists|m: int|
            0 <= m < s.forum_threads@.len() && (#[trigger] s.forum_threads@[m]).scope@ == scope
                && row.tag == s.forum_threads@[m].tag@ && row.last_ts
                == s.forum_threads@[m].last_activity_ts && row.last_actor
                == s.forum_threads@[m].last_actor@ && row.ingests == state::posts_of(
                s,
                scope,
                row.tag,
            ).len(),
{
    let n = s.forum_threads@.len() as int;
    let rows = scope_threads(s, scope, n);
    lemma_scope_threads_hold(s, scope, n, row);
    sort::lemma_sorted_rows(rows, feed_keys(rows));
}

proof fn lemma_latest_activity(s: ReducerState, room: Seq<char>, n: int)
    requires
        0 <= n <= s.forum_threads@.len(),
    ensures
        match latest_activity(s, room, n) {
            Some(ts) => (exists|m: int|
                0 <= m < n && (#[trigger] s.forum_threads@[m]).scope@ == Some(room)
                    && s.forum_threads@[m].last_activity_ts == ts) && (forall|m: int|
                0 <= m < n && (#[trigger] s.forum_threads@[m]).scope@ == Some(room)
                    ==> s.forum_threads@[m].last_activity_ts <= ts),
            None => forall|m: int|
                0 <= m < n ==> (#[trigger] s.forum_threads@[m]).scope@ != Some(room),
        },
    decreases n,
{
    if n > 0 {
        lemma_latest_activity(s, room, n - 1);
        assert(s.forum_threads@[n - 1].scope@ == s.forum_threads@[n - 1]@.scope);
    }
}

/// A room was last active when the latest of its threads was, or when it was created where it
/// has no thread.
pub proof fn law_room_activity(s: ReducerState, room: Seq<char>, created: int)
    ensures
        (forall|m: int|
            0 <= m < s.forum_threads@.len() ==> (#[trigger] s.forum_threads@[m]).scope@ != Some(room))
            ==> room_activity(s, room, created) == created,
        forall|m: int|
            0 <= m < s.forum_threads@.len() && (#[trigger] s.forum_threads@[m]).scope@ == Some(room)
                ==> room_activity(s, room, created) >= s.forum_threads@[m].last_activity_ts,
        (exists|m: int|
            0 <= m < s.forum_threads@.len() && (#[trigger] s.forum_threads@[m]).scope@ == Some(room))
            ==> exists|m: int|
            0 <= m < s.forum_threads@.len() && (#[trigger] s.forum_threads@[m]).scope@ == Some(room)
                && s.forum_threads@[m].last_activity_ts == room_activity(s, room, created),
{
    lemma_latest_activity(s, room, s.forum_threads@.len() as int);
}

/// The rooms of a reader carry the time at which the room was last active.
pub proof fn law_rooms_carry_their_activity(s: ReducerState, username: Seq<char>, i: int)
    requires
        0 <= i < rooms_of(s, username).len(),
    ensures
        exists|k: int|
            0 <= k < s.rooms@.len() && (#[trigger] s.rooms@[k]).id@ == rooms_of(s, username)[i].id
                && rooms_of(s, username)[i].last_ts == room_activity(
                s,
                s.rooms@[k].id@,
                s.rooms@[k].created_ts as int,
            ),
{
    let n = s.rooms@.len() as int;
    let rows = granted_rooms(s, username, n);
    sort::lemma_sorted_rows(rows, room_keys(rows));
    lemma_granted_activity(s, username, n);
    let o = sort::stable_order(room_keys(rows));
    assert(0 <= o[i] < rows.len());
    assert(rooms_of(s, username)[i] == rows[o[i]]);
}

proof fn lemma_granted_activity(s: ReducerState, username: Seq<char>, n: int)
    requires
        0 <= n <= s.rooms@.len(),
    ensures
        forall|i: int|
            0 <= i < granted_rooms(s, username, n).len() ==> exists|k: int|
                0 <= k < n && (#[trigger] s.rooms@[k]).id@ == (#[trigger] granted_rooms(
                    s,
                    username,
                    n,
                )[i]).id && granted_rooms(s, username, n)[i].last_ts == room_activity(
                    s,
                    s.rooms@[k].id@,
                    s.rooms@[k].created_ts as int,
                ),
    decreases n,
{
    if n > 0 {
        lemma_granted_activity(s, username, n - 1);
        let front = granted_rooms(s, username, n - 1);
        let all = granted_rooms(s, username, n);
        assert forall|i: int| 0 <= i < all.len() implies exists|k: int|
            0 <= k < n && (#[trigger] s.rooms@[k]).id@ == (#[trigger] all[i]).id && all[i].last_ts
                == room_activity(s, s.rooms@[k].id@, s.rooms@[k].created_ts as int) by {
            if i < front.len() {
                assert(all[i] == front[i]);
            } else {
                assert(s.rooms@[n - 1].id@ == all[i].id);
            }
        }
    }
}

/// The members of a room are those who have a grant in it, in the order of their names.
pub proof fn law_members_of_a_room(s: ReducerState, room: Seq<char>, m: MemberModel)
    ensures
        members_of_room(s, room).contains(m) <==> exists|k: int|
            0 <= k < s.grants@.len() && (#[trigger] s.grants@[k]).room@ == room && m.username
                == s.grants@[k].username@ && m.capabilities == capability_names(s.grants@[k].caps@),
        forall|i: int, j: int|
            0 <= i < j < members_of_room(s, room).len() ==> !text::text_lt(
                (#[trigger] members_of_room(s, room)[j]).username,
                (#[trigger] members_of_room(s, room)[i]).username,
            ),
{
    let n = s.grants@.len() as int;
    let rows = granted_members(s, room, n);
    let keys = member_keys(rows);
    lemma_granted_members(s, room, n, m);
    sort::lemma_sorted_rows(rows, keys);
    let o = sort::stable_order(keys);
    let r = members_of_room(s, room);
    assert forall|i: int, j: int| 0 <= i < j < r.len() implies !text::text_lt(
        (#[trigger] r[j]).username,
        (#[trigger] r[i]).username,
    ) by {
        assert(!sort::key_lt(keys[o[j]], keys[o[i]]));
    }
}

proof fn lemma_granted_members(s: ReducerState, room: Seq<char>, n: int, m: MemberModel)
    requires
        0 <= n <= s.grants@.len(),
    ensures
        granted_members(s, room, n).contains(m) <==> exists|k: int|
            0 <= k < n && (#[trigger] s.grants@[k]).room@ == room && m.username
                == s.grants@[k].username@ && m.capabilities == capability_names(s.grants@[k].caps@),
    decreases n,
{
    if n > 0 {
        lemma_granted_members(s, room, n - 1, m);
        let front = granted_members(s, room, n - 1);
        let all = granted_members(s, room, n);
        if all.contains(m) {
            let k = choose|k: int| 0 <= k < all.len() && all[k] == m;
            if k < front.len() {
                assert(front[k] == m);
                assert(front.contains(m));
            } else {
                assert(s.grants@[n - 1].room@ == room);
            }
        }
        if front.contains(m) {
            let k = choose|k: int| 0 <= k < front.len() && front[k] == m;
            assert(all[k] == m);
        }
        if s.grants@[n - 1].room@ == room {
            assert(all[all.len() - 1] == all.last());
        }
    }
}

/// A capability is named exactly where it is held.
#[verifier::rlimit(50)]
pub proof fn law_capabilities_are_named(caps: Seq<ThreadCapability>)
    ensures
        capability_names(caps).contains("view"@) <==> caps.contains(ThreadCapability::View),
        capability_names(caps).contains("post"@) <==> caps.contains(ThreadCapability::Post),
        capability_names(caps).contains("vote"@) <==> caps.contains(ThreadCapability::Vote),
        capability_names(caps).contains("add_item"@) <==> caps.contains(ThreadCapability::AddItem),
        capability_names(caps).contains("manage"@) <==> caps.contains(ThreadCapability::Manage),
{
    reveal_strlit("view");
    reveal_strlit("post");
    reveal_strlit("vote");
    reveal_strlit("add_item");
    reveal_strlit("manage");
    assert("view"@[0] == 'v' && "post"@[0] == 'p' && "vote"@[0] == 'v' && "add_item"@[0] == 'a'
        && "manage"@[0] == 'm');
    assert("view"@[1] == 'i' && "vote"@[1] == 'o');
    let a = name_if_held(caps, ThreadCapability::View);
    let b = name_if_held(caps, ThreadCapability::Post);
    let c = name_if_held(caps, ThreadCapability::Vote);
    let d = name_if_held(caps, ThreadCapability::AddItem);
    let e = name_if_held(caps, ThreadCapability::Manage);
    let all = capability_names(caps);
    assert forall|x: Seq<char>| #[trigger] all.contains(x) implies a.contains(x) || b.contains(x)
        || c.contains(x) || d.contains(x) || e.contains(x) by {
        let k = choose|k: int| 0 <= k < all.len() && all[k] == x;
        let i1 = a.len() as int;
        let i2 = i1 + b.len();
        let i3 = i2 + c.len();
        let i4 = i3 + d.len();
        if k < i1 {
            assert(a[k] == x);
        } else if k < i2 {
            assert(b[k - i1] == x);
        } else if k < i3 {
            assert(c[k - i2] == x);
        } else if k < i4 {
            assert(d[k - i3] == x);
        } else {
            assert(e[k - i4] == x);
        }
    }
    if a.len() > 0 {
        assert(all[0] == "view"@);
    }
    if b.len() > 0 {
        assert(all[a.len() as int] == "post"@);
    }
    if c.len() > 0 {
        assert(all[(a.len() + b.len()) as int] == "vote"@);
    }
    if d.len() > 0 {
        assert(all[(a.len() + b.len() + c.len()) as int] == "add_item"@);
    }
    if e.len() > 0 {
        assert(all[(a.len() + b.len() + c.len() + d.len()) as int] == "manage"@);
    }
}

/// A page of a thread holds ten posts from its offset on, or as many as there are.
pub proof fn law_page_is_ten_posts(all: Seq<Seq<char>>, offset: int, k: int)
    requires
        0 <= offset,
    ensures
        page_ids(all, offset).len() == if offset >= all.len() {
            0
        } else if all.len() - offset < 10 {
            all.len() - offset
        } else {
            10
        },
        0 <= k < page_ids(all, offset).len() ==> page_ids(all, offset)[k] == all[offset + k],
{
}

/// A card shows nothing of a deleted post. Only the author of a post that is still there may
/// delete it. A longer text is cut off where the preview ends, and shown whole otherwise.
pub proof fn law_cards(
    c: PostCard,
    s: ReducerState,
    nav: NavModel,
    tag: Seq<char>,
    idx: int,
    post: IngestModel,
    viewer: Option<Seq<char>>,
    preview: nat,
)
    requires
        is_card(c, s, nav, tag, idx, post, viewer, preview),
        0 <= idx,
    ensures
        c.redacted <==> exists|k: int|
            0 <= k < s.redacted_posts@.len() && (#[trigger] s.redacted_posts@[k])@ == post.id,
        c.redacted ==> c.display_body@.len() == 0 && !c.show_delete && !c.truncated,
        c.show_delete <==> !c.redacted && viewer is Some && viewer.unwrap() == post.principal,
        !c.redacted && post.raw.len() <= preview ==> c.display_body@ == post.raw && !c.truncated,
        !c.redacted && post.raw.len() > preview ==> c.display_body@ == post.raw.take(preview as int)
            && c.truncated,
        c.char_len == post.raw.len(),
        c.post_idx == idx,
        c.href@ == nav.thread_prefix + "/"@ + tag + "/"@ + text::decimal(idx as nat),
        c.profile@ == "/u/"@ + post.principal,
{
    let red = text::views(s.redacted_posts@);
    if red.contains(post.id) {
        let k = choose|k: int| 0 <= k < red.len() && red[k] == post.id;
        assert(s.redacted_posts@[k]@ == post.id);
    }
    if exists|k: int|
        0 <= k < s.redacted_posts@.len() && (#[trigger] s.redacted_posts@[k])@ == post.id {
        let k = choose|k: int|
            0 <= k < s.redacted_posts@.len() && (#[trigger] s.redacted_posts@[k])@ == post.id;
        assert(red[k] == post.id);
    }
}

/// The post at a place of a thread is the one at that place of its posts, oldest first.
pub proof fn law_post_at(s: ReducerState, scope: Option<Seq<char>>, tag: Seq<char>, idx: int, i: int)
    requires
        s.wf(),
        0 <= i < s.ingests@.len(),
        0 <= idx < state::posts_of(s, scope, tag).len(),
        s.ingests@[i].id@ == state::posts_of(s, scope, tag)[state::posts_of(s, scope, tag).len() - 1
            - idx],
    ensures
        post_at(s, scope, tag, idx) == Some(i),
        post_at(s, scope, tag, state::posts_of(s, scope, tag).len() as int) is None,
        post_at(s, scope, tag, -1) is None,
{
    state::law_posts_are_found(s, scope, tag, s.ingests@[i].id@, i);
}

/// A request for a post is met with it exactly where the room has a path, the scope is public or
/// the reader may view it, the post is at the place, and it is deleted or not as asked. A room
/// that may not be viewed is refused before the post is looked for.
pub proof fn law_requests_for_posts(
    s: ReducerState,
    room: Seq<char>,
    tag: Seq<char>,
    idx: int,
    viewer: Option<Seq<char>>,
    want_redacted: bool,
)
    ensures
        wire_nav(room) is None ==> morph_target(s, room, tag, idx, viewer, want_redacted) == Err::<
            int,
            PostMorphError,
        >(PostMorphError::BadRoom),
        wire_nav(room) is Some && nav::wire_scope(room) is Some && !can_view_room(
            s,
            nav::wire_scope(room).unwrap(),
            viewer,
        ) ==> morph_target(s, room, tag, idx, viewer, want_redacted) == Err::<int, PostMorphError>(
            PostMorphError::Forbidden,
        ),
        wire_nav(room) is Some && (nav::wire_scope(room) is None || can_view_room(
            s,
            nav::wire_scope(room).unwrap(),
            viewer,
        )) ==> match post_at(s, nav::wire_scope(room), nav::canonical_tag(tag), idx) {
            Some(i) => {
                let gone = text::views(s.redacted_posts@).contains(s.ingests@[i].id@);
                &&& morph_target(s, room, tag, idx, viewer, gone) == Ok::<int, PostMorphError>(i)
                &&& morph_target(s, room, tag, idx, viewer, !gone) == Err::<int, PostMorphError>(
                    PostMorphError::PostNotFound,
                )
            },
            None => morph_target(s, room, tag, idx, viewer, want_redacted) == Err::<
                int,
                PostMorphError,
            >(PostMorphError::PostNotFound),
        },
{
}

/// Copying a thread gives one entry for each of its posts, in order, with its place and its
/// trimmed text, which is empty for a deleted post; all entries but that of the first place are
/// separated from what stands before them.
pub proof fn law_copied_threads(s: ReducerState, all: Seq<Seq<char>>, n: int)
    requires
        0 <= n < all.len(),
    ensures
        copy_entries(s, all, 0).len() == 0,
        match state::ingest_index(s, all[n]) {
            Some(i) => {
                let e = copy_entries(s, all, n + 1).last();
                &&& copy_entries(s, all, n + 1).drop_last() == copy_entries(s, all, n)
                &&& copy_entries(s, all, n + 1).len() == copy_entries(s, all, n).len() + 1
                &&& e.index == n
                &&& e.ingest == i
                &&& e.separated <==> n != 0
                &&& text::views(s.redacted_posts@).contains(s.ingests@[i].id@) ==> e.body.len() == 0
                &&& !text::views(s.redacted_posts@).contains(s.ingests@[i].id@) ==> e.body
                    == text::trim(s.ingests@[i].raw@)
            },
            None => copy_entries(s, all, n + 1) == copy_entries(s, all, n),
        },
{
    match state::ingest_index(s, all[n]) {
        Some(i) => {
            assert(copy_entries(s, all, n + 1).drop_last() =~= copy_entries(s, all, n));
        },
        None => {},
    }
}

proof fn lemma_profile_rows(s: ReducerState, ids: Seq<Seq<char>>, r: ProfileModel)
    ensures
        profile_rows(s, ids).contains(r) <==> exists|k: int|
            0 <= k < ids.len() && profile_row(s, #[trigger] ids[k]) == Some(r),
    decreases ids.len(),
{
    if ids.len() > 0 {
        lemma_profile_rows(s, ids.drop_last(), r);
        let front = profile_rows(s, ids.drop_last());
        let all = profile_rows(s, ids);
        if all.contains(r) {
            let k = choose|k: int| 0 <= k < all.len() && all[k] == r;
            if k < front.len() {
                assert(front[k] == r);
                assert(front.contains(r));
                let j = choose|j: int|
                    0 <= j < ids.drop_last().len() && profile_row(s, #[trigger] ids.drop_last()[j])
                        == Some(r);
                assert(ids[j] == ids.drop_last()[j]);
            } else {
                assert(profile_row(s, ids[ids.len() - 1]) == Some(r));
            }
        }
        if exists|k: int| 0 <= k < ids.len() && profile_row(s, #[trigger] ids[k]) == Some(r) {
            let k = choose|k: int| 0 <= k < ids.len() && profile_row(s, #[trigger] ids[k]) == Some(r);
            if k < ids.len() - 1 {
                assert(ids.drop_last()[k] == ids[k]);
                let j = choose|j: int| 0 <= j < front.len() && front[j] == r;
                assert(all[j] == r);
            } else {
                assert(all[all.len() - 1] == r);
            }
        }
    }
}

/// A profile lists the posts of its list that have a row, all of them and nothing else, the
/// newest first. A deleted post has none. A row gives the post's time, its place in its thread,
/// and no more than a hundred and twenty characters of its first line.
pub proof fn law_profiles(s: ReducerState, ids: Seq<Seq<char>>, id: Seq<char>, r: ProfileModel)
    ensures
        profile_of(s, ids).contains(r) <==> exists|k: int|
            0 <= k < ids.len() && profile_row(s, #[trigger] ids[k]) == Some(r),
        forall|i: int, j: int|
            0 <= i < j < profile_of(s, ids).len() ==> (#[trigger] profile_of(s, ids)[i]).ts >= (
            #[trigger] profile_of(s, ids)[j]).ts,
        text::views(s.redacted_posts@).contains(id) ==> profile_row(s, id) is None,
        match profile_row(s, id) {
            Some(p) => state::ingest_of(s, id) is Some && p.ts == state::ingest_of(s, id).unwrap().ts
                && p.snippet.len() <= 120 && p.snippet == text::head(
                text::trim(text::first_line(state::ingest_of(s, id).unwrap().raw)),
                120,
            ) && post_index(
                s,
                nav::wire_scope(state::ingest_of(s, id).unwrap().room_id),
                state::ingest_of(s, id).unwrap().thread_tag,
                state::ingest_of(s, id).unwrap().id,
            ) == Some(p.post_idx as int),
            None => true,
        },
{
    let rows = profile_rows(s, ids);
    let keys = profile_keys(rows);
    lemma_profile_rows(s, ids, r);
    sort::lemma_sorted_rows(rows, keys);
    let o = sort::stable_order(keys);
    let all = profile_of(s, ids);
    assert forall|i: int, j: int| 0 <= i < j < all.len() implies (#[trigger] all[i]).ts >= (
    #[trigger] all[j]).ts by {
        assert(!sort::key_lt(keys[o[j]], keys[o[i]]));
    }
    match profile_row(s, id) {
        Some(p) => {
            let post = state::ingest_of(s, id).unwrap();
            let all = state::chronological(
                s,
                nav::wire_scope(post.room_id),
                nav::canonical_tag(post.thread_tag),
            );
            text::lemma_position(all, post.id);
        },
        None => {},
    }
}

/// Among an actor's posts a reader sees those that are public, and those of rooms that the
/// reader has a grant to view.
pub proof fn law_shown_posts(
    s: ReducerState,
    post: IngestModel,
    actor: Seq<char>,
    viewer: Option<Seq<char>>,
)
    ensures
        shows_post(s, post, actor, viewer) <==> post.principal == actor && (nav::wire_scope(
            post.room_id,
        ) is None || (viewer is Some && exists|i: int, k: int|
            0 <= i < s.grants@.len() && 0 <= k < s.grants@[i].caps@.len()
                && #[trigger] s.grants@[i].caps@[k] == ThreadCapability::View && s.grants@[i].room@
                == nav::wire_scope(post.room_id).unwrap() && s.grants@[i].username@
                == viewer.unwrap())),
{
    if nav::wire_scope(post.room_id) is Some && viewer is Some {
        lemma_cap_rows(
            s,
            nav::wire_scope(post.room_id).unwrap(),
            viewer.unwrap(),
            ThreadCapability::View,
        );
    }
}

/// The rooms on the home page are those of the reader that have a path, in their order, each with
/// its URL and its slug.
pub proof fn law_rooms_with_paths(rows: Seq<RoomRowModel>, r: RoomRowModel)
    ensures
        rooms_with_paths(Seq::empty()).len() == 0,
        match nav::room_nav(r.id) {
            Some(n) => {
                let all = rooms_with_paths(rows.push(r));
                &&& all.drop_last() == rooms_with_paths(rows)
                &&& all.len() == rooms_with_paths(rows).len() + 1
                &&& all.last().id == r.id
                &&& all.last().href == n.room_path
                &&& all.last().slug == nav::room_slug(r.id)
                &&& all.last().last_ts == r.last_ts
            },
            None => rooms_with_paths(rows.push(r)) == rooms_with_paths(rows),
        },
{
    assert(rows.push(r).drop_last() =~= rows);
    if nav::room_nav(r.id) is Some {
        assert(rooms_with_paths(rows.push(r)).drop_last() =~= rooms_with_paths(rows));
    }
}

proof fn lemma_found_posts(s: ReducerState, ids: Seq<Seq<char>>, k: int)
    requires
        forall|i: int|
            0 <= i < ids.len() ==> state::ingest_index(s, #[trigger] ids[i]) is Some,
    ensures
        found_posts(s, ids).len() == ids.len(),
        0 <= k < ids.len() ==> Some(found_posts(s, ids)[k]) == state::ingest_index(s, ids[k]),
    decreases ids.len(),
{
    if ids.len() > 0 {
        assert(state::ingest_index(s, ids[ids.len() - 1]) is Some);
        assert forall|i: int| 0 <= i < ids.drop_last().len() implies state::ingest_index(
            s,
            #[trigger] ids.drop_last()[i],
        ) is Some by {
            assert(ids.drop_last()[i] == ids[i]);
        }
        lemma_found_posts(s, ids.drop_last(), k);
        if 0 <= k < ids.len() - 1 {
            assert(ids.drop_last()[k] == ids[k]);
        }
    }
}

/// The page of a thread shows ten posts from its offset on, oldest first, or as many as there
/// are; each card stands for the post at its place. The reader may write where they may post in
/// the scope.
pub proof fn law_thread_pages(
    p: ThreadPage,
    s: ReducerState,
    nav: NavModel,
    tag: Seq<char>,
    offset: int,
    user: Option<Seq<char>>,
    preview: nat,
    k: int,
)
    requires
        is_thread_page(p, s, nav, tag, offset, user, preview),
        0 <= offset,
        forall|i: int|
            0 <= i < state::chronological(s, nav.scope, tag).len() ==> state::ingest_index(
                s,
                #[trigger] state::chronological(s, nav.scope, tag)[i],
            ) is Some,
    ensures
        ({
            let all = state::chronological(s, nav.scope, tag);
            &&& p.tag@ == tag
            &&& p.total == all.len()
            &&& p.offset == offset
            &&& p.show_compose == can_post(s, nav.scope, user)
            &&& p.cards@.len() == if offset >= all.len() {
                0
            } else if all.len() - offset < 10 {
                all.len() - offset
            } else {
                10
            }
            &&& 0 <= k < p.cards@.len() ==> p.cards@[k].post_idx == offset + k && Some(
                p.cards@[k].ingest as int,
            ) == state::ingest_index(s, all[offset + k])
            &&& p.top.top && !p.bottom.top
            &&& p.top.total == all.len() && p.bottom.total == all.len()
        }),
{
    let all = state::chronological(s, nav.scope, tag);
    let ids = page_ids(all, offset);
    law_page_is_ten_posts(all, offset, k);
    assert forall|i: int| 0 <= i < ids.len() implies state::ingest_index(s, #[trigger] ids[i]) is Some by {
        assert(ids[i] == all[offset + i]);
    }
    lemma_found_posts(s, ids, k);
    if 0 <= k < p.cards@.len() {
        let f = found_posts(s, ids);
        assert(is_card_of(p.cards@[k], s, nav, tag, offset + k, f[k], user, preview));
    }
}

/// A post is asked for by its number; what is no number asks for the first.
pub proof fn law_post_numbers(n: nat, s: Seq<char>)
    requires
        n <= usize::MAX,
    ensures
        path_index(text::decimal(n)) == n,
        text::parse_unsigned(s, usize::MAX as nat) is None ==> path_index(s) == 0,
{
    text::law_decimal_is_read_back(n);
    assert(text::unsigned_digits(text::decimal(n)) == text::decimal(n)) by {
        assert(text::decimal(n)[0] != '+');
    }
}

/// The command lines of threads.
pub proof fn law_thread_commands(room: Seq<char>, tag: Seq<char>)
    ensures
        thread_cli(None, tag) == "npx slugsocial public forum show "@ + tag,
        thread_cli(Some(room), tag) == "npx slugsocial private "@ + room + " forum show "@ + tag,
{
}

} // verus!
