//! Search over items, threads and posts.

use vstd::prelude::*;
use vstd::utf8::encode_utf8;

use crate::markup;
use crate::nav::{self, ScopeId};
use crate::paths::ItemId;
use crate::snippet;
use crate::sort::{self, Key, SortKey};
use crate::state::{self, ContentState, ReducerState, ThreadCapability};
use crate::text;
use crate::unicode;

verus! {

/// How many results of each kind a page shows.
pub const SEARCH_LIMIT: usize = 50;

/// The query of a search page.
#[derive(Debug)]
pub struct SearchQuery {
    pub q: Option<String>,
}

/// An item that was found.
pub struct ItemRow {
    pub path: String,
    pub body: Option<String>,
}

/// The mathematical value of an [`ItemRow`].
pub struct ItemHit {
    pub path: Seq<char>,
    pub body: Option<Seq<char>>,
}

impl View for ItemRow {
    type V = ItemHit;

    open spec fn view(&self) -> ItemHit {
        ItemHit { path: self.path@, body: text::opt_view(self.body) }
    }
}

/// A thread that was found.
pub struct ThreadRow {
    pub tag: String,
    pub post_count: usize,
    pub last_activity: i64,
}

/// The mathematical value of a [`ThreadRow`].
pub struct ThreadHit {
    pub tag: Seq<char>,
    pub post_count: nat,
    pub last_activity: int,
}

impl View for ThreadRow {
    type V = ThreadHit;

    open spec fn view(&self) -> ThreadHit {
        ThreadHit {
            tag: self.tag@,
            post_count: self.post_count as nat,
            last_activity: self.last_activity as int,
        }
    }
}

/// A post that was found.
pub struct PostRow {
    pub thread: String,
    pub actor_display: String,
    pub text: String,
    pub ts: i64,
}

/// The mathematical value of a [`PostRow`].
pub struct PostHit {
    pub thread: Seq<char>,
    pub actor: Seq<char>,
    pub text: Seq<char>,
    pub ts: int,
}

impl View for PostRow {
    type V = PostHit;

    open spec fn view(&self) -> PostHit {
        PostHit {
            thread: self.thread@,
            actor: self.actor_display@,
            text: self.text@,
            ts: self.ts as int,
        }
    }
}

/// What a search found.
pub struct SearchResults {
    pub items: Vec<ItemRow>,
    pub threads: Vec<ThreadRow>,
    pub posts: Vec<PostRow>,
}

// ---------------------------------------------------------------------------
// Words
// ---------------------------------------------------------------------------

/// The words of a query in small letters, given the lowercase form of each word.
pub open spec fn lowered_words(ws: Seq<Seq<char>>) -> Seq<Seq<char>> {
    text::nonempty(Seq::new(ws.len(), |i: int| unicode::lowercase(ws[i])))
}

/// The words that a query searches for.
pub open spec fn query_words(q: Seq<char>) -> Seq<Seq<char>> {
    lowered_words(text::words(q))
}

/// The words that a query searches for.
pub fn tokenize(q: &str) -> (r: Vec<String>)
    ensures
        text::views(r@) == query_words(q@),
        forall|i: int| 0 <= i < r@.len() ==> (#[trigger] r@[i])@.len() > 0,
{
    let ws: Vec<String> = text::split_words(&text::chars(q));
    let mut lower: Vec<String> = Vec::new();
    let mut i: usize = 0;
    while i < ws.len()
        invariant
            i <= ws.len(),
            lower.len() == i,
            forall|j: int|
                0 <= j < i ==> (#[trigger] lower@[j])@ == unicode::lowercase(ws@[j]@),
        decreases ws.len() - i,
    {
        lower.push(unicode::to_lowercase(ws[i].as_str()));
        i = i + 1;
    }
    let ghost lw = Seq::new(
        text::words(q@).len(),
        |i: int| unicode::lowercase(text::words(q@)[i]),
    );
    assert(text::views(ws@).len() == ws@.len());
    assert forall|j: int| 0 <= j < lower@.len() implies #[trigger] text::views(lower@)[j]
        == lw[j] by {
        assert(text::views(ws@)[j] == ws@[j]@);
        assert(lower@[j]@ == unicode::lowercase(ws@[j]@));
    }
    assert(text::views(lower@) =~= lw);
    let r: Vec<String> = text::without_empty(&lower);
    proof {
        lemma_nonempty(lw);
        assert forall|i: int| 0 <= i < r@.len() implies (#[trigger] r@[i])@.len() > 0 by {
            assert(text::views(r@)[i] == r@[i]@);
        }
    }
    r
}

proof fn lemma_nonempty(v: Seq<Seq<char>>)
    ensures
        forall|i: int| 0 <= i < text::nonempty(v).len() ==> (#[trigger] text::nonempty(v)[i]).len() > 0,
    decreases v.len(),
{
    if v.len() > 0 {
        lemma_nonempty(v.drop_last());
        let front = text::nonempty(v.drop_last());
        let all = text::nonempty(v);
        assert forall|i: int| 0 <= i < all.len() implies (#[trigger] all[i]).len() > 0 by {
            if i < front.len() {
                assert(all[i] == front[i]);
            }
        }
    }
}

/// Whether a text holds all of the words.
pub open spec fn holds_all(lower: Seq<char>, ws: Seq<Seq<char>>) -> bool {
    forall|i: int| 0 <= i < ws.len() ==> text::has(lower, #[trigger] ws[i])
}

/// How many of the words a text holds.
pub open spec fn held_count(lower: Seq<char>, ws: Seq<Seq<char>>) -> nat
    decreases ws.len(),
{
    if ws.len() == 0 {
        0
    } else {
        held_count(lower, ws.drop_last()) + (if text::has(lower, ws.last()) {
            1nat
        } else {
            0nat
        })
    }
}

/// Whether a text in small letters holds all of the words.
pub fn contains_all(lower: &Vec<char>, ws: &Vec<String>) -> (r: bool)
    ensures
        r == holds_all(lower@, text::views(ws@)),
{
    let ghost wv = text::views(ws@);
    let mut i: usize = 0;
    while i < ws.len()
        invariant
            i <= ws.len(),
            wv == text::views(ws@),
            forall|j: int| 0 <= j < i ==> text::has(lower@, #[trigger] wv[j]),
        decreases ws.len() - i,
    {
        let w: Vec<char> = text::chars(ws[i].as_str());
        assert(wv[i as int] == w@);
        if !text::has_text(lower, &w) {
            return false;
        }
        i = i + 1;
    }
    true
}

/// How many of the words a text in small letters holds.
pub fn contains_any(lower: &Vec<char>, ws: &Vec<String>) -> (r: usize)
    ensures
        r == held_count(lower@, text::views(ws@)),
        r <= ws@.len(),
{
    let ghost wv = text::views(ws@);
    let mut n: usize = 0;
    let mut i: usize = 0;
    while i < ws.len()
        invariant
            i <= ws.len(),
            n <= i,
            wv == text::views(ws@),
            n == held_count(lower@, wv.take(i as int)),
        decreases ws.len() - i,
    {
        let w: Vec<char> = text::chars(ws[i].as_str());
        assert(wv.take(i + 1).drop_last() =~= wv.take(i as int));
        assert(wv.take(i + 1).last() == w@);
        if text::has_text(lower, &w) {
            n = n + 1;
        }
        i = i + 1;
    }
    assert(wv.take(wv.len() as int) =~= wv);
    n
}

/// A text that holds every word holds as many words as there are.
pub proof fn law_all_words_counted(lower: Seq<char>, ws: Seq<Seq<char>>)
    requires
        holds_all(lower, ws),
    ensures
        held_count(lower, ws) == ws.len(),
    decreases ws.len(),
{
    if ws.len() > 0 {
        assert(text::has(lower, ws[ws.len() - 1]));
        assert forall|i: int| 0 <= i < ws.drop_last().len() implies text::has(
            lower,
            #[trigger] ws.drop_last()[i],
        ) by {
            assert(ws.drop_last()[i] == ws[i]);
        }
        law_all_words_counted(lower, ws.drop_last());
    }
}

// ---------------------------------------------------------------------------
// Scores
// ---------------------------------------------------------------------------

/// The score of an item by its path and its body, both in small letters.
pub open spec fn item_score(path: Seq<char>, body: Option<Seq<char>>, ws: Seq<Seq<char>>) -> nat {
    (if holds_all(path, ws) {
        10nat
    } else if held_count(path, ws) > 0 {
        5
    } else {
        0
    }) + match body {
        Some(b) => if holds_all(b, ws) {
            6nat
        } else {
            held_count(b, ws)
        },
        None => 0,
    }
}

/// The score of a thread by its tag in small letters.
pub open spec fn thread_score(tag: Seq<char>, ws: Seq<Seq<char>>) -> nat {
    if holds_all(tag, ws) {
        8
    } else if held_count(tag, ws) > 0 {
        4
    } else {
        0
    }
}

/// The score of a post by its text in small letters.
pub open spec fn post_score(raw: Seq<char>, ws: Seq<Seq<char>>) -> nat {
    if holds_all(raw, ws) {
        4
    } else {
        held_count(raw, ws)
    }
}

/// The score of an item, given its path and its body in small letters.
pub fn score_item(path: &Vec<char>, body: &Option<Vec<char>>, ws: &Vec<String>) -> (r: u128)
    ensures
        r == item_score(
            path@,
            match *body {
                Some(b) => Some(b@),
                None => None,
            },
            text::views(ws@),
        ),
        r <= usize::MAX + 16,
{
    let base: u128 = if contains_all(path, ws) {
        10
    } else if contains_any(path, ws) > 0 {
        5
    } else {
        0
    };
    let more: u128 = match body {
        Some(b) => if contains_all(b, ws) {
            6
        } else {
            contains_any(b, ws) as u128
        },
        None => 0,
    };
    base + more
}

/// The score of a thread, given its tag in small letters.
pub fn score_thread(tag: &Vec<char>, ws: &Vec<String>) -> (r: u128)
    ensures
        r == thread_score(tag@, text::views(ws@)),
        r <= 8,
{
    if contains_all(tag, ws) {
        8
    } else if contains_any(tag, ws) > 0 {
        4
    } else {
        0
    }
}

/// The score of a post, given its text in small letters.
pub fn score_post(raw: &Vec<char>, ws: &Vec<String>) -> (r: u128)
    ensures
        r == post_score(raw@, text::views(ws@)),
        r <= usize::MAX + 4,
{
    if contains_all(raw, ws) {
        4
    } else {
        contains_any(raw, ws) as u128
    }
}

// ---------------------------------------------------------------------------
// Hits
// ---------------------------------------------------------------------------

/// A row with the score by which it was found.
pub struct Scored<T> {
    pub score: nat,
    pub row: T,
}

/// The body of an item in small letters.
pub open spec fn lower_body(c: ContentState, key: Seq<char>) -> Option<Seq<char>> {
    match state::body_of(c, key) {
        Some(b) => Some(unicode::lowercase(b)),
        None => None,
    }
}

/// The score of an item of the garden.
pub open spec fn garden_score(c: ContentState, key: Seq<char>, ws: Seq<Seq<char>>) -> nat {
    item_score(unicode::lowercase(unicode::lowercase(key)), lower_body(c, key), ws)
}

/// The first `n` items of the garden that have a score.
pub open spec fn item_hits(c: ContentState, ws: Seq<Seq<char>>, n: int) -> Seq<Scored<ItemHit>>
    decreases n,
{
    if n <= 0 {
        Seq::empty()
    } else {
        let key = c.items@[n - 1]@;
        let score = garden_score(c, key, ws);
        let front = item_hits(c, ws, n - 1);
        if score > 0 {
            front.push(
                Scored { score, row: ItemHit { path: key, body: state::body_of(c, key) } },
            )
        } else {
            front
        }
    }
}

/// Those of the first `n` threads that are public and have a score.
pub open spec fn thread_hits(s: ReducerState, ws: Seq<Seq<char>>, n: int) -> Seq<Scored<ThreadHit>>
    decreases n,
{
    if n <= 0 {
        Seq::empty()
    } else {
        let t = s.forum_threads@[n - 1]@;
        let score = thread_score(unicode::lowercase(t.tag), ws);
        let front = thread_hits(s, ws, n - 1);
        if t.scope is None && score > 0 {
            front.push(
                Scored {
                    score,
                    row: ThreadHit {
                        tag: t.tag,
                        post_count: state::posts_of(s, None, t.tag).len(),
                        last_activity: t.last_ts,
                    },
                },
            )
        } else {
            front
        }
    }
}

/// The first list of posts at or after `i` that holds a post.
pub open spec fn post_home(s: ReducerState, id: Seq<char>, i: int) -> Option<int>
    decreases s.thread_posts@.len() - i,
{
    if i < 0 || i >= s.thread_posts@.len() {
        None
    } else if text::views(s.thread_posts@[i].ids@).contains(id) {
        Some(i)
    } else {
        post_home(s, id, i + 1)
    }
}

/// Whether a reader may see what is posted in a scope.
pub open spec fn scope_visible(
    s: ReducerState,
    scope: Option<Seq<char>>,
    principal: Option<Seq<char>>,
) -> bool {
    match scope {
        None => true,
        Some(room) => match principal {
            Some(u) => state::has_cap(s, room, u, ThreadCapability::View),
            None => false,
        },
    }
}

/// How the thread of a post is named.
pub open spec fn thread_name(scope: Option<Seq<char>>, tag: Seq<char>) -> Seq<char> {
    match scope {
        None => "#"@ + tag,
        Some(room) => room + "/#"@ + tag,
    }
}

/// Those of the first `n` posts that have a score and stand in a thread that the reader may see.
pub open spec fn post_hits(
    s: ReducerState,
    ws: Seq<Seq<char>>,
    principal: Option<Seq<char>>,
    n: int,
) -> Seq<Scored<PostHit>>
    decreases n,
{
    if n <= 0 {
        Seq::empty()
    } else {
        let p = s.ingests@[n - 1]@;
        let score = post_score(unicode::lowercase(p.raw), ws);
        let front = post_hits(s, ws, principal, n - 1);
        match post_home(s, p.id, 0) {
            Some(i) => {
                let home = s.thread_posts@[i];
                if score > 0 && scope_visible(s, home.scope@, principal) {
                    front.push(
                        Scored {
                            score,
                            row: PostHit {
                                thread: thread_name(home.scope@, home.tag@),
                                actor: markup::authorship(p.principal, p.delegate),
                                text: p.raw,
                                ts: p.ts,
                            },
                        },
                    )
                } else {
                    front
                }
            },
            None => front,
        }
    }
}

/// What hits are ordered by: the score, then a time, both descending.
pub open spec fn hit_key(score: nat, ts: int) -> Key {
    Key { major: -score, minor: -ts, text: Seq::empty() }
}

/// The best item hits, highest score first.
pub open spec fn best_items(hits: Seq<Scored<ItemHit>>, limit: nat) -> Seq<ItemHit> {
    let keys = Seq::new(hits.len(), |i: int| hit_key(hits[i].score, 0));
    let rows = Seq::new(hits.len(), |i: int| hits[i].row);
    upto_limit(sort::pick(rows, sort::stable_order(keys)), limit)
}

/// The best thread hits, highest score first, then the most recently active.
pub open spec fn best_threads(hits: Seq<Scored<ThreadHit>>, limit: nat) -> Seq<ThreadHit> {
    let keys = Seq::new(hits.len(), |i: int| hit_key(hits[i].score, hits[i].row.last_activity));
    let rows = Seq::new(hits.len(), |i: int| hits[i].row);
    upto_limit(sort::pick(rows, sort::stable_order(keys)), limit)
}

/// The best post hits, highest score first, then the newest.
pub open spec fn best_posts(hits: Seq<Scored<PostHit>>, limit: nat) -> Seq<PostHit> {
    let keys = Seq::new(hits.len(), |i: int| hit_key(hits[i].score, hits[i].row.ts));
    let rows = Seq::new(hits.len(), |i: int| hits[i].row);
    upto_limit(sort::pick(rows, sort::stable_order(keys)), limit)
}

/// At most the first `limit` rows.
pub open spec fn upto_limit<T>(v: Seq<T>, limit: nat) -> Seq<T> {
    if v.len() <= limit {
        v
    } else {
        v.take(limit as int)
    }
}

// ---------------------------------------------------------------------------
// Searching
// ---------------------------------------------------------------------------

/// Whether a reader may see what is posted in a scope.
pub fn can_view_scope(s: &ReducerState, scope: &ScopeId, principal: Option<&str>) -> (r: bool)
    ensures
        r == scope_visible(*s, scope@, text::opt_str(principal)),
{
    match scope {
        ScopeId::Public => true,
        ScopeId::Room(room) => match principal {
            Some(u) => s.user_has_cap(room.as_str(), u, ThreadCapability::View),
            None => false,
        },
    }
}

fn hit_sort_key(score: u128, ts: i64) -> (r: SortKey)
    requires
        score <= usize::MAX + 16,
    ensures
        r@ == hit_key(score as nat, ts as int),
{
    let r = SortKey { major: -(score as i128), minor: -(ts as i128), text: String::new() };
    assert(r@.text =~= Seq::empty());
    r
}

fn search_items(c: &ContentState, ws: &Vec<String>, limit: usize) -> (r: Vec<ItemRow>)
    ensures
        state::rows(r@) == best_items(
            item_hits(*c, text::views(ws@), c.items@.len() as int),
            limit as nat,
        ),
{
    let ghost wv = text::views(ws@);
    let mut found: Vec<ItemRow> = Vec::new();
    let mut keys: Vec<SortKey> = Vec::new();
    let mut i: usize = 0;
    while i < c.items.len()
        invariant
            i <= c.items.len(),
            wv == text::views(ws@),
            found.len() == keys.len(),
            found.len() == item_hits(*c, wv, i as int).len(),
            forall|j: int|
                0 <= j < found.len() ==> (#[trigger] found@[j])@ == item_hits(*c, wv, i as int)[j].row,
            forall|j: int|
                0 <= j < keys.len() ==> (#[trigger] keys@[j])@ == hit_key(
                    item_hits(*c, wv, i as int)[j].score,
                    0,
                ),
        decreases c.items.len() - i,
    {
        let item: &ItemId = &c.items[i];
        let once: String = unicode::to_lowercase(item.as_str());
        let path: Vec<char> = text::chars(unicode::to_lowercase(once.as_str()).as_str());
        let body: Option<&String> = c.body(item);
        let lower: Option<Vec<char>> = match body {
            Some(b) => Some(text::chars(unicode::to_lowercase(b.as_str()).as_str())),
            None => None,
        };
        let score: u128 = score_item(&path, &lower, ws);
        assert(score == garden_score(*c, item@, wv));
        if score > 0 {
            let row = ItemRow {
                path: item.to_storage_string(),
                body: match body {
                    Some(b) => Some(b.clone()),
                    None => None,
                },
            };
            found.push(row);
            keys.push(hit_sort_key(score, 0));
        }
        i = i + 1;
    }
    let ghost hits = item_hits(*c, wv, c.items@.len() as int);
    let order: Vec<usize> = sort::order_by(&keys);
    proof {
        assert(sort::key_views(keys@) =~= Seq::new(
            hits.len(),
            |i: int| hit_key(hits[i].score, 0),
        ));
    }
    let n: usize = if order.len() <= limit {
        order.len()
    } else {
        limit
    };
    let mut r: Vec<ItemRow> = Vec::new();
    let mut k: usize = 0;
    while k < n
        invariant
            k <= n <= order.len(),
            r.len() == k,
            order@.len() == found@.len(),
            forall|j: int| 0 <= j < order@.len() ==> (#[trigger] order@[j]) < found@.len(),
            forall|j: int| 0 <= j < k ==> (#[trigger] r@[j])@ == found@[order@[j] as int]@,
        decreases n - k,
    {
        let row: &ItemRow = &found[order[k]];
        r.push(ItemRow { path: row.path.clone(), body: state::copy_opt(&row.body) });
        k = k + 1;
    }
    proof {
        let o = sort::ints(order@);
        let all = sort::pick(Seq::new(hits.len(), |i: int| hits[i].row), o);
        assert forall|j: int| 0 <= j < r@.len() implies #[trigger] state::rows(r@)[j] == all[j] by {
            assert(r@[j]@ == found@[order@[j] as int]@);
            assert(o[j] == order@[j] as int);
        }
        assert(state::rows(r@) =~= upto_limit(all, limit as nat));
    }
    r
}

fn search_threads(s: &ReducerState, ws: &Vec<String>, limit: usize) -> (r: Vec<ThreadRow>)
    ensures
        state::rows(r@) == best_threads(
            thread_hits(*s, text::views(ws@), s.forum_threads@.len() as int),
            limit as nat,
        ),
{
    let ghost wv = text::views(ws@);
    let mut found: Vec<ThreadRow> = Vec::new();
    let mut keys: Vec<SortKey> = Vec::new();
    let mut i: usize = 0;
    while i < s.forum_threads.len()
        invariant
            i <= s.forum_threads.len(),
            wv == text::views(ws@),
            found.len() == keys.len(),
            found.len() == thread_hits(*s, wv, i as int).len(),
            forall|j: int|
                0 <= j < found.len() ==> (#[trigger] found@[j])@ == thread_hits(
                    *s,
                    wv,
                    i as int,
                )[j].row,
            forall|j: int|
                0 <= j < keys.len() ==> (#[trigger] keys@[j])@ == hit_key(
                    thread_hits(*s, wv, i as int)[j].score,
                    thread_hits(*s, wv, i as int)[j].row.last_activity,
                ),
        decreases s.forum_threads.len() - i,
    {
        let t = &s.forum_threads[i];
        let public: bool = match t.scope {
            ScopeId::Public => true,
            ScopeId::Room(_) => false,
        };
        let tag: Vec<char> = text::chars(unicode::to_lowercase(t.tag.as_str()).as_str());
        let score: u128 = score_thread(&tag, ws);
        if public && score > 0 {
            let posts: Vec<String> = s.posts_chronological(&ScopeId::Public, t.tag.as_str());
            assert(text::views(posts@).len() == state::posts_of(*s, None, t.tag@).len());
            found.push(
                ThreadRow {
                    tag: t.tag.clone(),
                    post_count: posts.len(),
                    last_activity: t.last_activity_ts,
                },
            );
            keys.push(hit_sort_key(score, t.last_activity_ts));
        }
        i = i + 1;
    }
    let ghost hits = thread_hits(*s, wv, s.forum_threads@.len() as int);
    let order: Vec<usize> = sort::order_by(&keys);
    proof {
        assert(sort::key_views(keys@) =~= Seq::new(
            hits.len(),
            |i: int| hit_key(hits[i].score, hits[i].row.last_activity),
        ));
    }
    let n: usize = if order.len() <= limit {
        order.len()
    } else {
        limit
    };
    let mut r: Vec<ThreadRow> = Vec::new();
    let mut k: usize = 0;
    while k < n
        invariant
            k <= n <= order.len(),
            r.len() == k,
            order@.len() == found@.len(),
            forall|j: int| 0 <= j < order@.len() ==> (#[trigger] order@[j]) < found@.len(),
            forall|j: int| 0 <= j < k ==> (#[trigger] r@[j])@ == found@[order@[j] as int]@,
        decreases n - k,
    {
        let row: &ThreadRow = &found[order[k]];
        r.push(
            ThreadRow {
                tag: row.tag.clone(),
                post_count: row.post_count,
                last_activity: row.last_activity,
            },
        );
        k = k + 1;
    }
    proof {
        let o = sort::ints(order@);
        let all = sort::pick(Seq::new(hits.len(), |i: int| hits[i].row), o);
        assert forall|j: int| 0 <= j < r@.len() implies #[trigger] state::rows(r@)[j] == all[j] by {
            assert(r@[j]@ == found@[order@[j] as int]@);
            assert(o[j] == order@[j] as int);
        }
        assert(state::rows(r@) =~= upto_limit(all, limit as nat));
    }
    r
}

fn home_of_post(s: &ReducerState, id: &str) -> (r: Option<usize>)
    ensures
        match r {
            Some(i) => post_home(*s, id@, 0) == Some(i as int) && i < s.thread_posts@.len(),
            None => post_home(*s, id@, 0) is None,
        },
{
    let mut i: usize = 0;
    while i < s.thread_posts.len()
        invariant
            i <= s.thread_posts.len(),
            post_home(*s, id@, 0) == post_home(*s, id@, i as int),
        decreases s.thread_posts.len() - i,
    {
        if text::contains(&s.thread_posts[i].ids, id) {
            return Some(i);
        }
        i = i + 1;
    }
    None
}

fn search_posts(s: &ReducerState, ws: &Vec<String>, limit: usize, principal: Option<&str>) -> (r:
    Vec<PostRow>)
    ensures
        state::rows(r@) == best_posts(
            post_hits(*s, text::views(ws@), text::opt_str(principal), s.ingests@.len() as int),
            limit as nat,
        ),
{
    let ghost wv = text::views(ws@);
    let ghost pv = text::opt_str(principal);
    let mut found: Vec<PostRow> = Vec::new();
    let mut keys: Vec<SortKey> = Vec::new();
    let mut i: usize = 0;
    while i < s.ingests.len()
        invariant
            i <= s.ingests.len(),
            wv == text::views(ws@),
            pv == text::opt_str(principal),
            found.len() == keys.len(),
            found.len() == post_hits(*s, wv, pv, i as int).len(),
            forall|j: int|
                0 <= j < found.len() ==> (#[trigger] found@[j])@ == post_hits(
                    *s,
                    wv,
                    pv,
                    i as int,
                )[j].row,
            forall|j: int|
                0 <= j < keys.len() ==> (#[trigger] keys@[j])@ == hit_key(
                    post_hits(*s, wv, pv, i as int)[j].score,
                    post_hits(*s, wv, pv, i as int)[j].row.ts,
                ),
        decreases s.ingests.len() - i,
    {
        let p = &s.ingests[i];
        let raw: Vec<char> = text::chars(unicode::to_lowercase(p.raw.as_str()).as_str());
        let score: u128 = score_post(&raw, ws);
        if score > 0 {
            match home_of_post(s, p.id.as_str()) {
                Some(h) => {
                    let home = &s.thread_posts[h];
                    if can_view_scope(s, &home.scope, principal) {
                        let thread: String = match &home.scope {
                            ScopeId::Public => text::cat("#", home.tag.as_str()),
                            ScopeId::Room(room) => text::cat3(
                                room.as_str(),
                                "/#",
                                home.tag.as_str(),
                            ),
                        };
                        found.push(
                            PostRow {
                                thread,
                                actor_display: markup::authorship_address(
                                    p.principal.as_str(),
                                    &p.delegate,
                                ),
                                text: p.raw.clone(),
                                ts: p.ts,
                            },
                        );
                        keys.push(hit_sort_key(score, p.ts));
                    }
                },
                None => {},
            }
        }
        i = i + 1;
    }
    let ghost hits = post_hits(*s, wv, pv, s.ingests@.len() as int);
    let order: Vec<usize> = sort::order_by(&keys);
    proof {
        assert(sort::key_views(keys@) =~= Seq::new(
            hits.len(),
            |i: int| hit_key(hits[i].score, hits[i].row.ts),
        ));
    }
    let n: usize = if order.len() <= limit {
        order.len()
    } else {
        limit
    };
    let mut r: Vec<PostRow> = Vec::new();
    let mut k: usize = 0;
    while k < n
        invariant
            k <= n <= order.len(),
            r.len() == k,
            order@.len() == found@.len(),
            forall|j: int| 0 <= j < order@.len() ==> (#[trigger] order@[j]) < found@.len(),
            forall|j: int| 0 <= j < k ==> (#[trigger] r@[j])@ == found@[order@[j] as int]@,
        decreases n - k,
    {
        let row: &PostRow = &found[order[k]];
        r.push(
            PostRow {
                thread: row.thread.clone(),
                actor_display: row.actor_display.clone(),
                text: row.text.clone(),
                ts: row.ts,
            },
        );
        k = k + 1;
    }
    proof {
        let o = sort::ints(order@);
        let all = sort::pick(Seq::new(hits.len(), |i: int| hits[i].row), o);
        assert forall|j: int| 0 <= j < r@.len() implies #[trigger] state::rows(r@)[j] == all[j] by {
            assert(r@[j]@ == found@[order@[j] as int]@);
            assert(o[j] == order@[j] as int);
        }
        assert(state::rows(r@) =~= upto_limit(all, limit as nat));
    }
    r
}

/// Whether results are those for the given words.
pub open spec fn are_results(
    r: SearchResults,
    s: ReducerState,
    ws: Seq<Seq<char>>,
    limit: nat,
    principal: Option<Seq<char>>,
) -> bool {
    if ws.len() == 0 {
        r.items@.len() == 0 && r.threads@.len() == 0 && r.posts@.len() == 0
    } else {
        &&& state::rows(r.items@) == best_items(
            item_hits(s.public_content, ws, s.public_content.items@.len() as int),
            limit,
        )
        &&& state::rows(r.threads@) == best_threads(
            thread_hits(s, ws, s.forum_threads@.len() as int),
            limit,
        )
        &&& state::rows(r.posts@) == best_posts(
            post_hits(s, ws, principal, s.ingests@.len() as int),
            limit,
        )
    }
}

/// Searches for given words in small letters.
pub fn search_words(s: &ReducerState, ws: &Vec<String>, limit: usize, principal: Option<&str>) -> (r:
    SearchResults)
    ensures
        are_results(r, *s, text::views(ws@), limit as nat, text::opt_str(principal)),
{
    assert(text::views(ws@).len() == ws@.len());
    if ws.len() == 0 {
        return SearchResults { items: Vec::new(), threads: Vec::new(), posts: Vec::new() };
    }
    SearchResults {
        items: search_items(&s.public_content, ws, limit),
        threads: search_threads(s, ws, limit),
        posts: search_posts(s, ws, limit, principal),
    }
}

/// Searches for the words of a query.
pub fn search(s: &ReducerState, q: &str, limit: usize, principal: Option<&str>) -> (r:
    SearchResults)
    ensures
        are_results(r, *s, query_words(q@), limit as nat, text::opt_str(principal)),
{
    let ws: Vec<String> = tokenize(q);
    search_words(s, &ws, limit, principal)
}

/// The text of a query; nothing where there is none.
pub open spec fn query_text(q: SearchQuery) -> Seq<char> {
    match q.q {
        Some(s) => s@,
        None => Seq::empty(),
    }
}

/// What a search page shows: nothing for a query of fewer than two bytes.
pub fn search_request(s: &ReducerState, params: &SearchQuery, principal: Option<&str>) -> (r:
    SearchResults)
    ensures
        are_results(
            r,
            *s,
            if encode_utf8(query_text(*params)).len() >= 2 {
                query_words(query_text(*params))
            } else {
                Seq::empty()
            },
            SEARCH_LIMIT as nat,
            text::opt_str(principal),
        ),
{
    let q: String = match &params.q {
        Some(t) => t.clone(),
        None => String::new(),
    };
    if q.as_str().as_bytes().len() >= 2 {
        search(s, q.as_str(), SEARCH_LIMIT, principal)
    } else {
        SearchResults { items: Vec::new(), threads: Vec::new(), posts: Vec::new() }
    }
}

// ---------------------------------------------------------------------------
// Laws
// ---------------------------------------------------------------------------

proof fn lemma_post_hits_visible(
    s: ReducerState,
    ws: Seq<Seq<char>>,
    principal: Option<Seq<char>>,
    n: int,
)
    requires
        n <= s.ingests@.len(),
    ensures
        forall|i: int|
            0 <= i < post_hits(s, ws, principal, n).len() ==> is_visible_hit(
                s,
                principal,
                #[trigger] post_hits(s, ws, principal, n)[i].row,
            ),
    decreases n,
{
    if n > 0 {
        lemma_post_hits_visible(s, ws, principal, n - 1);
        let p = s.ingests@[n - 1]@;
        lemma_post_home(s, p.id, 0);
        let front = post_hits(s, ws, principal, n - 1);
        let all = post_hits(s, ws, principal, n);
        assert forall|i: int| 0 <= i < all.len() implies is_visible_hit(
            s,
            principal,
            #[trigger] all[i].row,
        ) by {
            if i < front.len() {
                assert(all[i] == front[i]);
            } else {
                let h = post_home(s, p.id, 0).unwrap();
                let home = s.thread_posts@[h];
                assert(scope_visible(s, home.scope@, principal));
            }
        }
    }
}

proof fn lemma_post_home(s: ReducerState, id: Seq<char>, i: int)
    requires
        0 <= i,
    ensures
        match post_home(s, id, i) {
            Some(h) => i <= h < s.thread_posts@.len() && text::views(
                s.thread_posts@[h].ids@,
            ).contains(id),
            None => true,
        },
    decreases s.thread_posts@.len() - i,
{
    if i < s.thread_posts@.len() && !text::views(s.thread_posts@[i].ids@).contains(id) {
        lemma_post_home(s, id, i + 1);
    }
}

/// Whether a hit stands in a thread whose scope the reader may see.
pub open spec fn is_visible_hit(s: ReducerState, principal: Option<Seq<char>>, hit: PostHit) -> bool {
    exists|h: int|
        0 <= h < s.thread_posts@.len() && scope_visible(
            s,
            (#[trigger] s.thread_posts@[h]).scope@,
            principal,
        ) && hit.thread == thread_name(s.thread_posts@[h].scope@, s.thread_posts@[h].tag@)
}

/// Every post that a search shows stands in a thread that the reader may see.
pub proof fn law_search_shows_only_visible_posts(
    s: ReducerState,
    ws: Seq<Seq<char>>,
    principal: Option<Seq<char>>,
    limit: nat,
)
    ensures
        forall|i: int|
            0 <= i < best_posts(
                post_hits(s, ws, principal, s.ingests@.len() as int),
                limit,
            ).len() ==> is_visible_hit(
                s,
                principal,
                #[trigger] best_posts(
                    post_hits(s, ws, principal, s.ingests@.len() as int),
                    limit,
                )[i],
            ),
{
    let hits = post_hits(s, ws, principal, s.ingests@.len() as int);
    lemma_post_hits_visible(s, ws, principal, s.ingests@.len() as int);
    let keys = Seq::new(hits.len(), |i: int| hit_key(hits[i].score, hits[i].row.ts));
    let order = sort::stable_order(keys);
    sort::lemma_stable_order(keys);
    let best = best_posts(hits, limit);
    assert forall|i: int| 0 <= i < best.len() implies is_visible_hit(
        s,
        principal,
        #[trigger] best[i],
    ) by {
        assert(0 <= order[i] < hits.len());
        assert(best[i] == hits[order[i]].row);
    }
}

/// A search shows at most `limit` results of each kind.
pub proof fn law_search_respects_limit(
    r: SearchResults,
    s: ReducerState,
    ws: Seq<Seq<char>>,
    limit: nat,
    principal: Option<Seq<char>>,
)
    requires
        are_results(r, s, ws, limit, principal),
    ensures
        r.items@.len() <= limit,
        r.threads@.len() <= limit,
        r.posts@.len() <= limit,
{
    assert(state::rows(r.items@).len() == r.items@.len());
    assert(state::rows(r.threads@).len() == r.threads@.len());
    assert(state::rows(r.posts@).len() == r.posts@.len());
}

/// What scores are made of. An item has ten for a path that holds every word, or five for one
/// that holds some, and six for a body that holds every word, or one for each word that it
/// holds. A thread has eight or four by its tag, and a post four or one for each word.
#[verifier::rlimit(50)]
pub proof fn law_scores(t: Seq<char>, body: Seq<char>, ws: Seq<Seq<char>>)
    ensures
        ({
            let all = forall|i: int| 0 <= i < ws.len() ==> text::has(t, #[trigger] ws[i]);
            let some = exists|i: int| 0 <= i < ws.len() && text::has(t, #[trigger] ws[i]);
            let body_all = forall|i: int| 0 <= i < ws.len() ==> text::has(body, #[trigger] ws[i]);
            &&& item_score(t, None, ws) == if all {
                10nat
            } else if some {
                5
            } else {
                0
            }
            &&& item_score(t, Some(body), ws) == item_score(t, None, ws) + if body_all {
                6
            } else {
                ws.filter(|w: Seq<char>| text::has(body, w)).len()
            }
            &&& thread_score(t, ws) == if all {
                8nat
            } else if some {
                4
            } else {
                0
            }
            &&& post_score(t, ws) == if all {
                4nat
            } else {
                ws.filter(|w: Seq<char>| text::has(t, w)).len()
            }
        }),
{
    lemma_held_count(t, ws);
    lemma_held_count(body, ws);
}

proof fn lemma_held_count(t: Seq<char>, ws: Seq<Seq<char>>)
    ensures
        held_count(t, ws) == ws.filter(|w: Seq<char>| text::has(t, w)).len(),
        held_count(t, ws) > 0 <==> exists|i: int|
            0 <= i < ws.len() && text::has(t, #[trigger] ws[i]),
    decreases ws.len(),
{
    reveal(Seq::filter);
    if ws.len() > 0 {
        let front = ws.drop_last();
        lemma_held_count(t, front);
        if text::has(t, ws.last()) {
            assert(text::has(t, ws[ws.len() - 1]));
        } else if held_count(t, front) > 0 {
            let i = choose|i: int| 0 <= i < front.len() && text::has(t, #[trigger] front[i]);
            assert(text::has(t, ws[i]));
        } else {
            assert forall|i: int| 0 <= i < ws.len() implies !text::has(t, #[trigger] ws[i]) by {
                if i < front.len() {
                    assert(front[i] == ws[i]);
                }
            }
        }
    }
}

proof fn lemma_order(keys: Seq<Key>)
    ensures
        ({
            let o = sort::stable_order(keys);
            &&& o.len() == keys.len()
            &&& forall|i: int| 0 <= i < o.len() ==> 0 <= #[trigger] o[i] < keys.len()
            &&& forall|i: int, j: int|
                0 <= i < j < o.len() ==> !sort::key_lt(
                    keys[#[trigger] o[j]],
                    keys[#[trigger] o[i]],
                )
        }),
        sort::is_permutation(sort::stable_order(keys), keys.len() as int),
{
    sort::lemma_stable_order(keys);
    let o = sort::stable_order(keys);
    assert forall|i: int, j: int| 0 <= i < j < o.len() implies !sort::key_lt(
        keys[#[trigger] o[j]],
        keys[#[trigger] o[i]],
    ) by {
        sort::lemma_key_order(keys[o[i]], keys[o[j]], keys[o[i]]);
    }
}

/// Whether a hit is the item at place `m` of a garden, with its body.
pub open spec fn is_item_row(c: ContentState, m: int, hit: ItemHit) -> bool {
    &&& 0 <= m < c.items@.len()
    &&& hit.path == c.items@[m]@
    &&& hit.body == state::body_of(c, hit.path)
}

#[verifier::rlimit(50)]
proof fn lemma_item_hits(c: ContentState, ws: Seq<Seq<char>>, n: int)
    requires
        0 <= n <= c.items@.len(),
    ensures
        forall|h: int|
            0 <= h < item_hits(c, ws, n).len() ==> {
                let x = #[trigger] item_hits(c, ws, n)[h];
                (exists|m: int| #[trigger] is_item_row(c, m, x.row) && m < n) && x.score
                    == garden_score(c, x.row.path, ws) && x.score > 0
            },
        forall|m: int, hit: ItemHit|
            m < n && #[trigger] is_item_row(c, m, hit) && garden_score(c, hit.path, ws) > 0
                ==> exists|h: int|
                0 <= h < item_hits(c, ws, n).len() && (#[trigger] item_hits(c, ws, n)[h]).row
                    == hit,
    decreases n,
{
    if n > 0 {
        lemma_item_hits(c, ws, n - 1);
        let front = item_hits(c, ws, n - 1);
        let all = item_hits(c, ws, n);
        assert forall|h: int| 0 <= h < all.len() implies {
            let x = #[trigger] all[h];
            (exists|m: int| #[trigger] is_item_row(c, m, x.row) && m < n) && x.score
                == garden_score(c, x.row.path, ws) && x.score > 0
        } by {
            if h < front.len() {
                assert(all[h] == front[h]);
            } else {
                assert(is_item_row(c, n - 1, all[h].row));
            }
        }
        assert forall|m: int, hit: ItemHit|
            m < n && #[trigger] is_item_row(c, m, hit) && garden_score(c, hit.path, ws)
                > 0 implies exists|h: int| 0 <= h < all.len() && (#[trigger] all[h]).row == hit by {
            if m < n - 1 {
                let h = choose|h: int| 0 <= h < front.len() && (#[trigger] front[h]).row == hit;
                assert(all[h] == front[h]);
            } else {
                assert(all[all.len() - 1].row == hit);
            }
        }
    }
}

/// The items of a search are items of the public garden with a score, the highest score first.
/// Every item with a score is among them, unless the limit is reached by items that score at
/// least as high.
#[verifier::rlimit(50)]
pub proof fn law_best_items_first(
    r: SearchResults,
    s: ReducerState,
    ws: Seq<Seq<char>>,
    limit: nat,
    principal: Option<Seq<char>>,
)
    requires
        are_results(r, s, ws, limit, principal),
        ws.len() > 0,
    ensures
        r.items@.len() <= limit,
        forall|i: int, j: int|
            0 <= i < j < r.items@.len() ==> garden_score(
                s.public_content,
                (#[trigger] r.items@[i])@.path,
                ws,
            ) >= garden_score(s.public_content, (#[trigger] r.items@[j])@.path, ws),
        forall|i: int|
            0 <= i < r.items@.len() ==> garden_score(
                s.public_content,
                (#[trigger] r.items@[i])@.path,
                ws,
            ) > 0 && exists|m: int| #[trigger] is_item_row(s.public_content, m, r.items@[i]@),
        forall|m: int, hit: ItemHit|
            #[trigger] is_item_row(s.public_content, m, hit) && garden_score(
                s.public_content,
                hit.path,
                ws,
            ) > 0 ==> (exists|i: int| 0 <= i < r.items@.len() && (#[trigger] r.items@[i])@ == hit)
                || (r.items@.len() == limit && forall|i: int|
                0 <= i < r.items@.len() ==> garden_score(
                    s.public_content,
                    (#[trigger] r.items@[i])@.path,
                    ws,
                ) >= garden_score(s.public_content, hit.path, ws)),
{
    let c = s.public_content;
    let n = c.items@.len() as int;
    let hits = item_hits(c, ws, n);
    lemma_item_hits(c, ws, n);
    let keys = Seq::new(hits.len(), |i: int| hit_key(hits[i].score, 0));
    lemma_order(keys);
    let o = sort::stable_order(keys);
    let shown = state::rows(r.items@);
    assert(shown.len() == r.items@.len());
    assert forall|i: int| 0 <= i < r.items@.len() implies (#[trigger] r.items@[i])@
        == hits[o[i]].row && 0 <= o[i] < hits.len() by {
        assert(shown[i] == r.items@[i]@);
        assert(shown[i] == hits[o[i]].row);
    }
    assert forall|i: int, j: int| 0 <= i < j < r.items@.len() implies garden_score(
        c,
        (#[trigger] r.items@[i])@.path,
        ws,
    ) >= garden_score(c, (#[trigger] r.items@[j])@.path, ws) by {
        assert(!sort::key_lt(keys[o[j]], keys[o[i]]));
        assert(r.items@[i]@ == hits[o[i]].row && r.items@[j]@ == hits[o[j]].row);
    }
    assert forall|i: int| 0 <= i < r.items@.len() implies garden_score(
        c,
        (#[trigger] r.items@[i])@.path,
        ws,
    ) > 0 && exists|m: int| #[trigger] is_item_row(c, m, r.items@[i]@) by {
        assert(r.items@[i]@ == hits[o[i]].row);
    }
    assert forall|m: int, hit: ItemHit|
        #[trigger] is_item_row(c, m, hit) && garden_score(c, hit.path, ws) > 0 implies (exists|
        i: int,
    |
        0 <= i < r.items@.len() && (#[trigger] r.items@[i])@ == hit) || (r.items@.len() == limit
        && forall|i: int|
        0 <= i < r.items@.len() ==> garden_score(c, (#[trigger] r.items@[i])@.path, ws)
            >= garden_score(c, hit.path, ws)) by {
        let h = choose|h: int| 0 <= h < hits.len() && (#[trigger] hits[h]).row == hit;
        sort::lemma_permutation_covers(o, keys.len() as int, h);
        let k = choose|k: int| 0 <= k < o.len() && #[trigger] o[k] == h;
        if k < r.items@.len() {
            assert(r.items@[k]@ == hit);
        } else {
            assert forall|i: int| 0 <= i < r.items@.len() implies garden_score(
                c,
                (#[trigger] r.items@[i])@.path,
                ws,
            ) >= garden_score(c, hit.path, ws) by {
                assert(!sort::key_lt(keys[o[k]], keys[o[i]]));
                assert(r.items@[i]@ == hits[o[i]].row);
                assert(hits[h].score == garden_score(c, hits[h].row.path, ws));
            }
        }
    }
}

#[verifier::rlimit(50)]
proof fn lemma_thread_hits(s: ReducerState, ws: Seq<Seq<char>>, n: int)
    requires
        0 <= n <= s.forum_threads@.len(),
    ensures
        forall|h: int|
            0 <= h < thread_hits(s, ws, n).len() ==> {
                let x = #[trigger] thread_hits(s, ws, n)[h];
                (exists|m: int| #[trigger] is_thread_row(s, m, x.row) && m < n) && x.score
                    == thread_score(unicode::lowercase(x.row.tag), ws) && x.score > 0
            },
        forall|m: int, hit: ThreadHit|
            m < n && #[trigger] is_thread_row(s, m, hit) && thread_score(
                unicode::lowercase(hit.tag),
                ws,
            ) > 0 ==> exists|h: int|
                0 <= h < thread_hits(s, ws, n).len() && (#[trigger] thread_hits(s, ws, n)[h]).row
                    == hit,
    decreases n,
{
    if n > 0 {
        lemma_thread_hits(s, ws, n - 1);
        let front = thread_hits(s, ws, n - 1);
        let all = thread_hits(s, ws, n);
        assert forall|h: int| 0 <= h < all.len() implies {
            let x = #[trigger] all[h];
            (exists|m: int| #[trigger] is_thread_row(s, m, x.row) && m < n) && x.score
                == thread_score(unicode::lowercase(x.row.tag), ws) && x.score > 0
        } by {
            if h < front.len() {
                assert(all[h] == front[h]);
            } else {
                assert(is_thread_row(s, n - 1, all[h].row));
            }
        }
        assert forall|m: int, hit: ThreadHit|
            m < n && #[trigger] is_thread_row(s, m, hit) && thread_score(
                unicode::lowercase(hit.tag),
                ws,
            ) > 0 implies exists|h: int| 0 <= h < all.len() && (#[trigger] all[h]).row == hit by {
            if m < n - 1 {
                let h = choose|h: int| 0 <= h < front.len() && (#[trigger] front[h]).row == hit;
                assert(all[h] == front[h]);
            } else {
                assert(all[all.len() - 1].row == hit);
            }
        }
    }
}

/// Whether a hit is the public thread at place `m`, with the number of its posts and the time of
/// its last activity.
pub open spec fn is_thread_row(s: ReducerState, m: int, hit: ThreadHit) -> bool {
    &&& 0 <= m < s.forum_threads@.len()
    &&& s.forum_threads@[m].scope@ is None
    &&& hit.tag == s.forum_threads@[m].tag@
    &&& hit.post_count == state::posts_of(s, None, hit.tag).len()
    &&& hit.last_activity == s.forum_threads@[m].last_activity_ts
}

/// Whether one hit stands rightly before another: it scores higher, or as high and is no older.
pub open spec fn no_worse(score: nat, ts: int, other: nat, other_ts: int) -> bool {
    score > other || (score == other && ts >= other_ts)
}

/// The threads of a search are public threads with a score, the highest score first, and of
/// equal scores the latest activity first. Every public thread with a score is among them,
/// unless the limit is reached by threads that come no later.
#[verifier::rlimit(50)]
pub proof fn law_best_threads_first(
    r: SearchResults,
    s: ReducerState,
    ws: Seq<Seq<char>>,
    limit: nat,
    principal: Option<Seq<char>>,
)
    requires
        are_results(r, s, ws, limit, principal),
        ws.len() > 0,
    ensures
        r.threads@.len() <= limit,
        forall|i: int, j: int|
            0 <= i < j < r.threads@.len() ==> no_worse(
                thread_score(unicode::lowercase((#[trigger] r.threads@[i]).tag@), ws),
                r.threads@[i].last_activity as int,
                thread_score(unicode::lowercase((#[trigger] r.threads@[j]).tag@), ws),
                r.threads@[j].last_activity as int,
            ),
        forall|i: int|
            0 <= i < r.threads@.len() ==> thread_score(
                unicode::lowercase((#[trigger] r.threads@[i]).tag@),
                ws,
            ) > 0 && exists|m: int| #[trigger] is_thread_row(s, m, r.threads@[i]@),
        forall|m: int, hit: ThreadHit|
            #[trigger] is_thread_row(s, m, hit) && thread_score(unicode::lowercase(hit.tag), ws)
                > 0 ==> (exists|i: int|
                0 <= i < r.threads@.len() && (#[trigger] r.threads@[i])@ == hit) || (
            r.threads@.len() == limit && forall|i: int|
                0 <= i < r.threads@.len() ==> no_worse(
                    thread_score(unicode::lowercase((#[trigger] r.threads@[i]).tag@), ws),
                    r.threads@[i].last_activity as int,
                    thread_score(unicode::lowercase(hit.tag), ws),
                    hit.last_activity,
                )),
{
    let n = s.forum_threads@.len() as int;
    let hits = thread_hits(s, ws, n);
    lemma_thread_hits(s, ws, n);
    let keys = Seq::new(hits.len(), |i: int| hit_key(hits[i].score, hits[i].row.last_activity));
    lemma_order(keys);
    let o = sort::stable_order(keys);
    let shown = state::rows(r.threads@);
    assert(shown.len() == r.threads@.len());
    assert forall|i: int| 0 <= i < r.threads@.len() implies (#[trigger] r.threads@[i])@
        == hits[o[i]].row && 0 <= o[i] < hits.len() by {
        assert(shown[i] == r.threads@[i]@);
        assert(shown[i] == hits[o[i]].row);
    }
    assert forall|i: int, j: int| 0 <= i < j < r.threads@.len() implies no_worse(
        thread_score(unicode::lowercase((#[trigger] r.threads@[i]).tag@), ws),
        r.threads@[i].last_activity as int,
        thread_score(unicode::lowercase((#[trigger] r.threads@[j]).tag@), ws),
        r.threads@[j].last_activity as int,
    ) by {
        assert(!sort::key_lt(keys[o[j]], keys[o[i]]));
        assert(r.threads@[i]@ == hits[o[i]].row && r.threads@[j]@ == hits[o[j]].row);
    }
    assert forall|i: int| 0 <= i < r.threads@.len() implies thread_score(
        unicode::lowercase((#[trigger] r.threads@[i]).tag@),
        ws,
    ) > 0 && exists|m: int| #[trigger] is_thread_row(s, m, r.threads@[i]@) by {
        assert(r.threads@[i]@ == hits[o[i]].row);
    }
    assert forall|m: int, hit: ThreadHit|
        #[trigger] is_thread_row(s, m, hit) && thread_score(unicode::lowercase(hit.tag), ws)
            > 0 implies (exists|i: int| 0 <= i < r.threads@.len() && (#[trigger] r.threads@[i])@ == hit)
        || (r.threads@.len() == limit && forall|i: int|
        0 <= i < r.threads@.len() ==> no_worse(
            thread_score(unicode::lowercase((#[trigger] r.threads@[i]).tag@), ws),
            r.threads@[i].last_activity as int,
            thread_score(unicode::lowercase(hit.tag), ws),
            hit.last_activity,
        )) by {
        let h = choose|h: int| 0 <= h < hits.len() && (#[trigger] hits[h]).row == hit;
        sort::lemma_permutation_covers(o, keys.len() as int, h);
        let k = choose|k: int| 0 <= k < o.len() && #[trigger] o[k] == h;
        if k < r.threads@.len() {
            assert(r.threads@[k]@ == hit);
        } else {
            assert forall|i: int| 0 <= i < r.threads@.len() implies no_worse(
                thread_score(unicode::lowercase((#[trigger] r.threads@[i]).tag@), ws),
                r.threads@[i].last_activity as int,
                thread_score(unicode::lowercase(hit.tag), ws),
                hit.last_activity,
            ) by {
                assert(!sort::key_lt(keys[o[k]], keys[o[i]]));
                assert(r.threads@[i]@ == hits[o[i]].row);
                assert(hits[h].score == thread_score(unicode::lowercase(hits[h].row.tag), ws));
            }
        }
    }
}

/// Whether a hit is the post at place `m`, found in the first list of posts that names it, where
/// that list is public or the reader may view its room.
pub open spec fn is_post_row(
    s: ReducerState,
    principal: Option<Seq<char>>,
    m: int,
    t: int,
    hit: PostHit,
) -> bool {
    &&& 0 <= m < s.ingests@.len()
    &&& 0 <= t < s.thread_posts@.len()
    &&& text::views(s.thread_posts@[t].ids@).contains(s.ingests@[m].id@)
    &&& forall|k: int|
        0 <= k < t ==> !text::views((#[trigger] s.thread_posts@[k]).ids@).contains(
            s.ingests@[m].id@,
        )
    &&& match s.thread_posts@[t].scope@ {
        None => hit.thread == "#"@ + s.thread_posts@[t].tag@,
        Some(room) => principal is Some && state::has_cap(
            s,
            room,
            principal.unwrap(),
            ThreadCapability::View,
        ) && hit.thread == room + "/#"@ + s.thread_posts@[t].tag@,
    }
    &&& hit.actor == markup::authorship(s.ingests@[m]@.principal, s.ingests@[m]@.delegate)
    &&& hit.text == s.ingests@[m].raw@
    &&& hit.ts == s.ingests@[m].ts
}

proof fn lemma_first_home(s: ReducerState, id: Seq<char>, i: int)
    requires
        0 <= i,
    ensures
        match post_home(s, id, i) {
            Some(h) => i <= h < s.thread_posts@.len() && text::views(
                s.thread_posts@[h].ids@,
            ).contains(id) && forall|k: int|
                i <= k < h ==> !text::views((#[trigger] s.thread_posts@[k]).ids@).contains(id),
            None => forall|k: int|
                i <= k < s.thread_posts@.len() ==> !text::views(
                    (#[trigger] s.thread_posts@[k]).ids@,
                ).contains(id),
        },
    decreases s.thread_posts@.len() - i,
{
    if i < s.thread_posts@.len() && !text::views(s.thread_posts@[i].ids@).contains(id) {
        lemma_first_home(s, id, i + 1);
    }
}

#[verifier::rlimit(50)]
proof fn lemma_post_hits(s: ReducerState, ws: Seq<Seq<char>>, principal: Option<Seq<char>>, n: int)
    requires
        0 <= n <= s.ingests@.len(),
    ensures
        forall|h: int|
            0 <= h < post_hits(s, ws, principal, n).len() ==> {
                let x = #[trigger] post_hits(s, ws, principal, n)[h];
                (exists|m: int, t: int| #[trigger] is_post_row(s, principal, m, t, x.row) && m < n)
                    && x.score == post_score(unicode::lowercase(x.row.text), ws) && x.score > 0
            },
        forall|m: int, t: int, hit: PostHit|
            m < n && #[trigger] is_post_row(s, principal, m, t, hit) && post_score(
                unicode::lowercase(hit.text),
                ws,
            ) > 0 ==> exists|h: int|
                0 <= h < post_hits(s, ws, principal, n).len() && (#[trigger] post_hits(
                    s,
                    ws,
                    principal,
                    n,
                )[h]).row == hit,
    decreases n,
{
    if n > 0 {
        lemma_post_hits(s, ws, principal, n - 1);
        let front = post_hits(s, ws, principal, n - 1);
        let all = post_hits(s, ws, principal, n);
        let id = s.ingests@[n - 1].id@;
        lemma_first_home(s, id, 0);
        assert forall|h: int| 0 <= h < all.len() implies {
            let x = #[trigger] all[h];
            (exists|m: int, t: int| #[trigger] is_post_row(s, principal, m, t, x.row) && m < n)
                && x.score == post_score(unicode::lowercase(x.row.text), ws) && x.score > 0
        } by {
            if h < front.len() {
                assert(all[h] == front[h]);
            } else {
                let t = post_home(s, id, 0).unwrap();
                assert(is_post_row(s, principal, n - 1, t, all[h].row));
            }
        }
        assert forall|m: int, t: int, hit: PostHit|
            m < n && #[trigger] is_post_row(s, principal, m, t, hit) && post_score(
                unicode::lowercase(hit.text),
                ws,
            ) > 0 implies exists|h: int| 0 <= h < all.len() && (#[trigger] all[h]).row == hit by {
            if m < n - 1 {
                let h = choose|h: int| 0 <= h < front.len() && (#[trigger] front[h]).row == hit;
                assert(all[h] == front[h]);
            } else {
                let u = post_home(s, id, 0).unwrap();
                if t < u {
                    assert(!text::views(s.thread_posts@[t].ids@).contains(id));
                }
                if u < t {
                    assert(!text::views(s.thread_posts@[u].ids@).contains(id));
                }
                assert(t == u);
                assert(all[all.len() - 1].row == hit);
            }
        }
    }
}

/// The posts of a search stand in threads that the reader may see and have a score, the highest
/// score first, and of equal scores the newest first. Every such post is among them, unless the
/// limit is reached by posts that come no later.
#[verifier::rlimit(50)]
pub proof fn law_best_posts_first(
    r: SearchResults,
    s: ReducerState,
    ws: Seq<Seq<char>>,
    limit: nat,
    principal: Option<Seq<char>>,
)
    requires
        are_results(r, s, ws, limit, principal),
        ws.len() > 0,
    ensures
        r.posts@.len() <= limit,
        forall|i: int, j: int|
            0 <= i < j < r.posts@.len() ==> no_worse(
                post_score(unicode::lowercase((#[trigger] r.posts@[i]).text@), ws),
                r.posts@[i].ts as int,
                post_score(unicode::lowercase((#[trigger] r.posts@[j]).text@), ws),
                r.posts@[j].ts as int,
            ),
        forall|i: int|
            0 <= i < r.posts@.len() ==> post_score(
                unicode::lowercase((#[trigger] r.posts@[i]).text@),
                ws,
            ) > 0 && exists|m: int, t: int|
                #[trigger] is_post_row(s, principal, m, t, r.posts@[i]@),
        forall|m: int, t: int, hit: PostHit|
            #[trigger] is_post_row(s, principal, m, t, hit) && post_score(
                unicode::lowercase(hit.text),
                ws,
            ) > 0 ==> (exists|i: int| 0 <= i < r.posts@.len() && (#[trigger] r.posts@[i])@ == hit)
                || (r.posts@.len() == limit && forall|i: int|
                0 <= i < r.posts@.len() ==> no_worse(
                    post_score(unicode::lowercase((#[trigger] r.posts@[i]).text@), ws),
                    r.posts@[i].ts as int,
                    post_score(unicode::lowercase(hit.text), ws),
                    hit.ts,
                )),
{
    let n = s.ingests@.len() as int;
    let hits = post_hits(s, ws, principal, n);
    lemma_post_hits(s, ws, principal, n);
    let keys = Seq::new(hits.len(), |i: int| hit_key(hits[i].score, hits[i].row.ts));
    lemma_order(keys);
    let o = sort::stable_order(keys);
    let shown = state::rows(r.posts@);
    assert(shown.len() == r.posts@.len());
    assert forall|i: int| 0 <= i < r.posts@.len() implies (#[trigger] r.posts@[i])@
        == hits[o[i]].row && 0 <= o[i] < hits.len() by {
        assert(shown[i] == r.posts@[i]@);
        assert(shown[i] == hits[o[i]].row);
    }
    assert forall|i: int, j: int| 0 <= i < j < r.posts@.len() implies no_worse(
        post_score(unicode::lowercase((#[trigger] r.posts@[i]).text@), ws),
        r.posts@[i].ts as int,
        post_score(unicode::lowercase((#[trigger] r.posts@[j]).text@), ws),
        r.posts@[j].ts as int,
    ) by {
        assert(!sort::key_lt(keys[o[j]], keys[o[i]]));
        assert(r.posts@[i]@ == hits[o[i]].row && r.posts@[j]@ == hits[o[j]].row);
    }
    assert forall|i: int| 0 <= i < r.posts@.len() implies post_score(
        unicode::lowercase((#[trigger] r.posts@[i]).text@),
        ws,
    ) > 0 && exists|m: int, t: int| #[trigger] is_post_row(s, principal, m, t, r.posts@[i]@) by {
        assert(r.posts@[i]@ == hits[o[i]].row);
    }
    assert forall|m: int, t: int, hit: PostHit|
        #[trigger] is_post_row(s, principal, m, t, hit) && post_score(
            unicode::lowercase(hit.text),
            ws,
        ) > 0 implies (exists|i: int| 0 <= i < r.posts@.len() && (#[trigger] r.posts@[i])@ == hit)
        || (r.posts@.len() == limit && forall|i: int|
        0 <= i < r.posts@.len() ==> no_worse(
            post_score(unicode::lowercase((#[trigger] r.posts@[i]).text@), ws),
            r.posts@[i].ts as int,
            post_score(unicode::lowercase(hit.text), ws),
            hit.ts,
        )) by {
        let h = choose|h: int| 0 <= h < hits.len() && (#[trigger] hits[h]).row == hit;
        sort::lemma_permutation_covers(o, keys.len() as int, h);
        let k = choose|k: int| 0 <= k < o.len() && #[trigger] o[k] == h;
        if k < r.posts@.len() {
            assert(r.posts@[k]@ == hit);
        } else {
            assert forall|i: int| 0 <= i < r.posts@.len() implies no_worse(
                post_score(unicode::lowercase((#[trigger] r.posts@[i]).text@), ws),
                r.posts@[i].ts as int,
                post_score(unicode::lowercase(hit.text), ws),
                hit.ts,
            ) by {
                assert(!sort::key_lt(keys[o[k]], keys[o[i]]));
                assert(r.posts@[i]@ == hits[o[i]].row);
                assert(hits[h].score == post_score(unicode::lowercase(hits[h].row.text), ws));
            }
        }
    }
}

// ---------------------------------------------------------------------------
// Links of results
// ---------------------------------------------------------------------------

/// Where a post result leads, and how the link is labelled.
pub struct PostLink {
    pub href: String,
    pub label: String,
}

/// Where the thread of a post result is found: in its room, in public, or nowhere.
pub open spec fn post_result_href(thread: Seq<char>) -> Seq<char> {
    match text::find(thread, "/#"@, 0) {
        Some(i) => match nav::room_segment(thread.take(i)) {
            Some(seg) => "/r/"@ + seg + "/t/"@ + thread.skip(i + 2),
            None => "/"@,
        },
        None => match text::strip_prefix(thread, "#"@) {
            Some(tag) => "/t/"@ + tag,
            None => "/"@,
        },
    }
}

/// The link of a post result, labelled with the name of its thread.
pub fn post_link(thread: &str) -> (r: PostLink)
    ensures
        r.href@ == post_result_href(thread@),
        r.label@ == thread@,
{
    let t: Vec<char> = text::chars(thread);
    proof {
        reveal_strlit("/#");
    }
    let href: String = match text::find_at(&t, &text::chars("/#"), 0) {
        Some(i) => {
            let room: Vec<char> = text::cut(&t, 0, i);
            let tag: Vec<char> = text::cut(&t, i + 2, t.len());
            assert(room@ =~= t@.take(i as int));
            assert(tag@ =~= t@.skip(i + 2));
            match nav::room_route_segment(text::string(&room).as_str()) {
                Some(seg) => {
                    let tags: String = text::string(&tag);
                    text::cat4("/r/", seg.as_str(), "/t/", tags.as_str())
                },
                None => "/".to_owned(),
            }
        },
        None => match text::without_prefix(&t, "#") {
            Some(tag) => {
                let tags: String = text::string(&tag);
                text::cat("/t/", tags.as_str())
            },
            None => "/".to_owned(),
        },
    };
    PostLink { href, label: thread.to_owned() }
}

/// The link and the snippets of an item result.
pub struct ItemResult {
    pub href: String,
    /// The path with its hits marked; none where it cannot be cut.
    pub label: Option<String>,
    /// The snippet of the body, if there is one; none inside where it cannot be cut.
    pub body: Option<Option<String>>,
}

/// Whether a snippet is the one for a text, words and length.
pub open spec fn is_snippet(
    r: Option<String>,
    raw: Seq<char>,
    ws: Seq<Seq<char>>,
    max_len: int,
) -> bool {
    let full = encode_utf8(markup::escape(raw));
    let lower = encode_utf8(unicode::lowercase(markup::escape(raw)));
    let enc = snippet::encoded_words(ws);
    let fits = full.len() + max_len <= usize::MAX && snippet::cuts_fit(full, lower, enc, max_len);
    match r {
        Some(s) => fits && encode_utf8(s@) == snippet::highlighted(full, lower, enc, max_len),
        None => !fits,
    }
}

/// How long the snippet of a label may be: its own length and ten bytes.
pub open spec fn label_len(s: Seq<char>) -> int {
    if encode_utf8(s).len() + 10 <= usize::MAX {
        (encode_utf8(s).len() + 10) as int
    } else {
        usize::MAX as int
    }
}

fn label_snippet(s: &str, ws: &Vec<String>) -> (r: Option<String>)
    requires
        forall|i: int| 0 <= i < ws@.len() ==> (#[trigger] ws@[i])@.len() > 0,
    ensures
        is_snippet(r, s@, text::views(ws@), label_len(s@)),
{
    let n: usize = s.as_bytes().len();
    snippet::highlight_snippet(s, ws, n.saturating_add(10))
}

/// How an item result is shown.
pub fn item_result(row: &ItemRow, ws: &Vec<String>) -> (r: ItemResult)
    requires
        forall|i: int| 0 <= i < ws@.len() ==> (#[trigger] ws@[i])@.len() > 0,
    ensures
        r.href@ == "/~/"@ + row.path@,
        is_snippet(r.label, row.path@, text::views(ws@), label_len(row.path@)),
        match row.body {
            Some(b) => match r.body {
                Some(s) => is_snippet(s, b@, text::views(ws@), 120),
                None => false,
            },
            None => r.body is None,
        },
{
    ItemResult {
        href: text::cat("/~/", row.path.as_str()),
        label: label_snippet(row.path.as_str(), ws),
        body: match &row.body {
            Some(b) => Some(snippet::highlight_snippet(b.as_str(), ws, 120)),
            None => None,
        },
    }
}

/// The link and the label of a thread result.
pub struct ThreadResult {
    pub href: String,
    pub label: Option<String>,
}

/// How a thread result is shown.
pub fn thread_result(row: &ThreadRow, ws: &Vec<String>) -> (r: ThreadResult)
    requires
        forall|i: int| 0 <= i < ws@.len() ==> (#[trigger] ws@[i])@.len() > 0,
    ensures
        r.href@ == "/t/"@ + row.tag@,
        is_snippet(r.label, row.tag@, text::views(ws@), label_len(row.tag@)),
{
    ThreadResult {
        href: text::cat("/t/", row.tag.as_str()),
        label: label_snippet(row.tag.as_str(), ws),
    }
}

/// The link and the snippet of a post result.
pub struct PostResult {
    pub link: PostLink,
    pub snippet: Option<String>,
}

/// How a post result is shown.
pub fn post_result(row: &PostRow, ws: &Vec<String>) -> (r: PostResult)
    requires
        forall|i: int| 0 <= i < ws@.len() ==> (#[trigger] ws@[i])@.len() > 0,
    ensures
        r.link.href@ == post_result_href(row.thread@),
        r.link.label@ == row.thread@,
        is_snippet(r.snippet, row.text@, text::views(ws@), 160),
{
    PostResult {
        link: post_link(row.thread.as_str()),
        snippet: snippet::highlight_snippet(row.text.as_str(), ws, 160),
    }
}

/// A search looks for the words of a query in small letters: of a word, white space and a rest,
/// for the word and then for the words of the rest.
pub proof fn law_query_words(w: Seq<char>, c: char, rest: Seq<char>)
    requires
        w.len() > 0,
        forall|i: int| 0 <= i < w.len() ==> !text::is_white(#[trigger] w[i]),
        text::is_white(c),
        unicode::lowercase(w).len() > 0,
    ensures
        query_words(w) == seq![unicode::lowercase(w)],
        query_words(w.push(c) + rest) == seq![unicode::lowercase(w)] + query_words(rest),
{
    text::law_words(w, c, rest);
    let l = unicode::lowercase(w);
    let one = Seq::new(seq![w].len(), |i: int| unicode::lowercase(seq![w][i]));
    assert(one =~= seq![l]);
    assert(seq![l].drop_last() =~= Seq::empty());
    assert(text::nonempty(seq![l].drop_last()) =~= Seq::empty());
    assert(seq![l].last() == l);
    assert(text::nonempty(seq![l]) =~= seq![l]);
    let ws = text::words(rest);
    let more = Seq::new(ws.len(), |i: int| unicode::lowercase(ws[i]));
    let whole = seq![w] + ws;
    let all = Seq::new(whole.len(), |i: int| unicode::lowercase(whole[i]));
    assert(all =~= seq![l] + more);
    text::lemma_nonempty_add(seq![l], more);
}

/// A search without words finds nothing.
pub proof fn law_empty_search(
    r: SearchResults,
    s: ReducerState,
    limit: nat,
    principal: Option<Seq<char>>,
)
    requires
        are_results(r, s, Seq::empty(), limit, principal),
    ensures
        r.items@.len() == 0,
        r.threads@.len() == 0,
        r.posts@.len() == 0,
{
}

/// A post in public leads to its thread, one in a room to the thread in the room.
pub proof fn law_links_of_posts(tag: Seq<char>, room: Seq<char>, seg: Seq<char>)
    requires
        nav::room_segment(room) == Some(seg),
        !text::has("#"@ + tag, "/#"@),
        text::find(room + "/#"@ + tag, "/#"@, 0) == Some(room.len() as int),
    ensures
        post_result_href("#"@ + tag) == "/t/"@ + tag,
        post_result_href(room + "/#"@ + tag) == "/r/"@ + seg + "/t/"@ + tag,
{
    reveal_strlit("#");
    reveal_strlit("/#");
    let a = "#"@ + tag;
    assert(a.subrange(0, 1) =~= "#"@);
    assert(a.skip(1) =~= tag);
    let b = room + "/#"@ + tag;
    assert(b.take(room.len() as int) =~= room);
    assert(b.skip(room.len() as int + 2) =~= tag);
}

/// A page of results shows fifty of each kind at most.
pub proof fn law_search_pages(
    r: SearchResults,
    s: ReducerState,
    ws: Seq<Seq<char>>,
    principal: Option<Seq<char>>,
)
    requires
        are_results(r, s, ws, SEARCH_LIMIT as nat, principal),
    ensures
        r.items@.len() <= 50,
        r.threads@.len() <= 50,
        r.posts@.len() <= 50,
{
    law_search_respects_limit(r, s, ws, SEARCH_LIMIT as nat, principal);
}

/// What an item is scored by: its path and its body, both in small letters.
pub proof fn law_items_are_scored_by(c: ContentState, key: Seq<char>, ws: Seq<Seq<char>>)
    ensures
        state::body_of(c, key) is None ==> garden_score(c, key, ws) == item_score(
            unicode::lowercase(unicode::lowercase(key)),
            None,
            ws,
        ),
        state::body_of(c, key) is Some ==> garden_score(c, key, ws) == item_score(
            unicode::lowercase(unicode::lowercase(key)),
            Some(unicode::lowercase(state::body_of(c, key).unwrap())),
            ws,
        ),
{
}

} // verus!
