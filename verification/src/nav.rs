//! Scopes, and the URLs of threads, rooms and garden pages in a scope.

use vstd::prelude::*;

use crate::paths::{self, ItemId};
use crate::text;

verus! {

/// Posts on one page of a thread.
pub const THREAD_PAGE_SIZE: usize = 10;

/// Length of the short id in front of a room's slug.
pub const ROOM_SHORT_LEN: usize = 7;

// ---------------------------------------------------------------------------
// Rooms and scopes
// ---------------------------------------------------------------------------

/// Where content lives: in public, or in a private room `short/slug`.
#[derive(Clone, Debug, PartialEq, Eq, Hash)]
pub enum ScopeId {
    Public,
    Room(String),
}

impl View for ScopeId {
    type V = Option<Seq<char>>;

    open spec fn view(&self) -> Option<Seq<char>> {
        match self {
            ScopeId::Public => None,
            ScopeId::Room(id) => Some(id@),
        }
    }
}

impl ScopeId {
    /// A copy of the scope.
    pub fn copy(&self) -> (r: ScopeId)
        ensures
            r@ == self@,
    {
        match self {
            ScopeId::Public => ScopeId::Public,
            ScopeId::Room(id) => ScopeId::Room(id.clone()),
        }
    }

    /// Whether two scopes are the same.
    pub fn same(&self, other: &ScopeId) -> (r: bool)
        ensures
            r == (self@ == other@),
    {
        match (self, other) {
            (ScopeId::Public, ScopeId::Public) => true,
            (ScopeId::Room(a), ScopeId::Room(b)) => text::same(a.as_str(), b.as_str()),
            _ => false,
        }
    }
}

/// The scope that a room on the wire stands for: nothing and `public` are the public scope.
pub open spec fn wire_scope(wire: Seq<char>) -> Option<Seq<char>> {
    let t = text::trim(wire);
    if t.len() == 0 || t == "public"@ {
        None
    } else {
        Some(t)
    }
}

/// Reads the scope of a room on the wire.
pub fn scope_from_room_wire(wire: &str) -> (r: ScopeId)
    ensures
        r@ == wire_scope(wire@),
{
    let t: String = text::trim_str(wire);
    if t.as_str().is_empty() || text::same(t.as_str(), "public") {
        ScopeId::Public
    } else {
        ScopeId::Room(t)
    }
}

/// The path segment of a room `short/slug`: the short id and the slug without the slash.
pub open spec fn room_segment(room_id: Seq<char>) -> Option<Seq<char>> {
    match text::split_once(room_id, '/') {
        Some((short, slug)) => if short.len() == ROOM_SHORT_LEN && slug.len() > 0 {
            Some(short + slug)
        } else {
            None
        },
        None => None,
    }
}

/// The room whose path segment this is.
pub open spec fn segment_room(seg: Seq<char>) -> Option<Seq<char>> {
    if seg.len() > ROOM_SHORT_LEN && !seg.take(ROOM_SHORT_LEN as int).contains('/') {
        Some(seg.take(ROOM_SHORT_LEN as int) + "/"@ + seg.skip(ROOM_SHORT_LEN as int))
    } else {
        None
    }
}

/// The path segment of a room.
pub fn room_route_segment(room_id: &str) -> (r: Option<String>)
    ensures
        text::opt_view(r) == room_segment(room_id@),
{
    match text::split_at_first(&text::chars(room_id), '/') {
        Some((short, slug)) => if short.len() == ROOM_SHORT_LEN && slug.len() > 0 {
            let a: String = text::string(&short);
            let b: String = text::string(&slug);
            Some(text::cat(a.as_str(), b.as_str()))
        } else {
            None
        },
        None => None,
    }
}

/// The room that a path segment names.
pub fn room_id_from_route_segment(seg: &str) -> (r: Option<String>)
    ensures
        text::opt_view(r) == segment_room(seg@),
{
    let s: Vec<char> = text::chars(seg);
    if s.len() <= ROOM_SHORT_LEN {
        return None;
    }
    let short: Vec<char> = text::cut(&s, 0, ROOM_SHORT_LEN);
    assert(short@ =~= s@.take(ROOM_SHORT_LEN as int));
    if text::has_char(&short, '/') {
        return None;
    }
    let slug: Vec<char> = text::cut(&s, ROOM_SHORT_LEN, s.len());
    assert(slug@ =~= s@.skip(ROOM_SHORT_LEN as int));
    let a: String = text::string(&short);
    let b: String = text::string(&slug);
    Some(text::cat3(a.as_str(), "/", b.as_str()))
}

/// A room's path segment names that room.
pub proof fn law_room_segment_round_trip(room_id: Seq<char>)
    requires
        room_segment(room_id) is Some,
    ensures
        segment_room(room_segment(room_id).unwrap()) == Some(room_id),
{
    reveal_strlit("/");
    text::lemma_find(room_id, seq!['/'], 0);
    let i = text::find(room_id, seq!['/'], 0).unwrap();
    assert(room_id.subrange(i, i + 1)[0] == '/');
    let short = room_id.take(i);
    let slug = room_id.skip(i + 1);
    let seg = short + slug;
    assert(seg.take(7) =~= short);
    assert(seg.skip(7) =~= slug);
    assert forall|j: int| 0 <= j < short.len() implies short[j] != '/' by {
        assert(!text::occurs_at(room_id, seq!['/'], j));
        if room_id[j] == '/' {
            assert(room_id.subrange(j, j + 1) =~= seq!['/']);
        }
    }
    assert(short + "/"@ + slug =~= room_id);
}

/// The slug of a room, or the whole id where it has none.
pub open spec fn room_slug(room_id: Seq<char>) -> Seq<char> {
    match text::split_once(room_id, '/') {
        Some((_, slug)) => slug,
        None => room_id,
    }
}

/// The slug of a room, or the whole id where it has none.
pub fn room_slug_of(room_id: &str) -> (r: String)
    ensures
        r@ == room_slug(room_id@),
{
    match text::split_at_first(&text::chars(room_id), '/') {
        Some((_, slug)) => text::string(&slug),
        None => room_id.to_owned(),
    }
}

/// A thread tag as it is stored: trimmed, without a leading `#`, in small letters.
pub open spec fn canonical_tag(tag: Seq<char>) -> Seq<char> {
    let t = text::trim(tag);
    text::lower_ascii(
        if t.len() > 0 && t[0] == '#' {
            t.skip(1)
        } else {
            t
        },
    )
}

/// A thread tag as it is stored.
pub fn canonicalize_tag(tag: &str) -> (r: String)
    ensures
        r@ == canonical_tag(tag@),
{
    let t: Vec<char> = text::trimmed(&text::chars(tag));
    if t.len() > 0 && t[0] == '#' {
        let rest: Vec<char> = text::cut(&t, 1, t.len());
        assert(rest@ =~= t@.skip(1));
        text::string(&text::lowered_ascii(&rest))
    } else {
        text::string(&text::lowered_ascii(&t))
    }
}

// ---------------------------------------------------------------------------
// Thread navigation
// ---------------------------------------------------------------------------

/// The URLs of a scope as texts.
pub struct NavModel {
    pub room_wire: Seq<char>,
    pub scope: Option<Seq<char>>,
    pub room_path: Seq<char>,
    pub thread_prefix: Seq<char>,
    pub garden_prefix: Seq<char>,
}

/// The URLs of the public scope.
pub open spec fn public_nav() -> NavModel {
    NavModel {
        room_wire: "public"@,
        scope: None,
        room_path: "/"@,
        thread_prefix: "/t"@,
        garden_prefix: "/~"@,
    }
}

/// The URLs of a room.
pub open spec fn room_nav(room_id: Seq<char>) -> Option<NavModel> {
    match room_segment(room_id) {
        Some(seg) => Some(
            NavModel {
                room_wire: room_id,
                scope: Some(room_id),
                room_path: "/r/"@ + seg,
                thread_prefix: "/r/"@ + seg + "/t"@,
                garden_prefix: "/r/"@ + seg + "/~"@,
            },
        ),
        None => None,
    }
}

/// The URL of a thread.
pub open spec fn thread_href(nav: NavModel, tag: Seq<char>) -> Seq<char> {
    nav.thread_prefix + "/"@ + tag
}

/// The URL of the page of a thread that starts at a post.
pub open spec fn thread_page_href(nav: NavModel, tag: Seq<char>, offset: nat) -> Seq<char> {
    if offset == 0 {
        thread_href(nav, tag)
    } else {
        thread_href(nav, tag) + "?offset="@ + text::decimal(offset)
    }
}

/// The first post of the page on which a post stands.
pub open spec fn page_offset(post_idx: nat) -> nat {
    (post_idx / THREAD_PAGE_SIZE as nat) * THREAD_PAGE_SIZE as nat
}

/// The URL fragment of a post.
pub open spec fn post_fragment(post_idx: nat) -> Seq<char> {
    "post-"@ + text::decimal(post_idx)
}

/// The URL of the page on which a post stands, with the fragment that scrolls to it.
pub open spec fn thread_href_for_post(nav: NavModel, tag: Seq<char>, post_idx: nat) -> Seq<char> {
    thread_page_href(nav, tag, page_offset(post_idx)) + "#"@ + post_fragment(post_idx)
}

/// The URL of one post.
pub open spec fn post_href(nav: NavModel, tag: Seq<char>, idx: nat) -> Seq<char> {
    nav.thread_prefix + "/"@ + tag + "/"@ + text::decimal(idx)
}

/// The URL of the garden of external items.
pub open spec fn external_prefix(nav: NavModel) -> Seq<char> {
    text::trim_char_end(nav.garden_prefix, '~') + "-"@
}

/// The URL of an item in the garden of a scope: ontology items by their leaf, external items
/// by their full URL.
pub open spec fn item_href(nav: NavModel, key: Seq<char>) -> Seq<char> {
    let leaf = paths::leaf_key(key);
    match paths::tilde_tail(leaf) {
        Some(tail) => nav.garden_prefix + "/"@ + tail,
        None => if paths::is_web(leaf) {
            external_prefix(nav) + "/"@ + leaf
        } else {
            nav.garden_prefix + "/"@ + paths::canonical_item(leaf)
        },
    }
}

/// The URL of a written item in the garden of a scope.
pub open spec fn written_item_href(nav: NavModel, item: Seq<char>) -> Seq<char> {
    match paths::item_key(item) {
        Some(k) => item_href(nav, k),
        None => nav.garden_prefix + "/"@ + paths::canonical_item(item),
    }
}

/// What stands in front of the vote routes of a scope: nothing in public, the room otherwise.
pub open spec fn vote_prefix(nav: NavModel) -> Seq<char> {
    match nav.scope {
        Some(_) => nav.room_path,
        None => Seq::empty(),
    }
}

/// The URL fragment of a post.
pub fn post_fragment_id(post_idx: usize) -> (r: String)
    ensures
        r@ == post_fragment(post_idx as nat),
{
    let n: String = text::size(post_idx);
    text::cat("post-", n.as_str())
}

/// The URLs of a scope.
pub struct ThreadNav {
    pub room_wire: String,
    scope: ScopeId,
    room_path: String,
    thread_path_prefix: String,
    garden_path_prefix: String,
}

impl View for ThreadNav {
    type V = NavModel;

    closed spec fn view(&self) -> NavModel {
        NavModel {
            room_wire: self.room_wire@,
            scope: self.scope@,
            room_path: self.room_path@,
            thread_prefix: self.thread_path_prefix@,
            garden_prefix: self.garden_path_prefix@,
        }
    }
}

impl ThreadNav {
    /// The URLs of the public scope.
    pub fn public() -> (r: ThreadNav)
        ensures
            r@ == public_nav(),
    {
        ThreadNav {
            room_wire: "public".to_owned(),
            scope: ScopeId::Public,
            room_path: "/".to_owned(),
            thread_path_prefix: "/t".to_owned(),
            garden_path_prefix: "/~".to_owned(),
        }
    }

    /// The URLs of a room `short/slug`.
    pub fn from_room_id(room_id: &str) -> (r: Option<ThreadNav>)
        ensures
            match r {
                Some(n) => room_nav(room_id@) == Some(n@),
                None => room_nav(room_id@) is None,
            },
    {
        match room_route_segment(room_id) {
            Some(seg) => {
                let room_path: String = text::cat("/r/", seg.as_str());
                let thread_path_prefix: String = text::cat(room_path.as_str(), "/t");
                let garden_path_prefix: String = text::cat(room_path.as_str(), "/~");
                Some(
                    ThreadNav {
                        room_wire: room_id.to_owned(),
                        scope: ScopeId::Room(room_id.to_owned()),
                        room_path,
                        thread_path_prefix,
                        garden_path_prefix,
                    },
                )
            },
            None => None,
        }
    }

    /// A copy of the navigation.
    pub fn copy(&self) -> (r: ThreadNav)
        ensures
            r@ == self@,
    {
        ThreadNav {
            room_wire: self.room_wire.clone(),
            scope: self.scope.copy(),
            room_path: self.room_path.clone(),
            thread_path_prefix: self.thread_path_prefix.clone(),
            garden_path_prefix: self.garden_path_prefix.clone(),
        }
    }

    /// The scope.
    pub fn scope(&self) -> (r: ScopeId)
        ensures
            r@ == self@.scope,
    {
        self.scope.copy()
    }

    /// The room as it is written on the wire.
    pub fn wire(&self) -> (r: &str)
        ensures
            r@ == self@.room_wire,
    {
        self.room_wire.as_str()
    }

    /// The URL of the room.
    pub fn room_url(&self) -> (r: &str)
        ensures
            r@ == self@.room_path,
    {
        self.room_path.as_str()
    }

    /// The URL of a thread.
    pub fn thread_url(&self, tag: &str) -> (r: String)
        ensures
            r@ == thread_href(self@, tag@),
    {
        text::cat3(self.thread_path_prefix.as_str(), "/", tag)
    }

    /// The URL of the garden.
    pub fn garden_root_url(&self) -> (r: &str)
        ensures
            r@ == self@.garden_prefix,
    {
        self.garden_path_prefix.as_str()
    }

    /// The URL of the garden of external items.
    pub fn external_root_url(&self) -> (r: String)
        ensures
            r@ == external_prefix(self@),
    {
        let base: String = text::string(
            &text::without_trailing(&text::chars(self.garden_path_prefix.as_str()), '~'),
        );
        text::cat(base.as_str(), "-")
    }

    /// The garden URL of a written item.
    pub fn garden_item_url(&self, item: &str) -> (r: String)
        ensures
            r@ == written_item_href(self@, item@),
    {
        match ItemId::parse(item) {
            Some(c) => self.garden_item_href(&c),
            None => {
                let c: String = paths::canonicalize_item(item);
                text::cat3(self.garden_path_prefix.as_str(), "/", c.as_str())
            },
        }
    }

    /// The garden URL of an item.
    pub fn garden_item_href(&self, c: &ItemId) -> (r: String)
        ensures
            r@ == item_href(self@, c@),
    {
        let leaf: ItemId = c.ontology_leaf();
        match leaf.tilde_tail() {
            Some(tail) => text::cat3(self.garden_path_prefix.as_str(), "/", tail.as_str()),
            None => if paths::web(&text::chars(leaf.as_str())) {
                let base: String = self.external_root_url();
                text::cat3(base.as_str(), "/", leaf.as_str())
            } else {
                let s: String = paths::canonicalize_item(leaf.as_str());
                text::cat3(self.garden_path_prefix.as_str(), "/", s.as_str())
            },
        }
    }

    /// The URL of the page of a thread that starts at a post.
    pub fn thread_page_url(&self, tag: &str, offset: usize) -> (r: String)
        ensures
            r@ == thread_page_href(self@, tag@, offset as nat),
    {
        let base: String = self.thread_url(tag);
        if offset == 0 {
            base
        } else {
            let n: String = text::size(offset);
            text::cat3(base.as_str(), "?offset=", n.as_str())
        }
    }

    /// The URL of the page on which a post stands, scrolled to it.
    pub fn thread_url_for_post(&self, tag: &str, post_idx: usize) -> (r: String)
        ensures
            r@ == thread_href_for_post(self@, tag@, post_idx as nat),
    {
        let offset: usize = (post_idx / THREAD_PAGE_SIZE) * THREAD_PAGE_SIZE;
        let page: String = self.thread_page_url(tag, offset);
        let frag: String = post_fragment_id(post_idx);
        text::cat3(page.as_str(), "#", frag.as_str())
    }

    /// The URL of one post.
    pub fn post_url(&self, tag: &str, idx: usize) -> (r: String)
        ensures
            r@ == post_href(self@, tag@, idx as nat),
    {
        let n: String = text::size(idx);
        text::cat5(self.thread_path_prefix.as_str(), "/", tag, "/", n.as_str())
    }

    /// What stands in front of the vote routes: nothing in public, the room's URL otherwise.
    pub fn room_path_prefix_for_vote_compare(&self) -> (r: String)
        ensures
            r@ == vote_prefix(self@),
    {
        match self.scope {
            ScopeId::Public => String::new(),
            ScopeId::Room(_) => self.room_path.clone(),
        }
    }
}

/// The page of a post starts on a page boundary at most nine posts before it.
pub proof fn law_page_holds_its_post(post_idx: nat)
    ensures
        page_offset(post_idx) % THREAD_PAGE_SIZE as nat == 0,
        page_offset(post_idx) <= post_idx < page_offset(post_idx) + THREAD_PAGE_SIZE,
{
}

// ---------------------------------------------------------------------------
// Route context
// ---------------------------------------------------------------------------

/// The one place that builds URLs for a scope.
pub struct RouteContext(ThreadNav);

impl View for RouteContext {
    type V = NavModel;

    closed spec fn view(&self) -> NavModel {
        self.0@
    }
}

impl RouteContext {
    /// The public scope.
    pub fn public() -> (r: RouteContext)
        ensures
            r@ == public_nav(),
    {
        RouteContext(ThreadNav::public())
    }

    /// A room.
    pub fn from_room_id(room_id: &str) -> (r: Option<RouteContext>)
        ensures
            match r {
                Some(n) => room_nav(room_id@) == Some(n@),
                None => room_nav(room_id@) is None,
            },
    {
        match ThreadNav::from_room_id(room_id) {
            Some(n) => Some(RouteContext(n)),
            None => None,
        }
    }

    /// The navigation inside.
    pub fn thread_nav(&self) -> (r: &ThreadNav)
        ensures
            r@ == self@,
    {
        &self.0
    }

    /// The navigation inside, by value.
    pub fn into_thread_nav(self) -> (r: ThreadNav)
        ensures
            r@ == self@,
    {
        self.0
    }

    /// The garden URL of an item.
    pub fn item_href(&self, item: &ItemId) -> (r: String)
        ensures
            r@ == item_href(self@, item@),
    {
        self.0.garden_item_href(item)
    }

    /// The garden URL of a written item.
    pub fn item_href_raw(&self, item: &str) -> (r: String)
        ensures
            r@ == written_item_href(self@, item@),
    {
        self.0.garden_item_url(item)
    }

    /// The URL of a thread.
    pub fn thread_url(&self, tag: &str) -> (r: String)
        ensures
            r@ == thread_href(self@, tag@),
    {
        self.0.thread_url(tag)
    }

    /// The URL of the garden.
    pub fn garden_root_url(&self) -> (r: &str)
        ensures
            r@ == self@.garden_prefix,
    {
        self.0.garden_root_url()
    }

    /// The URL of the room.
    pub fn room_url(&self) -> (r: &str)
        ensures
            r@ == self@.room_path,
    {
        self.0.room_url()
    }
}

impl From<ThreadNav> for RouteContext {
    fn from(nav: ThreadNav) -> (r: RouteContext) {
        RouteContext(nav)
    }
}

impl vstd::std_specs::convert::FromSpecImpl<ThreadNav> for RouteContext {
    open spec fn obeys_from_spec() -> bool {
        true
    }

    closed spec fn from_spec(nav: ThreadNav) -> RouteContext {
        RouteContext(nav)
    }
}

impl From<RouteContext> for ThreadNav {
    fn from(ctx: RouteContext) -> (r: ThreadNav) {
        ctx.0
    }
}

impl vstd::std_specs::convert::FromSpecImpl<RouteContext> for ThreadNav {
    open spec fn obeys_from_spec() -> bool {
        true
    }

    closed spec fn from_spec(ctx: RouteContext) -> ThreadNav {
        ctx.0
    }
}

/// Wrapping a navigation and taking it out again gives back the navigation.
pub proof fn law_route_context_round_trip(nav: ThreadNav)
    ensures
        <ThreadNav as vstd::std_specs::convert::FromSpec<RouteContext>>::from_spec(
            <RouteContext as vstd::std_specs::convert::FromSpec<ThreadNav>>::from_spec(nav),
        ) == nav,
        <RouteContext as vstd::std_specs::convert::FromSpec<ThreadNav>>::from_spec(nav)@ == nav@,
{
}

// ---------------------------------------------------------------------------
// Paginators
// ---------------------------------------------------------------------------

/// The links of a thread's page: offsets of its neighbours and of the latest page.
pub struct ThreadPaginator {
    pub older_href: Option<String>,
    pub newer_href: Option<String>,
    pub latest_href: Option<String>,
    /// Number of the first post shown, counted from one.
    pub first: usize,
    /// Number of the last post shown.
    pub last: usize,
    pub total: usize,
    pub top: bool,
}

/// The offset of the next newer page, if there are posts on it.
pub open spec fn newer_offset(offset: nat, total: nat) -> Option<nat> {
    if offset + THREAD_PAGE_SIZE < total {
        Some(offset + THREAD_PAGE_SIZE as nat)
    } else {
        None
    }
}

/// The offset of the next older page, if this is not the first.
pub open spec fn older_offset(offset: nat) -> Option<nat> {
    if offset == 0 {
        None
    } else if offset < THREAD_PAGE_SIZE {
        Some(0)
    } else {
        Some((offset - THREAD_PAGE_SIZE) as nat)
    }
}

/// The offset from which the newest posts are shown.
pub open spec fn latest_offset(total: nat) -> nat {
    if total < THREAD_PAGE_SIZE {
        0
    } else {
        (total - THREAD_PAGE_SIZE) as nat
    }
}

/// The URL of a page, if there is an offset for it.
pub open spec fn opt_page_href(nav: NavModel, tag: Seq<char>, offset: Option<nat>) -> Option<
    Seq<char>,
> {
    match offset {
        Some(o) => Some(thread_page_href(nav, tag, o)),
        None => None,
    }
}

/// Whether these are the links of the page of a thread that starts at `offset`.
pub open spec fn is_paginator(
    p: ThreadPaginator,
    nav: NavModel,
    tag: Seq<char>,
    offset: nat,
    total: nat,
    top: bool,
) -> bool {
    &&& text::opt_view(p.older_href) == opt_page_href(nav, tag, older_offset(offset))
    &&& text::opt_view(p.newer_href) == opt_page_href(nav, tag, newer_offset(offset, total))
    &&& text::opt_view(p.latest_href) == if offset >= latest_offset(total) {
        None::<Seq<char>>
    } else {
        Some(thread_page_href(nav, tag, latest_offset(total)))
    }
    &&& p.first == offset + 1
    &&& p.last == if total <= offset + THREAD_PAGE_SIZE {
        total as int
    } else {
        offset + THREAD_PAGE_SIZE
    }
    &&& p.total == total
    &&& p.top == top
}

/// The links of the page of a thread that starts at `offset`.
pub fn thread_paginator(
    nav: &ThreadNav,
    tag: &str,
    offset: usize,
    total: usize,
    top: bool,
) -> (r: ThreadPaginator)
    requires
        offset + THREAD_PAGE_SIZE <= usize::MAX,
    ensures
        is_paginator(r, nav@, tag@, offset as nat, total as nat, top),
{
    let end: usize = offset + THREAD_PAGE_SIZE;
    let older_href: Option<String> = if offset > 0 {
        Some(nav.thread_page_url(tag, offset.saturating_sub(THREAD_PAGE_SIZE)))
    } else {
        None
    };
    let newer_href: Option<String> = if end < total {
        Some(nav.thread_page_url(tag, end))
    } else {
        None
    };
    let latest: usize = total.saturating_sub(THREAD_PAGE_SIZE);
    let latest_href: Option<String> = if offset >= latest {
        None
    } else {
        Some(nav.thread_page_url(tag, latest))
    };
    let last: usize = if total <= end {
        total
    } else {
        end
    };
    ThreadPaginator { older_href, newer_href, latest_href, first: offset + 1, last, total, top }
}

/// Going to the newer page and back to the older one leads to the same page.
pub proof fn law_older_undoes_newer(offset: nat, total: nat)
    requires
        newer_offset(offset, total) is Some,
    ensures
        older_offset(newer_offset(offset, total).unwrap()) == Some(offset),
{
}

/// Links between the neighbours of a single post.
pub struct PostPermalinkNav {
    pub prev_href: Option<String>,
    pub next_href: Option<String>,
    /// Number of the post, counted from one.
    pub number: usize,
    pub total: usize,
}

/// The links from one post to the one before it and the one behind it.
pub fn post_permalink_nav(nav: &ThreadNav, tag: &str, index: usize, total: usize) -> (r:
    PostPermalinkNav)
    requires
        index < usize::MAX,
    ensures
        text::opt_view(r.prev_href) == if index == 0 {
            None::<Seq<char>>
        } else {
            Some(post_href(nav@, tag@, (index - 1) as nat))
        },
        text::opt_view(r.next_href) == if index + 1 < total {
            Some(post_href(nav@, tag@, (index + 1) as nat))
        } else {
            None::<Seq<char>>
        },
        r.number == index + 1,
        r.total == total,
{
    let prev_href: Option<String> = if index == 0 {
        None
    } else {
        Some(nav.post_url(tag, index - 1))
    };
    let next_href: Option<String> = if index + 1 < total {
        Some(nav.post_url(tag, index + 1))
    } else {
        None
    };
    PostPermalinkNav { prev_href, next_href, number: index + 1, total }
}

/// A page has ten posts. The page of a post starts at a multiple of ten; the newer page starts
/// ten posts later where there are posts left, the older one ten posts earlier, and the latest
/// shows the last ten.
pub proof fn law_pages_have_ten_posts(idx: nat, offset: nat, total: nat)
    ensures
        page_offset(idx) % 10 == 0,
        page_offset(idx) <= idx < page_offset(idx) + 10,
        newer_offset(offset, total) is Some <==> offset + 10 < total,
        newer_offset(offset, total) is Some ==> newer_offset(offset, total).unwrap() == offset + 10,
        older_offset(offset) is None <==> offset == 0,
        offset >= 10 ==> older_offset(offset) == Some((offset - 10) as nat),
        0 < offset < 10 ==> older_offset(offset) == Some(0nat),
        total >= 10 ==> latest_offset(total) + 10 == total,
        total < 10 ==> latest_offset(total) == 0,
{
}

/// A tag is stored without the white space around it, without one leading `#`, and in small
/// letters; so a tag may be written with or without the `#`.
pub proof fn law_tags_are_written_in_two_ways(t: Seq<char>)
    requires
        t.len() > 0,
        t[0] != '#',
        !text::is_white(t[0]),
        !text::is_white(t.last()),
    ensures
        canonical_tag(t) == text::lower_ascii(t),
        canonical_tag(seq!['#'] + t) == text::lower_ascii(t),
        canonical_tag(seq![' '] + t + seq![' ']) == text::lower_ascii(t),
{
    let none = Seq::<char>::empty();
    text::law_trim(none, t, none);
    assert(none + t + none =~= t);
    let h = seq!['#'] + t;
    assert(h.last() == t.last());
    text::law_trim(none, h, none);
    assert(none + h + none =~= h);
    assert(h.skip(1) =~= t);
    text::law_trim(seq![' '], t, seq![' ']);
}

/// Where things are found: the public threads under `/t` and its garden under `/~`, those of a
/// room under `/r` and the room's short id and slug without the slash between them.
#[verifier::rlimit(50)]
pub proof fn law_urls_of_a_scope(short: Seq<char>, slug: Seq<char>, tag: Seq<char>, idx: nat)
    requires
        short.len() == 7,
        !short.contains('/'),
        slug.len() > 0,
    ensures
        thread_href(public_nav(), tag) == "/t/"@ + tag,
        post_href(public_nav(), tag, idx) == "/t/"@ + tag + "/"@ + text::decimal(idx),
        vote_prefix(public_nav()) == Seq::<char>::empty(),
        room_nav(short + "/"@ + slug) is Some,
        ({
            let n = room_nav(short + "/"@ + slug).unwrap();
            &&& n.scope == Some(short + "/"@ + slug)
            &&& n.room_wire == short + "/"@ + slug
            &&& n.room_path == "/r/"@ + short + slug
            &&& thread_href(n, tag) == "/r/"@ + short + slug + "/t/"@ + tag
            &&& post_href(n, tag, idx) == "/r/"@ + short + slug + "/t/"@ + tag + "/"@ + text::decimal(
                idx,
            )
            &&& n.garden_prefix == "/r/"@ + short + slug + "/~"@
            &&& external_prefix(n) == "/r/"@ + short + slug + "/-"@
            &&& vote_prefix(n) == "/r/"@ + short + slug
        }),
        external_prefix(public_nav()) == "/-"@,
        room_slug(short + "/"@ + slug) == slug,
        page_offset(idx) == 0 ==> thread_href_for_post(public_nav(), tag, idx) == "/t/"@ + tag
            + "#post-"@ + text::decimal(idx),
        page_offset(idx) > 0 ==> thread_href_for_post(public_nav(), tag, idx) == "/t/"@ + tag
            + "?offset="@ + text::decimal(page_offset(idx)) + "#post-"@ + text::decimal(idx),
{
    reveal_strlit("/");
    reveal_strlit("/t");
    reveal_strlit("/t/");
    reveal_strlit("/~");
    reveal_strlit("/-");
    reveal_strlit("-");
    reveal_strlit("/r/");
    reveal_strlit("#");
    reveal_strlit("post-");
    reveal_strlit("#post-");
    let room = short + "/"@ + slug;
    let at = short.len() as int;
    text::lemma_find(room, seq!['/'], 0);
    assert(room[at] == '/');
    assert(room.subrange(at, at + 1) =~= seq!['/']);
    assert(text::occurs_at(room, seq!['/'], at));
    let k = text::find(room, seq!['/'], 0).unwrap();
    if k < at {
        assert(room.subrange(k, k + 1)[0] == '/');
        assert(short[k] == '/');
    }
    assert(k == at);
    assert(room.take(at) =~= short);
    assert(room.skip(at + 1) =~= slug);
    let n = room_nav(room).unwrap();
    assert(n.room_path =~= "/r/"@ + short + slug);
    assert(thread_href(n, tag) =~= "/r/"@ + short + slug + "/t/"@ + tag);
    assert(post_href(n, tag, idx) =~= "/r/"@ + short + slug + "/t/"@ + tag + "/"@ + text::decimal(
        idx,
    ));
    assert(n.garden_prefix =~= "/r/"@ + short + slug + "/~"@);
    let g = n.garden_prefix;
    assert(g.last() == '~');
    assert(g.drop_last() =~= "/r/"@ + short + slug + "/"@);
    assert(g.drop_last().last() == '/');
    assert(text::trim_char_end(g.drop_last(), '~') == g.drop_last());
    assert(external_prefix(n) =~= "/r/"@ + short + slug + "/-"@);
    let p = "/~"@;
    assert(p.last() == '~');
    assert(p.drop_last() =~= "/"@);
    assert(text::trim_char_end(p.drop_last(), '~') == p.drop_last());
    assert(external_prefix(public_nav()) =~= "/-"@);
    assert(thread_href(public_nav(), tag) =~= "/t/"@ + tag);
    assert(post_href(public_nav(), tag, idx) =~= "/t/"@ + tag + "/"@ + text::decimal(idx));
    assert("#post-"@ =~= "#"@ + "post-"@);
    assert(thread_href(public_nav(), tag) + "#"@ + post_fragment(idx) =~= "/t/"@ + tag + "#post-"@
        + text::decimal(idx));
    assert(thread_href(public_nav(), tag) + "?offset="@ + text::decimal(page_offset(idx)) + "#"@
        + post_fragment(idx) =~= "/t/"@ + tag + "?offset="@ + text::decimal(page_offset(idx))
        + "#post-"@ + text::decimal(idx));
}

/// A room on the wire is public where it is blank or spelled so, and the room itself otherwise.
pub proof fn law_wire_scope(room: Seq<char>)
    requires
        room.len() > 0,
        !text::is_white(room[0]),
        !text::is_white(room.last()),
    ensures
        wire_scope(Seq::empty()) is None,
        wire_scope("public"@) is None,
        room != "public"@ ==> wire_scope(room) == Some(room),
{
    let none = Seq::<char>::empty();
    text::law_trim(none, room, none);
    assert(none + room + none =~= room);
    reveal_strlit("public");
    let p = "public"@;
    text::law_trim(none, p, none);
    assert(none + p + none =~= p);
    assert(text::trim_start(none) == none);
    assert(text::trim_end(none) == none);
}

/// An item of the ontology is found under the garden of its scope by its last segment, an
/// external one by its whole URL under the garden of external items.
pub proof fn law_item_urls(nav: NavModel, t: Seq<char>, u: Seq<char>)
    requires
        paths::is_bare(t),
        !t.contains('/'),
        paths::is_web(u),
        paths::tilde_tail(u) is None,
    ensures
        item_href(nav, "https://slug.social/~/"@ + t) == nav.garden_prefix + "/"@ + t,
        item_href(nav, u) == external_prefix(nav) + "/"@ + u,
        written_item_href(nav, "~"@ + t) == nav.garden_prefix + "/"@ + t,
        written_item_href(nav, "~/"@ + t) == nav.garden_prefix + "/"@ + t,
{
    paths::law_ontology_items(t);
    paths::law_ontology_paths(t, t);
}

/// The links of a page of a thread: to the page ten posts older and the page ten posts newer where
/// there are such posts, to the last ten where these are not shown, and the numbers of the first
/// and the last post, from one on.
pub proof fn law_paginator(
    p: ThreadPaginator,
    nav: NavModel,
    tag: Seq<char>,
    offset: nat,
    total: nat,
    top: bool,
)
    requires
        is_paginator(p, nav, tag, offset, total, top),
    ensures
        p.older_href is Some <==> offset > 0,
        p.newer_href is Some <==> offset + 10 < total,
        p.newer_href is Some ==> p.newer_href.unwrap()@ == nav.thread_prefix + "/"@ + tag
            + "?offset="@ + text::decimal(offset + 10),
        offset > 10 ==> p.older_href.unwrap()@ == nav.thread_prefix + "/"@ + tag + "?offset="@
            + text::decimal((offset - 10) as nat),
        0 < offset <= 10 ==> p.older_href.unwrap()@ == nav.thread_prefix + "/"@ + tag,
        p.latest_href is Some <==> total >= 10 && offset < total - 10,
        p.latest_href is Some ==> p.latest_href.unwrap()@ == nav.thread_prefix + "/"@ + tag
            + "?offset="@ + text::decimal((total - 10) as nat),
        p.first == offset + 1,
        total <= offset + 10 ==> p.last == total,
        total > offset + 10 ==> p.last == offset + 10,
        p.total == total,
        p.top == top,
{
}

} // verus!
