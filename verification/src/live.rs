//! Which live updates a page subscribes to, and who receives them.

use vstd::prelude::*;

use crate::forum;
use crate::nav;
use crate::state::ReducerState;
use crate::text;

verus! {

/// What a live update is about.
#[derive(Clone, Debug, PartialEq, Eq, Hash)]
pub enum LiveTopic {
    ForumHome,
    PublicThread { tag: String },
    RoomForum { room_id: String },
    RoomThread { room_id: String, tag: String },
    PublicGardenRoot,
    PublicGardenPath { tail: String },
    PublicGardenExternal { tail: String },
    RoomGardenRoot { room_id: String },
    RoomGardenPath { room_id: String, tail: String },
    RoomGardenExternal { room_id: String, tail: String },
    GardenItem { room_wire: Option<String>, item_storage: String },
}

/// The mathematical value of a [`LiveTopic`].
pub enum Topic {
    ForumHome,
    PublicThread { tag: Seq<char> },
    RoomForum { room: Seq<char> },
    RoomThread { room: Seq<char>, tag: Seq<char> },
    PublicGardenRoot,
    PublicGardenPath { tail: Seq<char> },
    PublicGardenExternal { tail: Seq<char> },
    RoomGardenRoot { room: Seq<char> },
    RoomGardenPath { room: Seq<char>, tail: Seq<char> },
    RoomGardenExternal { room: Seq<char>, tail: Seq<char> },
    GardenItem { room: Option<Seq<char>>, item: Seq<char> },
}

impl View for LiveTopic {
    type V = Topic;

    open spec fn view(&self) -> Topic {
        match self {
            LiveTopic::ForumHome => Topic::ForumHome,
            LiveTopic::PublicThread { tag } => Topic::PublicThread { tag: tag@ },
            LiveTopic::RoomForum { room_id } => Topic::RoomForum { room: room_id@ },
            LiveTopic::RoomThread { room_id, tag } => Topic::RoomThread {
                room: room_id@,
                tag: tag@,
            },
            LiveTopic::PublicGardenRoot => Topic::PublicGardenRoot,
            LiveTopic::PublicGardenPath { tail } => Topic::PublicGardenPath { tail: tail@ },
            LiveTopic::PublicGardenExternal { tail } => Topic::PublicGardenExternal { tail: tail@ },
            LiveTopic::RoomGardenRoot { room_id } => Topic::RoomGardenRoot { room: room_id@ },
            LiveTopic::RoomGardenPath { room_id, tail } => Topic::RoomGardenPath {
                room: room_id@,
                tail: tail@,
            },
            LiveTopic::RoomGardenExternal { room_id, tail } => Topic::RoomGardenExternal {
                room: room_id@,
                tail: tail@,
            },
            LiveTopic::GardenItem { room_wire, item_storage } => Topic::GardenItem {
                room: text::opt_view(*room_wire),
                item: item_storage@,
            },
        }
    }
}

fn same_opt(a: &Option<String>, b: &Option<String>) -> (r: bool)
    ensures
        r == (text::opt_view(*a) == text::opt_view(*b)),
{
    match (a, b) {
        (Some(x), Some(y)) => text::same(x.as_str(), y.as_str()),
        (None, None) => true,
        _ => false,
    }
}

impl LiveTopic {
    /// Whether two topics are the same.
    pub fn same(&self, other: &LiveTopic) -> (r: bool)
        ensures
            r == (self@ == other@),
    {
        match (self, other) {
            (LiveTopic::ForumHome, LiveTopic::ForumHome) => true,
            (LiveTopic::PublicThread { tag: a }, LiveTopic::PublicThread { tag: b }) => text::same(
                a.as_str(),
                b.as_str(),
            ),
            (LiveTopic::RoomForum { room_id: a }, LiveTopic::RoomForum { room_id: b }) => text::same(
                a.as_str(),
                b.as_str(),
            ),
            (
                LiveTopic::RoomThread { room_id: a, tag: c },
                LiveTopic::RoomThread { room_id: b, tag: d },
            ) => text::same(a.as_str(), b.as_str()) && text::same(c.as_str(), d.as_str()),
            (LiveTopic::PublicGardenRoot, LiveTopic::PublicGardenRoot) => true,
            (
                LiveTopic::PublicGardenPath { tail: a },
                LiveTopic::PublicGardenPath { tail: b },
            ) => text::same(a.as_str(), b.as_str()),
            (
                LiveTopic::PublicGardenExternal { tail: a },
                LiveTopic::PublicGardenExternal { tail: b },
            ) => text::same(a.as_str(), b.as_str()),
            (
                LiveTopic::RoomGardenRoot { room_id: a },
                LiveTopic::RoomGardenRoot { room_id: b },
            ) => text::same(a.as_str(), b.as_str()),
            (
                LiveTopic::RoomGardenPath { room_id: a, tail: c },
                LiveTopic::RoomGardenPath { room_id: b, tail: d },
            ) => text::same(a.as_str(), b.as_str()) && text::same(c.as_str(), d.as_str()),
            (
                LiveTopic::RoomGardenExternal { room_id: a, tail: c },
                LiveTopic::RoomGardenExternal { room_id: b, tail: d },
            ) => text::same(a.as_str(), b.as_str()) && text::same(c.as_str(), d.as_str()),
            (
                LiveTopic::GardenItem { room_wire: a, item_storage: c },
                LiveTopic::GardenItem { room_wire: b, item_storage: d },
            ) => same_opt(a, b) && text::same(c.as_str(), d.as_str()),
            _ => false,
        }
    }
}

/// The topics of a list.
pub open spec fn topics(v: Seq<LiveTopic>) -> Seq<Topic> {
    Seq::new(v.len(), |i: int| v[i]@)
}

fn one(a: LiveTopic) -> (r: Vec<LiveTopic>)
    ensures
        topics(r@) == seq![a@],
{
    let mut r: Vec<LiveTopic> = Vec::new();
    r.push(a);
    assert(topics(r@) =~= seq![a@]);
    r
}

fn two(a: LiveTopic, b: LiveTopic) -> (r: Vec<LiveTopic>)
    ensures
        topics(r@) == seq![a@, b@],
{
    let mut r: Vec<LiveTopic> = Vec::new();
    r.push(a);
    r.push(b);
    assert(topics(r@) =~= seq![a@, b@]);
    r
}

/// The topics of a public thread.
pub fn subscriber_topics_public_thread(tag: &str) -> (r: Vec<LiveTopic>)
    ensures
        topics(r@) == seq![Topic::ForumHome, Topic::PublicThread { tag: tag@ }],
{
    two(LiveTopic::ForumHome, LiveTopic::PublicThread { tag: tag.to_owned() })
}

/// The topics of the public forum.
pub fn subscriber_topics_public_home() -> (r: Vec<LiveTopic>)
    ensures
        topics(r@) == seq![Topic::ForumHome],
{
    one(LiveTopic::ForumHome)
}

/// The topics of a thread in a room.
pub fn subscriber_topics_room_thread(room_id: &str, tag: &str) -> (r: Vec<LiveTopic>)
    ensures
        topics(r@) == seq![
            Topic::RoomForum { room: room_id@ },
            Topic::RoomThread { room: room_id@, tag: tag@ },
        ],
{
    two(
        LiveTopic::RoomForum { room_id: room_id.to_owned() },
        LiveTopic::RoomThread { room_id: room_id.to_owned(), tag: tag.to_owned() },
    )
}

/// The topics of a room's forum.
pub fn subscriber_topics_room_forum(room_id: &str) -> (r: Vec<LiveTopic>)
    ensures
        topics(r@) == seq![Topic::RoomForum { room: room_id@ }],
{
    one(LiveTopic::RoomForum { room_id: room_id.to_owned() })
}

/// The topics of the public garden.
pub fn subscriber_topics_public_garden_root() -> (r: Vec<LiveTopic>)
    ensures
        topics(r@) == seq![Topic::PublicGardenRoot],
{
    one(LiveTopic::PublicGardenRoot)
}

/// The topics of a path in the public garden.
pub fn subscriber_topics_public_garden_path(tail: &str) -> (r: Vec<LiveTopic>)
    ensures
        topics(r@) == seq![Topic::PublicGardenRoot, Topic::PublicGardenPath { tail: tail@ }],
{
    two(LiveTopic::PublicGardenRoot, LiveTopic::PublicGardenPath { tail: tail.to_owned() })
}

/// The topics of an external path in public.
pub fn subscriber_topics_public_external_path(tail: &str) -> (r: Vec<LiveTopic>)
    ensures
        topics(r@) == seq![Topic::PublicGardenExternal { tail: tail@ }],
{
    one(LiveTopic::PublicGardenExternal { tail: tail.to_owned() })
}

/// The topics of a room's garden.
pub fn subscriber_topics_room_garden_root(room_id: &str) -> (r: Vec<LiveTopic>)
    ensures
        topics(r@) == seq![Topic::RoomGardenRoot { room: room_id@ }],
{
    one(LiveTopic::RoomGardenRoot { room_id: room_id.to_owned() })
}

/// The topics of a path in a room's garden.
pub fn subscriber_topics_room_garden_path(room_id: &str, tail: &str) -> (r: Vec<LiveTopic>)
    ensures
        topics(r@) == seq![
            Topic::RoomGardenRoot { room: room_id@ },
            Topic::RoomGardenPath { room: room_id@, tail: tail@ },
        ],
{
    two(
        LiveTopic::RoomGardenRoot { room_id: room_id.to_owned() },
        LiveTopic::RoomGardenPath { room_id: room_id.to_owned(), tail: tail.to_owned() },
    )
}

/// The topics of an external path in a room.
pub fn subscriber_topics_room_external_path(room_id: &str, tail: &str) -> (r: Vec<LiveTopic>)
    ensures
        topics(r@) == seq![Topic::RoomGardenExternal { room: room_id@, tail: tail@ }],
{
    one(LiveTopic::RoomGardenExternal { room_id: room_id.to_owned(), tail: tail.to_owned() })
}

/// The topics of one item of a garden.
pub fn subscriber_topics_garden_item(room_wire: Option<&str>, item_storage: &str) -> (r: Vec<
    LiveTopic,
>)
    ensures
        topics(r@) == seq![Topic::GardenItem { room: text::opt_str(room_wire), item: item_storage@ }],
{
    let room: Option<String> = match room_wire {
        Some(s) => Some(s.to_owned()),
        None => None,
    };
    one(LiveTopic::GardenItem { room_wire: room, item_storage: item_storage.to_owned() })
}

// ---------------------------------------------------------------------------
// Topics of a page
// ---------------------------------------------------------------------------

/// The topics of a page, and the room that a subscriber must be able to view.
pub struct PageTopics {
    pub topics: Seq<Topic>,
    pub room: Option<Seq<char>>,
}

/// A path without its query.
pub open spec fn path_of(full: Seq<char>) -> Seq<char> {
    text::before(full, '?')
}

/// The segments of a path.
pub open spec fn segments_of(full: Seq<char>) -> Seq<Seq<char>> {
    text::nonempty(text::split(path_of(full), '/'))
}

/// The segments from place `i` on as a path.
pub open spec fn tail_from(segs: Seq<Seq<char>>, i: int) -> Seq<char> {
    text::join(segs.skip(i), "/"@)
}

/// The topics of a page in a room.
pub open spec fn room_page_topics(room: Seq<char>, segs: Seq<Seq<char>>) -> Option<Seq<Topic>> {
    if segs.len() >= 4 && segs[2] == "t"@ {
        Some(
            seq![
                Topic::RoomForum { room },
                Topic::RoomThread { room, tag: nav::canonical_tag(segs[3]) },
            ],
        )
    } else if segs.len() == 2 {
        Some(seq![Topic::RoomForum { room }])
    } else if segs.len() >= 3 && segs[2] == "~"@ {
        Some(
            seq![
                Topic::RoomGardenRoot { room },
                Topic::RoomGardenPath { room, tail: tail_from(segs, 3) },
            ],
        )
    } else if segs.len() >= 3 && segs[2] == "-"@ {
        Some(seq![Topic::RoomGardenExternal { room, tail: tail_from(segs, 3) }])
    } else {
        None
    }
}

/// The topics of the page at a path; none where the path names no room.
pub open spec fn page_topics(full: Seq<char>) -> Option<PageTopics> {
    let path = path_of(full);
    let segs = segments_of(full);
    let home = PageTopics { topics: seq![Topic::ForumHome], room: None };
    if path == "/"@ || path.len() == 0 {
        Some(home)
    } else if (segs.len() == 2 || segs.len() == 3) && segs[0] == "t"@ {
        Some(
            PageTopics {
                topics: seq![
                    Topic::ForumHome,
                    Topic::PublicThread { tag: nav::canonical_tag(segs[1]) },
                ],
                room: None,
            },
        )
    } else if segs[0] == "~"@ {
        Some(
            PageTopics {
                topics: seq![
                    Topic::PublicGardenRoot,
                    Topic::PublicGardenPath { tail: tail_from(segs, 1) },
                ],
                room: None,
            },
        )
    } else if segs[0] == "-"@ {
        Some(
            PageTopics {
                topics: seq![Topic::PublicGardenExternal { tail: tail_from(segs, 1) }],
                room: None,
            },
        )
    } else if segs.len() >= 2 && segs[0] == "r"@ {
        match nav::segment_room(segs[1]) {
            Some(room) => match room_page_topics(room, segs) {
                Some(topics) => Some(PageTopics { topics, room: Some(room) }),
                None => Some(home),
            },
            None => None,
        }
    } else {
        Some(home)
    }
}

fn joined_from(segs: &Vec<String>, i: usize) -> (r: String)
    requires
        i <= segs@.len(),
    ensures
        r@ == tail_from(text::views(segs@), i as int),
{
    let mut rest: Vec<String> = Vec::new();
    let mut k: usize = i;
    while k < segs.len()
        invariant
            i <= k <= segs.len(),
            rest.len() == k - i,
            forall|j: int| 0 <= j < rest.len() ==> (#[trigger] rest@[j])@ == segs@[i + j]@,
        decreases segs.len() - k,
    {
        rest.push(segs[k].clone());
        k = k + 1;
    }
    assert(text::views(rest@) =~= text::views(segs@).skip(i as int));
    text::joined(&rest, "/")
}

/// The topics that the page at a path subscribes to, with the room that the subscriber must be
/// able to view; none where the path names no room.
pub fn topics_from_legacy_sse_path(full_path: &str) -> (r: Option<(Vec<LiveTopic>, Option<String>)>)
    requires
        path_of(full_path@) == "/"@ || path_of(full_path@).len() == 0 || segments_of(
            full_path@,
        ).len() > 0,
    ensures
        match r {
            Some((v, room)) => page_topics(full_path@) == Some(
                PageTopics { topics: topics(v@), room: text::opt_view(room) },
            ),
            None => page_topics(full_path@) is None,
        },
{
    let path: Vec<char> = text::upto(&text::chars(full_path), '?');
    let segs: Vec<String> = text::without_empty(&text::split_chars(&path, '/'));
    let ghost sv = segments_of(full_path@);
    assert(sv == text::views(segs@));
    assert(sv.len() == segs@.len());
    assert(forall|i: int| 0 <= i < segs@.len() ==> sv[i] == (#[trigger] segs@[i])@);
    if path.len() == 0 || text::same_chars(&path, &text::chars("/")) {
        return Some((subscriber_topics_public_home(), None));
    }
    if (segs.len() == 2 || segs.len() == 3) && text::same(segs[0].as_str(), "t") {
        let tag: String = nav::canonicalize_tag(segs[1].as_str());
        return Some((subscriber_topics_public_thread(tag.as_str()), None));
    }
    if text::same(segs[0].as_str(), "~") {
        let tail: String = joined_from(&segs, 1);
        return Some((subscriber_topics_public_garden_path(tail.as_str()), None));
    }
    if text::same(segs[0].as_str(), "-") {
        let tail: String = joined_from(&segs, 1);
        return Some((subscriber_topics_public_external_path(tail.as_str()), None));
    }
    if segs.len() >= 2 && text::same(segs[0].as_str(), "r") {
        let room: String = match nav::room_id_from_route_segment(segs[1].as_str()) {
            Some(r) => r,
            None => {
                return None;
            },
        };
        if segs.len() >= 4 && text::same(segs[2].as_str(), "t") {
            let tag: String = nav::canonicalize_tag(segs[3].as_str());
            let v: Vec<LiveTopic> = subscriber_topics_room_thread(room.as_str(), tag.as_str());
            return Some((v, Some(room)));
        }
        if segs.len() == 2 {
            let v: Vec<LiveTopic> = subscriber_topics_room_forum(room.as_str());
            return Some((v, Some(room)));
        }
        if segs.len() >= 3 && text::same(segs[2].as_str(), "~") {
            let tail: String = joined_from(&segs, 3);
            let v: Vec<LiveTopic> = subscriber_topics_room_garden_path(
                room.as_str(),
                tail.as_str(),
            );
            return Some((v, Some(room)));
        }
        if segs.len() >= 3 && text::same(segs[2].as_str(), "-") {
            let tail: String = joined_from(&segs, 3);
            let v: Vec<LiveTopic> = subscriber_topics_room_external_path(
                room.as_str(),
                tail.as_str(),
            );
            return Some((v, Some(room)));
        }
    }
    Some((subscriber_topics_public_home(), None))
}

/// Whether a topic is about a room.
pub open spec fn is_room_topic(t: Topic, room: Seq<char>) -> bool {
    match t {
        Topic::RoomForum { room: r } => r == room,
        Topic::RoomThread { room: r, .. } => r == room,
        Topic::RoomGardenRoot { room: r } => r == room,
        Topic::RoomGardenPath { room: r, .. } => r == room,
        Topic::RoomGardenExternal { room: r, .. } => r == room,
        _ => false,
    }
}

/// Whether a topic is about no room.
pub open spec fn is_public_topic(t: Topic) -> bool {
    match t {
        Topic::ForumHome => true,
        Topic::PublicThread { .. } => true,
        Topic::PublicGardenRoot => true,
        Topic::PublicGardenPath { .. } => true,
        Topic::PublicGardenExternal { .. } => true,
        _ => false,
    }
}

/// A page with private topics names the room, so that the subscriber is checked: the topics of
/// a page are all public, or all about the room that the subscriber must be able to view.
pub proof fn law_private_topics_are_gated(full: Seq<char>)
    requires
        page_topics(full) is Some,
    ensures
        forall|i: int|
            0 <= i < page_topics(full).unwrap().topics.len() ==> match page_topics(full).unwrap().room {
                Some(room) => is_room_topic(#[trigger] page_topics(full).unwrap().topics[i], room),
                None => is_public_topic(page_topics(full).unwrap().topics[i]),
            },
{
}

// ---------------------------------------------------------------------------
// Delivery
// ---------------------------------------------------------------------------

/// Who may receive a snippet.
pub enum JsSnippetAudience {
    Public,
    RoomViewers(String),
}

/// Code that is sent to the pages that show one of its topics.
pub struct JsSnippet {
    pub topics: Vec<LiveTopic>,
    pub audience: JsSnippetAudience,
    pub code: String,
}

/// Whether two lists share a topic.
pub open spec fn shares_topic(a: Seq<Topic>, b: Seq<Topic>) -> bool {
    exists|i: int, j: int|
        0 <= i < a.len() && 0 <= j < b.len() && #[trigger] a[i] == #[trigger] b[j]
}

fn topic_wanted(t: &LiveTopic, subs: &Vec<LiveTopic>) -> (r: bool)
    ensures
        r == topics(subs@).contains(t@),
{
    let mut i: usize = 0;
    while i < subs.len()
        invariant
            i <= subs.len(),
            forall|j: int| 0 <= j < i ==> topics(subs@)[j] != t@,
        decreases subs.len() - i,
    {
        if subs[i].same(t) {
            assert(topics(subs@)[i as int] == t@);
            return true;
        }
        i = i + 1;
    }
    false
}

/// Whether a snippet is sent to a subscriber: it is about one of the subscriptions, and the
/// subscriber may see the room it is for.
pub fn snippet_allowed(
    snippet: &JsSnippet,
    subscriptions: &Vec<LiveTopic>,
    username: Option<&str>,
    reduced: &ReducerState,
) -> (r: bool)
    ensures
        r == (shares_topic(topics(snippet.topics@), topics(subscriptions@)) && match snippet.audience {
            JsSnippetAudience::Public => true,
            JsSnippetAudience::RoomViewers(room) => forum::can_view_room(
                *reduced,
                room@,
                text::opt_str(username),
            ),
        }),
{
    let ghost a = topics(snippet.topics@);
    let ghost b = topics(subscriptions@);
    let mut found: bool = false;
    let mut i: usize = 0;
    while i < snippet.topics.len() && !found
        invariant
            i <= snippet.topics.len(),
            a == topics(snippet.topics@),
            b == topics(subscriptions@),
            found ==> shares_topic(a, b),
            !found ==> forall|k: int, j: int|
                0 <= k < i && 0 <= j < b.len() ==> #[trigger] a[k] != #[trigger] b[j],
        decreases snippet.topics.len() - i,
    {
        if topic_wanted(&snippet.topics[i], subscriptions) {
            found = true;
            proof {
                let j = choose|j: int| 0 <= j < b.len() && b[j] == a[i as int];
                assert(a[i as int] == b[j]);
            }
        } else {
            assert forall|j: int| 0 <= j < b.len() implies a[i as int] != #[trigger] b[j] by {
                assert(b.contains(b[j]));
            }
        }
        i = i + 1;
    }
    if !found {
        return false;
    }
    match &snippet.audience {
        JsSnippetAudience::Public => true,
        JsSnippetAudience::RoomViewers(room) => forum::user_can_view_room(
            reduced,
            room.as_str(),
            username,
        ),
    }
}

// ---------------------------------------------------------------------------
// Event streams
// ---------------------------------------------------------------------------

/// Whether a part of an `Accept` header asks for an event stream.
pub open spec fn asks_for_stream(part: Seq<char>) -> bool {
    text::lower_ascii(text::trim(text::before(text::trim(part), ';'))) == "text/event-stream"@
}

/// Whether some part of an `Accept` header asks for an event stream.
pub open spec fn accepts_stream(header: Seq<char>) -> bool {
    exists|i: int|
        0 <= i < text::split(header, ',').len() && asks_for_stream(
            #[trigger] text::split(header, ',')[i],
        )
}

/// Whether the `Accept` header of a request asks for an event stream.
pub fn wants_event_stream(accept: Option<&str>) -> (r: bool)
    ensures
        r == match accept {
            Some(s) => accepts_stream(s@),
            None => false,
        },
{
    match accept {
        Some(s) => header_wants_stream(s),
        None => false,
    }
}

fn header_wants_stream(s: &str) -> (r: bool)
    ensures
        r == accepts_stream(s@),
{
    let parts: Vec<String> = text::split_chars(&text::chars(s), ',');
    let ghost ps = text::split(s@, ',');
    let wanted: Vec<char> = text::chars("text/event-stream");
    let mut i: usize = 0;
    while i < parts.len()
        invariant
            i <= parts.len(),
            ps == text::views(parts@),
            ps == text::split(s@, ','),
            wanted@ == "text/event-stream"@,
            forall|j: int| 0 <= j < i ==> !asks_for_stream(#[trigger] ps[j]),
        decreases parts.len() - i,
    {
        let part: Vec<char> = text::trimmed(&text::chars(parts[i].as_str()));
        let kind: Vec<char> = text::lowered_ascii(&text::trimmed(&text::upto(&part, ';')));
        assert(ps[i as int] == parts@[i as int]@);
        if text::same_chars(&kind, &wanted) {
            assert(asks_for_stream(text::split(s@, ',')[i as int]));
            return true;
        }
        i = i + 1;
    }
    false
}

/// The topics of a page: a public thread and a path of the public garden each go with what lies
/// above them, and so do those of a room, which also name the room.
pub proof fn law_topics_of_pages(full: Seq<char>, tag: Seq<char>, seg: Seq<char>, room: Seq<char>)
    requires
        path_of(full).len() > 1,
        nav::segment_room(seg) == Some(room),
    ensures
        segments_of(full) == seq!["t"@, tag] ==> page_topics(full) == Some(
            PageTopics {
                topics: seq![
                    Topic::ForumHome,
                    Topic::PublicThread { tag: nav::canonical_tag(tag) },
                ],
                room: None,
            },
        ),
        segments_of(full) == seq!["~"@, tag] ==> page_topics(full) == Some(
            PageTopics {
                topics: seq![Topic::PublicGardenRoot, Topic::PublicGardenPath { tail: tag }],
                room: None,
            },
        ),
        segments_of(full) == seq!["-"@, tag] ==> page_topics(full) == Some(
            PageTopics { topics: seq![Topic::PublicGardenExternal { tail: tag }], room: None },
        ),
        segments_of(full) == seq!["r"@, seg] ==> page_topics(full) == Some(
            PageTopics { topics: seq![Topic::RoomForum { room }], room: Some(room) },
        ),
        segments_of(full) == seq!["r"@, seg, "t"@, tag] ==> page_topics(full) == Some(
            PageTopics {
                topics: seq![
                    Topic::RoomForum { room },
                    Topic::RoomThread { room, tag: nav::canonical_tag(tag) },
                ],
                room: Some(room),
            },
        ),
        segments_of(full) == seq!["r"@, seg, "~"@, tag] ==> page_topics(full) == Some(
            PageTopics {
                topics: seq![Topic::RoomGardenRoot { room }, Topic::RoomGardenPath { room, tail: tag }],
                room: Some(room),
            },
        ),
{
    reveal_strlit("/");
    reveal_strlit("t");
    reveal_strlit("~");
    reveal_strlit("-");
    reveal_strlit("r");
    assert("t"@[0] == 't' && "~"@[0] == '~' && "-"@[0] == '-' && "r"@[0] == 'r');
    let two = seq!["~"@, tag];
    assert(two.skip(1) =~= seq![tag]);
    assert(text::join(seq![tag], "/"@) == tag);
    let out = seq!["-"@, tag];
    assert(out.skip(1) =~= seq![tag]);
    let four = seq!["r"@, seg, "~"@, tag];
    assert(four.skip(3) =~= seq![tag]);
}

/// An event stream is asked for by its own type, in whatever case and with whatever parameters
/// behind a semicolon.
pub proof fn law_event_streams(part: Seq<char>, rest: Seq<char>)
    requires
        !part.contains(','),
        !part.contains(';'),
        part.len() > 0,
        !text::is_white(part[0]),
        !text::is_white(part.last()),
        rest.len() > 0,
        !text::is_white(rest.last()),
    ensures
        accepts_stream(part) <==> asks_for_stream(part),
        asks_for_stream(part) <==> text::lower_ascii(part) == "text/event-stream"@,
        asks_for_stream(part.push(';') + rest) <==> asks_for_stream(part),
{
    text::law_split(part, part, ',');
    let s = text::split(part, ',');
    assert(s[0] == part);
    if asks_for_stream(part) {
        assert(asks_for_stream(s[0]));
    }
    let none = Seq::<char>::empty();
    text::law_trim(none, part, none);
    assert(none + part + none =~= part);
    lemma_before_absent(part, ';');
    let b = part.push(';') + rest;
    assert(b[0] == part[0] && b.last() == rest.last());
    text::law_trim(none, b, none);
    assert(none + b + none =~= b);
    text::lemma_find(b, seq![';'], 0);
    let at = part.len() as int;
    assert(b.subrange(at, at + 1) =~= seq![';']);
    assert(text::occurs_at(b, seq![';'], at));
    let i = text::find(b, seq![';'], 0).unwrap();
    if i < at {
        assert(b.subrange(i, i + 1)[0] == ';');
        assert(part[i] == ';');
        assert(part.contains(';'));
    }
    assert(b.take(at) =~= part);
}

proof fn lemma_before_absent(s: Seq<char>, c: char)
    requires
        !s.contains(c),
    ensures
        text::before(s, c) == s,
{
    text::lemma_find(s, seq![c], 0);
    match text::find(s, seq![c], 0) {
        Some(i) => {
            assert(s.subrange(i, i + 1)[0] == c);
            assert(s.contains(c));
        },
        None => {},
    }
}

/// Two lists share a topic exactly where some topic stands in both.
pub proof fn law_shared_topics(a: Seq<Topic>, b: Seq<Topic>)
    ensures
        shares_topic(a, b) <==> exists|t: Topic| #[trigger] a.contains(t) && b.contains(t),
        shares_topic(a, b) <==> shares_topic(b, a),
{
    if shares_topic(a, b) {
        let (i, j) = choose|i: int, j: int|
            0 <= i < a.len() && 0 <= j < b.len() && #[trigger] a[i] == #[trigger] b[j];
        assert(a.contains(a[i]) && b.contains(a[i]));
        assert(b[j] == a[i]);
    }
    if exists|t: Topic| #[trigger] a.contains(t) && b.contains(t) {
        let t = choose|t: Topic| #[trigger] a.contains(t) && b.contains(t);
        let i = choose|i: int| 0 <= i < a.len() && a[i] == t;
        let j = choose|j: int| 0 <= j < b.len() && b[j] == t;
        assert(a[i] == b[j]);
    }
    if shares_topic(b, a) {
        let (j, i) = choose|j: int, i: int|
            0 <= j < b.len() && 0 <= i < a.len() && #[trigger] b[j] == #[trigger] a[i];
        assert(a[i] == b[j]);
    }
}

/// The external garden of a room is a topic of its own, and a page of a room that is none of these
/// has the topics of the home page.
pub proof fn law_external_topics_of_rooms(full: Seq<char>, seg: Seq<char>, room: Seq<char>, t: Seq<char>)
    requires
        path_of(full).len() > 1,
        nav::segment_room(seg) == Some(room),
    ensures
        segments_of(full) == seq!["r"@, seg, "-"@, t] ==> page_topics(full) == Some(
            PageTopics {
                topics: seq![Topic::RoomGardenExternal { room, tail: t }],
                room: Some(room),
            },
        ),
        segments_of(full) == seq!["r"@, seg, "-"@] ==> page_topics(full) == Some(
            PageTopics {
                topics: seq![Topic::RoomGardenExternal { room, tail: Seq::empty() }],
                room: Some(room),
            },
        ),
        segments_of(full) == seq!["r"@, seg, "~"@] ==> page_topics(full) == Some(
            PageTopics {
                topics: seq![
                    Topic::RoomGardenRoot { room },
                    Topic::RoomGardenPath { room, tail: Seq::empty() },
                ],
                room: Some(room),
            },
        ),
{
    reveal_strlit("/");
    reveal_strlit("t");
    reveal_strlit("~");
    reveal_strlit("-");
    reveal_strlit("r");
    assert("t"@[0] == 't' && "~"@[0] == '~' && "-"@[0] == '-' && "r"@[0] == 'r');
    let four = seq!["r"@, seg, "-"@, t];
    assert(four.skip(3) =~= seq![t]);
    assert(text::join(seq![t], "/"@) == t);
    let three = seq!["r"@, seg, "-"@];
    assert(three.skip(3) =~= Seq::empty());
    let garden = seq!["r"@, seg, "~"@];
    assert(garden.skip(3) =~= Seq::empty());
}

} // verus!
