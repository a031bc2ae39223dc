//! The home page: an index of the questions that can be asked over the public garden.

use vstd::prelude::*;

use crate::garden;
use crate::landing;
use crate::nav::{self, NavModel, ScopeId, ThreadNav};
use crate::paths::{self, ItemId};
use crate::questions::{self, Headline, QuestionCtx, QuestionHeadline, QUESTION_INDEX_CAP};
use crate::sort::{self, Key, SortKey};
use crate::state::{self, AspectPrompt, ContentState, RecentModel, RecentVote, ReducerState};
use crate::text;

verus! {

// ---------------------------------------------------------------------------
// Activity
// ---------------------------------------------------------------------------

/// The latest vote, from place `i` on, whose ends are both members; `best` where none is later.
pub open spec fn latest_between(
    recent: Seq<RecentModel>,
    members: Seq<Seq<char>>,
    i: int,
    best: Option<int>,
) -> Option<int>
    decreases recent.len() - i,
{
    if i < 0 || i >= recent.len() {
        best
    } else if members.contains(recent[i].a) && members.contains(recent[i].b) {
        latest_between(
            recent,
            members,
            i + 1,
            match best {
                Some(b) => if recent[i].ts >= b {
                    Some(recent[i].ts)
                } else {
                    Some(b)
                },
                None => Some(recent[i].ts),
            },
        )
    } else {
        latest_between(recent, members, i + 1, best)
    }
}

/// When a question was last voted on; zero for never.
pub open spec fn vote_activity(c: ContentState, collection: Seq<char>, aspect: Option<Seq<char>>) -> int {
    match aspect {
        Some(slug) => match state::aspect_index(c, collection, slug) {
            Some(at) => {
                let v = c.aspect_groups@[at].group.recent_votes@;
                if v.len() > 0 {
                    v[0].ts as int
                } else {
                    0
                }
            },
            None => 0,
        },
        None => match latest_between(
            state::rows(c.ranking_group.recent_votes@),
            state::members_of(c, collection),
            0,
            None,
        ) {
            Some(ts) => ts,
            None => 0,
        },
    }
}

/// When a question was last active: by a vote or by a post in the thread of its name.
pub open spec fn activity_of(
    s: ReducerState,
    c: ContentState,
    collection: Seq<char>,
    aspect: Option<Seq<char>>,
) -> int {
    let thread_ts = state::thread_activity(
        s,
        None,
        nav::canonical_tag(paths::last_piece(collection)),
    );
    let vote_ts = vote_activity(c, collection, aspect);
    if vote_ts > thread_ts {
        vote_ts
    } else {
        thread_ts
    }
}

fn latest_vote_between(recent: &Vec<RecentVote>, members: &Vec<ItemId>) -> (r: Option<i64>)
    ensures
        match r {
            Some(ts) => latest_between(state::rows(recent@), paths::keys(members@), 0, None)
                == Some(ts as int),
            None => latest_between(state::rows(recent@), paths::keys(members@), 0, None) is None,
        },
{
    let ghost rv = state::rows(recent@);
    let ghost mk = paths::keys(members@);
    let mut best: Option<i64> = None;
    let mut i: usize = 0;
    while i < recent.len()
        invariant
            i <= recent.len(),
            rv == state::rows(recent@),
            mk == paths::keys(members@),
            latest_between(rv, mk, 0, None) == latest_between(
                rv,
                mk,
                i as int,
                match best {
                    Some(b) => Some(b as int),
                    None => None,
                },
            ),
        decreases recent.len() - i,
    {
        let v: &RecentVote = &recent[i];
        assert(rv[i as int] == v@);
        if paths::holds_item(members, &v.a) && paths::holds_item(members, &v.b) {
            best = match best {
                Some(b) => if v.ts >= b {
                    Some(v.ts)
                } else {
                    Some(b)
                },
                None => Some(v.ts),
            };
        }
        i = i + 1;
    }
    best
}

/// When a question was last active.
pub fn question_activity(
    reduced: &ReducerState,
    content: &ContentState,
    collection: &ItemId,
    aspect: Option<&str>,
) -> (r: i64)
    ensures
        r == activity_of(*reduced, *content, collection@, text::opt_str(aspect)),
{
    let leaf: String = nav::canonicalize_tag(collection.last_segment().as_str());
    let thread_ts: i64 = reduced.thread_activity(&ScopeId::Public, leaf.as_str());
    let vote_ts: i64 = match aspect {
        Some(slug) => match content.aspect_group(collection, slug) {
            Some(at) => {
                let v: &Vec<RecentVote> = &content.aspect_groups[at].group.recent_votes;
                if v.len() > 0 {
                    v[0].ts
                } else {
                    0
                }
            },
            None => 0,
        },
        None => match latest_vote_between(
            &content.ranking_group.recent_votes,
            &content.members_of(collection),
        ) {
            Some(ts) => ts,
            None => 0,
        },
    };
    if vote_ts > thread_ts {
        vote_ts
    } else {
        thread_ts
    }
}

// ---------------------------------------------------------------------------
// Prompted aspects
// ---------------------------------------------------------------------------

/// Whether a prompt makes its aspect a question: it is not blank, and the slug is valid.
pub open spec fn is_prompted(slug: Seq<char>, prompt: Seq<char>) -> bool {
    text::trim(prompt).len() > 0 && garden::is_aspect_slug(slug)
}

/// The aspects among the first `n` prompts that are questions.
pub open spec fn prompted_upto(c: ContentState, n: int) -> Seq<Seq<char>>
    decreases n,
{
    if n <= 0 {
        Seq::empty()
    } else {
        let p = c.aspect_prompts@[n - 1];
        let front = prompted_upto(c, n - 1);
        if is_prompted(p.slug@, p.prompt@) {
            front.push(p.slug@)
        } else {
            front
        }
    }
}

/// Those of some aspects that have a prompt and a valid slug.
pub open spec fn prompted_links(links: Seq<(Seq<char>, Option<Seq<char>>)>) -> Seq<Seq<char>>
    decreases links.len(),
{
    if links.len() == 0 {
        Seq::empty()
    } else {
        let front = prompted_links(links.drop_last());
        let l = links.last();
        if l.1 is Some && l.1.unwrap().len() > 0 && garden::is_aspect_slug(l.0) {
            front.push(l.0)
        } else {
            front
        }
    }
}

/// The aspects under which a scope is a question, in order.
pub open spec fn prompted(c: ContentState, collection: Seq<char>) -> Seq<Seq<char>> {
    sort::sorted_set(
        prompted_upto(c, c.aspect_prompts@.len() as int) + prompted_links(
            questions::scope_aspects(c, collection),
        ),
    )
}

/// The aspects under which a scope is a question, in order.
pub fn prompted_aspects(content: &ContentState, collection: &ItemId) -> (r: Vec<String>)
    ensures
        text::views(r@) == prompted(*content, collection@),
{
    let mut slugs: Vec<String> = Vec::new();
    let mut i: usize = 0;
    assert(text::views(slugs@) =~= prompted_upto(*content, 0));
    while i < content.aspect_prompts.len()
        invariant
            i <= content.aspect_prompts.len(),
            text::views(slugs@) == prompted_upto(*content, i as int),
        decreases content.aspect_prompts.len() - i,
    {
        let p: &AspectPrompt = &content.aspect_prompts[i];
        let t: Vec<char> = text::trimmed(&text::chars(p.prompt.as_str()));
        if t.len() > 0 && garden::is_valid_aspect_slug(p.slug.as_str()) {
            let ghost before = text::views(slugs@);
            slugs.push(p.slug.clone());
            assert(text::views(slugs@) =~= before.push(p.slug@));
        }
        i = i + 1;
    }
    let ghost first = text::views(slugs@);
    let links: Vec<questions::AspectLink> = questions::aspects_for_scope(content, collection);
    let ghost lv = state::rows(links@);
    let mut k: usize = 0;
    assert(first + prompted_links(lv.take(0)) =~= first);
    while k < links.len()
        invariant
            k <= links.len(),
            lv == state::rows(links@),
            text::views(slugs@) == first + prompted_links(lv.take(k as int)),
        decreases links.len() - k,
    {
        assert(lv.take(k + 1).drop_last() =~= lv.take(k as int));
        assert(lv.take(k + 1).last() == links@[k as int]@);
        let asks: bool = match &links[k].prompt {
            Some(p) => !p.as_str().is_empty(),
            None => false,
        };
        if asks && garden::is_valid_aspect_slug(links[k].slug.as_str()) {
            let ghost before = text::views(slugs@);
            slugs.push(links[k].slug.clone());
            assert(text::views(slugs@) =~= before.push(lv[k as int].0));
            assert(first + prompted_links(lv.take(k + 1)) =~= before.push(lv[k as int].0));
        }
        k = k + 1;
    }
    assert(lv.take(lv.len() as int) =~= lv);
    sort::sort_unique(&slugs)
}

// ---------------------------------------------------------------------------
// Entries
// ---------------------------------------------------------------------------

/// A question of the index.
pub struct QuestionIndexEntry {
    pub collection: ItemId,
    pub aspect: Option<String>,
    pub leaf: String,
    pub title: String,
    pub member_count: usize,
    pub question_path: String,
    pub garden_href: String,
    pub thread_href: String,
    pub headline: QuestionHeadline,
    pub dom_suffix: String,
}

/// The mathematical value of a [`QuestionIndexEntry`].
pub struct EntryModel {
    pub collection: Seq<char>,
    pub aspect: Option<Seq<char>>,
    pub leaf: Seq<char>,
    pub title: Seq<char>,
    pub member_count: nat,
    pub question_path: Seq<char>,
    pub garden_href: Seq<char>,
    pub thread_href: Seq<char>,
    pub headline: Headline,
    pub dom_suffix: Seq<char>,
}

impl View for QuestionIndexEntry {
    type V = EntryModel;

    open spec fn view(&self) -> EntryModel {
        EntryModel {
            collection: self.collection@,
            aspect: text::opt_view(self.aspect),
            leaf: self.leaf@,
            title: self.title@,
            member_count: self.member_count as nat,
            question_path: self.question_path@,
            garden_href: self.garden_href@,
            thread_href: self.thread_href@,
            headline: self.headline@,
            dom_suffix: self.dom_suffix@,
        }
    }
}

/// The entry of a question; none where its page could not be reached by its name.
pub open spec fn entry_of(
    c: ContentState,
    nav: NavModel,
    collection: Seq<char>,
    aspect: Option<Seq<char>>,
    member_count: nat,
) -> Option<EntryModel> {
    let leaf = paths::last_piece(collection);
    if questions::collection_key(leaf) != Some(collection) || (aspect is Some
        && !garden::is_aspect_slug(aspect.unwrap())) {
        None
    } else {
        let headline = questions::headline_of(c, collection, aspect);
        Some(
            EntryModel {
                collection,
                aspect,
                leaf,
                title: questions::title_of(headline),
                member_count,
                question_path: questions::question_path(nav, leaf, aspect),
                garden_href: questions::ranking_url(nav, collection, aspect),
                thread_href: nav::thread_href(nav, leaf),
                headline,
                dom_suffix: match aspect {
                    Some(a) => leaf + "-"@ + a,
                    None => leaf,
                },
            },
        )
    }
}

/// The entry of a question.
pub fn entry_from_scope(
    content: &ContentState,
    nav: &ThreadNav,
    collection: &ItemId,
    aspect: Option<&str>,
    member_count: usize,
) -> (r: Option<QuestionIndexEntry>)
    ensures
        match r {
            Some(e) => entry_of(
                *content,
                nav@,
                collection@,
                text::opt_str(aspect),
                member_count as nat,
            ) == Some(e@),
            None => entry_of(
                *content,
                nav@,
                collection@,
                text::opt_str(aspect),
                member_count as nat,
            ) is None,
        },
{
    let leaf: String = collection.last_segment();
    match questions::parse_collection_leaf(leaf.as_str()) {
        Some(k) => {
            if !k.same(collection) {
                return None;
            }
        },
        None => {
            return None;
        },
    }
    match aspect {
        Some(slug) => {
            if !garden::is_valid_aspect_slug(slug) {
                return None;
            }
        },
        None => {},
    }
    let headline: QuestionHeadline = questions::question_headline(content, collection, aspect);
    let ctx: QuestionCtx = questions::build_question_ctx(nav, collection, aspect, headline);
    let dom_suffix: String = match aspect {
        Some(a) => text::cat3(leaf.as_str(), "-", a),
        None => leaf.clone(),
    };
    Some(
        QuestionIndexEntry {
            collection: collection.copy(),
            aspect: ctx.aspect,
            leaf,
            title: ctx.title,
            member_count,
            question_path: ctx.question_path,
            garden_href: ctx.garden_href,
            thread_href: ctx.thread_href,
            headline: ctx.headline,
            dom_suffix,
        },
    )
}

/// An entry, if there is one.
pub open spec fn if_entry(e: Option<EntryModel>) -> Seq<EntryModel> {
    match e {
        Some(m) => seq![m],
        None => Seq::empty(),
    }
}

/// The entries of a scope under some aspects.
pub open spec fn aspect_entries(
    c: ContentState,
    nav: NavModel,
    scope: Seq<char>,
    slugs: Seq<Seq<char>>,
    n: nat,
) -> Seq<EntryModel>
    decreases slugs.len(),
{
    if slugs.len() == 0 {
        Seq::empty()
    } else {
        aspect_entries(c, nav, scope, slugs.drop_last(), n) + if_entry(
            entry_of(c, nav, scope, Some(slugs.last()), n),
        )
    }
}

/// The entries of a scope: by itself, then under each prompted aspect.
pub open spec fn scope_entries(c: ContentState, nav: NavModel, scope: Seq<char>, n: nat) -> Seq<
    EntryModel,
> {
    if_entry(entry_of(c, nav, scope, None, n)) + aspect_entries(
        c,
        nav,
        scope,
        prompted(c, scope),
        n,
    )
}

/// A scope with the number of its members that can be compared.
pub struct ScopeCount {
    pub scope: ItemId,
    pub members: usize,
}

impl View for ScopeCount {
    type V = (Seq<char>, nat);

    open spec fn view(&self) -> (Seq<char>, nat) {
        (self.scope@, self.members as nat)
    }
}

/// The listed scopes among the first `n` that have at least two members to compare.
pub open spec fn askable_upto(c: ContentState, n: int) -> Seq<(Seq<char>, nat)>
    decreases n,
{
    if n <= 0 {
        Seq::empty()
    } else {
        let k = c.members_by_scope@[n - 1].scope@;
        let front = askable_upto(c, n - 1);
        let m = landing::contestants(c, k).len();
        if landing::is_listable(k) && m >= 2 {
            front.push((k, m))
        } else {
            front
        }
    }
}

/// What scopes are ordered by: the latest activity first, then more members, then the key.
pub open spec fn bump_keys(s: ReducerState, c: ContentState, scopes: Seq<(Seq<char>, nat)>) -> Seq<Key> {
    Seq::new(
        scopes.len(),
        |i: int|
            Key {
                major: -activity_of(s, c, scopes[i].0, None),
                minor: -(scopes[i].1 as int),
                text: scopes[i].0,
            },
    )
}

/// The scopes that can be asked about, most recently active first.
pub open spec fn askable(s: ReducerState, c: ContentState) -> Seq<(Seq<char>, nat)> {
    let scopes = askable_upto(c, c.members_by_scope@.len() as int);
    sort::pick(scopes, sort::stable_order(bump_keys(s, c, scopes)))
}

/// The entries of some scopes one after the other.
pub open spec fn entries_of(c: ContentState, nav: NavModel, scopes: Seq<(Seq<char>, nat)>) -> Seq<
    EntryModel,
>
    decreases scopes.len(),
{
    if scopes.len() == 0 {
        Seq::empty()
    } else {
        entries_of(c, nav, scopes.drop_last()) + scope_entries(
            c,
            nav,
            scopes.last().0,
            scopes.last().1,
        )
    }
}

/// The first entries, up to the number that is listed.
pub open spec fn capped(v: Seq<EntryModel>) -> Seq<EntryModel> {
    if v.len() > QUESTION_INDEX_CAP {
        v.take(QUESTION_INDEX_CAP as int)
    } else {
        v
    }
}

/// The entries of the index.
pub open spec fn index_entries(s: ReducerState, c: ContentState, nav: NavModel) -> Seq<EntryModel> {
    capped(entries_of(c, nav, askable(s, c)))
}

fn push_entry(out: &mut Vec<QuestionIndexEntry>, e: Option<QuestionIndexEntry>)
    ensures
        state::rows(final(out)@) == state::rows(old(out)@) + if_entry(
            match e {
                Some(m) => Some(m@),
                None => None,
            },
        ),
{
    let ghost before = state::rows(out@);
    match e {
        Some(m) => {
            proof {
                state::lemma_rows_push(out@, m);
            }
            out.push(m);
            assert(state::rows(out@) =~= before + seq![m@]);
        },
        None => {
            assert(state::rows(out@) =~= before + Seq::<EntryModel>::empty());
        },
    }
}

fn push_scope_entries(
    content: &ContentState,
    nav: &ThreadNav,
    scope: &ItemId,
    members: usize,
    out: &mut Vec<QuestionIndexEntry>,
)
    ensures
        state::rows(final(out)@) == state::rows(old(out)@) + scope_entries(
            *content,
            nav@,
            scope@,
            members as nat,
        ),
{
    let ghost start = state::rows(out@);
    push_entry(out, entry_from_scope(content, nav, scope, None, members));
    let ghost head = state::rows(out@);
    let slugs: Vec<String> = prompted_aspects(content, scope);
    let ghost sv = text::views(slugs@);
    let mut i: usize = 0;
    assert(head + aspect_entries(*content, nav@, scope@, sv.take(0), members as nat) =~= head);
    while i < slugs.len()
        invariant
            i <= slugs.len(),
            sv == text::views(slugs@),
            state::rows(out@) == head + aspect_entries(
                *content,
                nav@,
                scope@,
                sv.take(i as int),
                members as nat,
            ),
        decreases slugs.len() - i,
    {
        let ghost before = aspect_entries(
            *content,
            nav@,
            scope@,
            sv.take(i as int),
            members as nat,
        );
        assert(sv.take(i + 1).drop_last() =~= sv.take(i as int));
        assert(sv.take(i + 1).last() == slugs@[i as int]@);
        let e: Option<QuestionIndexEntry> = entry_from_scope(
            content,
            nav,
            scope,
            Some(slugs[i].as_str()),
            members,
        );
        push_entry(out, e);
        assert(forall|x: Seq<EntryModel>| #[trigger] (head + before + x) =~= head + (before + x));
        i = i + 1;
    }
    assert(sv.take(sv.len() as int) =~= sv);
    assert(state::rows(out@) =~= start + scope_entries(*content, nav@, scope@, members as nat));
}

fn askable_scopes(reduced: &ReducerState, content: &ContentState) -> (r: Vec<ScopeCount>)
    ensures
        state::rows(r@) == askable(*reduced, *content),
{
    let mut all: Vec<ScopeCount> = Vec::new();
    let mut i: usize = 0;
    assert(state::rows(all@) =~= askable_upto(*content, 0));
    while i < content.members_by_scope.len()
        invariant
            i <= content.members_by_scope.len(),
            state::rows(all@) == askable_upto(*content, i as int),
        decreases content.members_by_scope.len() - i,
    {
        let scope: &ItemId = &content.members_by_scope[i].scope;
        if landing::is_listable_scope(scope) {
            let members: Vec<ItemId> = content.comparable_items(&content.members_of(scope));
            assert(paths::keys(members@).len() == members@.len());
            if members.len() >= 2 {
                let row = ScopeCount { scope: scope.copy(), members: members.len() };
                proof {
                    state::lemma_rows_push(all@, row);
                }
                all.push(row);
            }
        }
        i = i + 1;
    }
    let ghost rows = state::rows(all@);
    let ghost want = bump_keys(*reduced, *content, rows);
    let mut keys: Vec<SortKey> = Vec::new();
    let mut j: usize = 0;
    while j < all.len()
        invariant
            j <= all.len(),
            keys.len() == j,
            rows == state::rows(all@),
            want == bump_keys(*reduced, *content, rows),
            forall|m: int| 0 <= m < j ==> (#[trigger] keys@[m])@ == want[m],
        decreases all.len() - j,
    {
        assert(rows[j as int] == all@[j as int]@);
        let ts: i64 = question_activity(reduced, content, &all[j].scope, None);
        let key = SortKey {
            major: -(ts as i128),
            minor: -(all[j].members as i128),
            text: all[j].scope.to_storage_string(),
        };
        keys.push(key);
        j = j + 1;
    }
    assert(sort::key_views(keys@) =~= want);
    let order: Vec<usize> = sort::order_by(&keys);
    let mut r: Vec<ScopeCount> = Vec::new();
    let mut k: usize = 0;
    while k < order.len()
        invariant
            k <= order.len(),
            r.len() == k,
            forall|m: int| 0 <= m < order@.len() ==> (#[trigger] order@[m]) < all@.len(),
            forall|m: int| 0 <= m < k ==> (#[trigger] r@[m])@ == all@[order@[m] as int]@,
        decreases order.len() - k,
    {
        let row: &ScopeCount = &all[order[k]];
        r.push(ScopeCount { scope: row.scope.copy(), members: row.members });
        k = k + 1;
    }
    proof {
        let o = sort::ints(order@);
        assert forall|m: int| 0 <= m < r@.len() implies #[trigger] state::rows(r@)[m]
            == sort::pick(rows, o)[m] by {
            assert(r@[m]@ == all@[order@[m] as int]@);
            assert(o[m] == order@[m] as int);
            assert(rows[o[m]] == all@[o[m]]@);
        }
        assert(state::rows(r@) =~= sort::pick(rows, o));
    }
    r
}

proof fn lemma_entries_prefix(c: ContentState, nav: NavModel, scopes: Seq<(Seq<char>, nat)>, n: int)
    requires
        0 <= n <= scopes.len(),
    ensures
        entries_of(c, nav, scopes.take(n)).len() <= entries_of(c, nav, scopes).len(),
        forall|i: int|
            0 <= i < entries_of(c, nav, scopes.take(n)).len() ==> entries_of(
                c,
                nav,
                scopes.take(n),
            )[i] == #[trigger] entries_of(c, nav, scopes)[i],
    decreases scopes.len() - n,
{
    if n == scopes.len() {
        assert(scopes.take(n) =~= scopes);
    } else {
        lemma_entries_prefix(c, nav, scopes, n + 1);
        assert(scopes.take(n + 1).drop_last() =~= scopes.take(n));
        let a = entries_of(c, nav, scopes.take(n));
        let b = entries_of(c, nav, scopes.take(n + 1));
        assert forall|i: int| 0 <= i < a.len() implies a[i] == #[trigger] entries_of(
            c,
            nav,
            scopes,
        )[i] by {
            assert(a[i] == b[i]);
        }
    }
}

/// The questions of the index: every listed scope with at least two members to compare, by
/// itself and under each prompted aspect; most recently active first, up to a limit.
pub fn collect_question_entries(reduced: &ReducerState, content: &ContentState, nav: &ThreadNav) -> (r:
    Vec<QuestionIndexEntry>)
    ensures
        state::rows(r@) == index_entries(*reduced, *content, nav@),
{
    let scopes: Vec<ScopeCount> = askable_scopes(reduced, content);
    let ghost sv = state::rows(scopes@);
    let ghost full = entries_of(*content, nav@, sv);
    let mut entries: Vec<QuestionIndexEntry> = Vec::new();
    let mut i: usize = 0;
    assert(state::rows(entries@) =~= entries_of(*content, nav@, sv.take(0)));
    while i < scopes.len() && entries.len() < QUESTION_INDEX_CAP
        invariant
            i <= scopes.len(),
            sv == state::rows(scopes@),
            state::rows(entries@) == entries_of(*content, nav@, sv.take(i as int)),
        decreases scopes.len() - i,
    {
        assert(sv.take(i + 1).drop_last() =~= sv.take(i as int));
        assert(sv.take(i + 1).last() == scopes@[i as int]@);
        push_scope_entries(content, nav, &scopes[i].scope, scopes[i].members, &mut entries);
        i = i + 1;
    }
    let ghost ev = state::rows(entries@);
    assert(ev.len() == entries@.len());
    proof {
        lemma_entries_prefix(*content, nav@, sv, i as int);
    }
    if entries.len() <= QUESTION_INDEX_CAP {
        if i == scopes.len() {
            assert(sv.take(sv.len() as int) =~= sv);
        } else {
            assert(full.take(QUESTION_INDEX_CAP as int) =~= ev);
            assert(full.len() == QUESTION_INDEX_CAP ==> full =~= ev);
        }
        return entries;
    }
    entries.truncate(QUESTION_INDEX_CAP);
    assert(state::rows(entries@) =~= full.take(QUESTION_INDEX_CAP as int));
    entries
}

/// The index asks about the most recently active scope first; of two that were active at the
/// same time, the one with more members comes first.
pub proof fn law_index_is_bump_ordered(s: ReducerState, c: ContentState, i: int, j: int)
    requires
        0 <= i < j < askable(s, c).len(),
    ensures
        activity_of(s, c, askable(s, c)[i].0, None) >= activity_of(s, c, askable(s, c)[j].0, None),
        activity_of(s, c, askable(s, c)[i].0, None) == activity_of(s, c, askable(s, c)[j].0, None)
            ==> askable(s, c)[i].1 >= askable(s, c)[j].1,
{
    let scopes = askable_upto(c, c.members_by_scope@.len() as int);
    let keys = bump_keys(s, c, scopes);
    let order = sort::stable_order(keys);
    sort::lemma_stable_order(keys);
    assert(0 <= order[i] < scopes.len() && 0 <= order[j] < scopes.len());
    assert(askable(s, c)[i] == scopes[order[i]] && askable(s, c)[j] == scopes[order[j]]);
    assert(keys[order[i]].major == -activity_of(s, c, scopes[order[i]].0, None));
    assert(keys[order[j]].major == -activity_of(s, c, scopes[order[j]].0, None));
}

/// What entries ask about: a collection, and an aspect of it or none.
pub open spec fn entry_keys(v: Seq<EntryModel>) -> Seq<(Seq<char>, Option<Seq<char>>)> {
    Seq::new(v.len(), |i: int| (v[i].collection, v[i].aspect))
}

/// The scopes of a list.
pub open spec fn scopes_in(v: Seq<(Seq<char>, nat)>) -> Seq<Seq<char>> {
    Seq::new(v.len(), |i: int| v[i].0)
}

proof fn lemma_askable_differ(c: ContentState, n: int)
    requires
        state::scope_keys(c).no_duplicates(),
        0 <= n <= c.members_by_scope@.len(),
    ensures
        scopes_in(askable_upto(c, n)).no_duplicates(),
        forall|i: int|
            0 <= i < askable_upto(c, n).len() ==> state::scope_keys(c).take(n).contains(
                (#[trigger] askable_upto(c, n)[i]).0,
            ),
    decreases n,
{
    let ks = state::scope_keys(c);
    if n > 0 {
        lemma_askable_differ(c, n - 1);
        let front = askable_upto(c, n - 1);
        let all = askable_upto(c, n);
        assert forall|i: int| 0 <= i < front.len() implies (#[trigger] front[i]).0 != ks[n - 1]
            && ks.take(n).contains(front[i].0) by {
            let less = ks.take(n - 1);
            let k = choose|k: int| 0 <= k < less.len() && less[k] == front[i].0;
            assert(ks.take(n)[k] == front[i].0 && ks[k] == front[i].0);
        }
        assert(ks.take(n)[n - 1] == c.members_by_scope@[n - 1].scope@);
        assert forall|i: int| 0 <= i < all.len() implies ks.take(n).contains(
            (#[trigger] all[i]).0,
        ) by {
            if i < front.len() {
                assert(all[i] == front[i]);
            }
        }
        assert forall|i: int, j: int|
            0 <= i < all.len() && 0 <= j < all.len() && i != j implies scopes_in(all)[i]
            != scopes_in(all)[j] by {
            if i < front.len() {
                assert(all[i] == front[i] && scopes_in(front)[i] == all[i].0);
            }
            if j < front.len() {
                assert(all[j] == front[j] && scopes_in(front)[j] == all[j].0);
            }
        }
    }
}

proof fn lemma_aspect_entries_differ(
    c: ContentState,
    nav: NavModel,
    scope: Seq<char>,
    slugs: Seq<Seq<char>>,
    n: nat,
)
    requires
        slugs.no_duplicates(),
    ensures
        entry_keys(aspect_entries(c, nav, scope, slugs, n)).no_duplicates(),
        forall|i: int|
            0 <= i < aspect_entries(c, nav, scope, slugs, n).len() ==> {
                let e = #[trigger] aspect_entries(c, nav, scope, slugs, n)[i];
                e.collection == scope && e.aspect is Some && slugs.contains(e.aspect.unwrap())
            },
    decreases slugs.len(),
{
    if slugs.len() > 0 {
        let less = slugs.drop_last();
        lemma_aspect_entries_differ(c, nav, scope, less, n);
        let front = aspect_entries(c, nav, scope, less, n);
        let all = aspect_entries(c, nav, scope, slugs, n);
        assert(slugs[slugs.len() - 1] == slugs.last());
        assert forall|i: int| 0 <= i < front.len() implies (#[trigger] front[i]).collection == scope
            && front[i].aspect is Some && front[i].aspect != Some(slugs.last()) && slugs.contains(
            front[i].aspect.unwrap(),
        ) by {
            let x = front[i].aspect.unwrap();
            let k = choose|k: int| 0 <= k < less.len() && less[k] == x;
            assert(slugs[k] == x);
        }
        assert forall|i: int| 0 <= i < all.len() implies {
            let e = #[trigger] all[i];
            e.collection == scope && e.aspect is Some && slugs.contains(e.aspect.unwrap())
        } by {
            if i < front.len() {
                assert(all[i] == front[i]);
            } else {
                assert(all[i].aspect == Some(slugs.last()));
            }
        }
        assert(all.len() <= front.len() + 1);
        assert forall|i: int, j: int|
            0 <= i < all.len() && 0 <= j < all.len() && i != j implies entry_keys(all)[i]
            != entry_keys(all)[j] by {
            if i < front.len() {
                assert(all[i] == front[i]);
                assert(entry_keys(front)[i] == entry_keys(all)[i]);
            }
            if j < front.len() {
                assert(all[j] == front[j]);
                assert(entry_keys(front)[j] == entry_keys(all)[j]);
            }
        }
    }
}

proof fn lemma_scope_entries_differ(c: ContentState, nav: NavModel, scope: Seq<char>, n: nat)
    ensures
        entry_keys(scope_entries(c, nav, scope, n)).no_duplicates(),
        forall|i: int|
            0 <= i < scope_entries(c, nav, scope, n).len() ==> (#[trigger] scope_entries(
                c,
                nav,
                scope,
                n,
            )[i]).collection == scope,
{
    let slugs = prompted(c, scope);
    sort::law_sorted_set(
        prompted_upto(c, c.aspect_prompts@.len() as int) + prompted_links(
            questions::scope_aspects(c, scope),
        ),
    );
    assert(slugs.no_duplicates()) by {
        assert forall|i: int, j: int|
            0 <= i < slugs.len() && 0 <= j < slugs.len() && i != j implies slugs[i] != slugs[j] by {
            text::lemma_text_order(slugs[i], slugs[j]);
            if i < j {
                assert(text::text_lt(slugs[i], slugs[j]));
            } else {
                assert(text::text_lt(slugs[j], slugs[i]));
            }
        }
    }
    lemma_aspect_entries_differ(c, nav, scope, slugs, n);
    let here = if_entry(entry_of(c, nav, scope, None, n));
    let rest = aspect_entries(c, nav, scope, slugs, n);
    let all = here + rest;
    assert forall|i: int, j: int|
        0 <= i < all.len() && 0 <= j < all.len() && i != j implies entry_keys(all)[i]
        != entry_keys(all)[j] by {
        if i >= here.len() {
            assert(all[i] == rest[i - here.len()]);
            assert(entry_keys(rest)[i - here.len()] == entry_keys(all)[i]);
        }
        if j >= here.len() {
            assert(all[j] == rest[j - here.len()]);
            assert(entry_keys(rest)[j - here.len()] == entry_keys(all)[j]);
        }
    }
    assert forall|i: int| 0 <= i < all.len() implies (#[trigger] all[i]).collection == scope by {
        if i >= here.len() {
            assert(all[i] == rest[i - here.len()]);
        }
    }
}

proof fn lemma_entries_differ(c: ContentState, nav: NavModel, scopes: Seq<(Seq<char>, nat)>)
    requires
        scopes_in(scopes).no_duplicates(),
    ensures
        entry_keys(entries_of(c, nav, scopes)).no_duplicates(),
        forall|i: int|
            0 <= i < entries_of(c, nav, scopes).len() ==> scopes_in(scopes).contains(
                (#[trigger] entries_of(c, nav, scopes)[i]).collection,
            ),
    decreases scopes.len(),
{
    if scopes.len() > 0 {
        let less = scopes.drop_last();
        let last = scopes.last();
        assert(scopes_in(less) =~= scopes_in(scopes).drop_last());
        lemma_entries_differ(c, nav, less);
        lemma_scope_entries_differ(c, nav, last.0, last.1);
        let front = entries_of(c, nav, less);
        let here = scope_entries(c, nav, last.0, last.1);
        let all = front + here;
        assert(scopes_in(scopes)[scopes.len() - 1] == last.0);
        assert forall|i: int| 0 <= i < front.len() implies (#[trigger] front[i]).collection != last.0
            && scopes_in(scopes).contains(front[i].collection) by {
            let k = choose|k: int|
                0 <= k < less.len() && scopes_in(less)[k] == front[i].collection;
            assert(scopes_in(scopes)[k] == front[i].collection);
        }
        assert forall|i: int| 0 <= i < all.len() implies scopes_in(scopes).contains(
            (#[trigger] all[i]).collection,
        ) by {
            if i < front.len() {
                assert(all[i] == front[i]);
            } else {
                assert(all[i] == here[i - front.len()]);
            }
        }
        assert forall|i: int, j: int|
            0 <= i < all.len() && 0 <= j < all.len() && i != j implies entry_keys(all)[i]
            != entry_keys(all)[j] by {
            if i < front.len() {
                assert(all[i] == front[i] && entry_keys(front)[i] == entry_keys(all)[i]);
            } else {
                assert(all[i] == here[i - front.len()]);
                assert(entry_keys(here)[i - front.len()] == entry_keys(all)[i]);
            }
            if j < front.len() {
                assert(all[j] == front[j] && entry_keys(front)[j] == entry_keys(all)[j]);
            } else {
                assert(all[j] == here[j - front.len()]);
                assert(entry_keys(here)[j - front.len()] == entry_keys(all)[j]);
            }
        }
    }
}

/// The index asks every question once.
pub proof fn law_index_asks_once(s: ReducerState, c: ContentState, nav: NavModel)
    requires
        c.wf(),
    ensures
        entry_keys(index_entries(s, c, nav)).no_duplicates(),
{
    let scopes = askable_upto(c, c.members_by_scope@.len() as int);
    let order = sort::stable_order(bump_keys(s, c, scopes));
    lemma_askable_differ(c, c.members_by_scope@.len() as int);
    sort::lemma_stable_order(bump_keys(s, c, scopes));
    sort::lemma_pick_differs(scopes_in(scopes), order);
    assert(scopes_in(askable(s, c)) =~= sort::pick(scopes_in(scopes), order));
    lemma_entries_differ(c, nav, askable(s, c));
    let full = entries_of(c, nav, askable(s, c));
    let some = index_entries(s, c, nav);
    assert forall|i: int, j: int|
        0 <= i < some.len() && 0 <= j < some.len() && i != j implies entry_keys(some)[i]
        != entry_keys(some)[j] by {
        assert(entry_keys(some)[i] == entry_keys(full)[i]);
        assert(entry_keys(some)[j] == entry_keys(full)[j]);
    }
}

/// The index is no longer than its limit.
pub proof fn law_index_is_capped(s: ReducerState, c: ContentState, nav: NavModel)
    ensures
        index_entries(s, c, nav).len() <= QUESTION_INDEX_CAP,
{
}

// ---------------------------------------------------------------------------
// What the index is made of
// ---------------------------------------------------------------------------

proof fn lemma_latest_between(
    recent: Seq<RecentModel>,
    members: Seq<Seq<char>>,
    i: int,
    best: Option<int>,
)
    requires
        0 <= i <= recent.len(),
    ensures
        match latest_between(recent, members, i, best) {
            Some(ts) => {
                &&& best is Some ==> ts >= best.unwrap()
                &&& forall|k: int|
                    i <= k < recent.len() && members.contains((#[trigger] recent[k]).a)
                        && members.contains(recent[k].b) ==> recent[k].ts <= ts
                &&& best == Some(ts) || exists|k: int|
                    i <= k < recent.len() && members.contains((#[trigger] recent[k]).a)
                        && members.contains(recent[k].b) && recent[k].ts == ts
            },
            None => best is None && forall|k: int|
                i <= k < recent.len() ==> !(members.contains((#[trigger] recent[k]).a)
                    && members.contains(recent[k].b)),
        },
    decreases recent.len() - i,
{
    if i < recent.len() {
        let next = if members.contains(recent[i].a) && members.contains(recent[i].b) {
            match best {
                Some(b) => if recent[i].ts >= b {
                    Some(recent[i].ts)
                } else {
                    Some(b)
                },
                None => Some(recent[i].ts),
            }
        } else {
            best
        };
        lemma_latest_between(recent, members, i + 1, next);
        let r = latest_between(recent, members, i, best);
        match r {
            Some(ts) => {
                if next == Some(ts) && best != Some(ts) {
                    assert(recent[i].ts == ts);
                }
            },
            None => {},
        }
    }
}

/// A question was last voted on when the latest vote between two of its members was cast, or
/// never; under an aspect, when the newest vote of its graph was.
pub proof fn law_vote_activity(c: ContentState, collection: Seq<char>)
    ensures
        forall|k: int|
            0 <= k < c.ranking_group.recent_votes@.len() && state::members_of(
                c,
                collection,
            ).contains((#[trigger] c.ranking_group.recent_votes@[k]).a@) && state::members_of(
                c,
                collection,
            ).contains(c.ranking_group.recent_votes@[k].b@) ==> c.ranking_group.recent_votes@[k].ts
                <= vote_activity(c, collection, None),
        vote_activity(c, collection, None) == 0 || exists|k: int|
            0 <= k < c.ranking_group.recent_votes@.len() && state::members_of(
                c,
                collection,
            ).contains((#[trigger] c.ranking_group.recent_votes@[k]).a@) && state::members_of(
                c,
                collection,
            ).contains(c.ranking_group.recent_votes@[k].b@) && c.ranking_group.recent_votes@[k].ts
                == vote_activity(c, collection, None),
{
    let v = c.ranking_group.recent_votes@;
    let recent = state::rows(v);
    let members = state::members_of(c, collection);
    lemma_latest_between(recent, members, 0, None);
    assert forall|k: int|
        0 <= k < v.len() && members.contains((#[trigger] v[k]).a@) && members.contains(
            v[k].b@,
        ) implies v[k].ts <= vote_activity(c, collection, None) by {
        assert(recent[k] == v[k]@);
    }
    match latest_between(recent, members, 0, None) {
        Some(ts) => {
            let k = choose|k: int|
                0 <= k < recent.len() && members.contains((#[trigger] recent[k]).a)
                    && members.contains(recent[k].b) && recent[k].ts == ts;
            assert(recent[k] == v[k]@);
            assert(members.contains(v[k].a@));
        },
        None => {},
    }
}

/// A question is as recently active as its latest vote or the thread of its name, whichever is
/// later.
pub proof fn law_activity(
    s: ReducerState,
    c: ContentState,
    collection: Seq<char>,
    aspect: Option<Seq<char>>,
)
    ensures
        ({
            let thread = state::thread_activity(
                s,
                None,
                nav::canonical_tag(paths::last_piece(collection)),
            );
            let vote = vote_activity(c, collection, aspect);
            let r = activity_of(s, c, collection, aspect);
            r >= thread && r >= vote && (r == thread || r == vote)
        }),
{
}

proof fn lemma_askable(c: ContentState, n: int, x: (Seq<char>, nat))
    requires
        0 <= n <= c.members_by_scope@.len(),
    ensures
        askable_upto(c, n).contains(x) <==> exists|k: int|
            0 <= k < n && (#[trigger] c.members_by_scope@[k]).scope@ == x.0 && landing::is_listable(x.0)
                && x.1 == landing::contestants(c, x.0).len() && x.1 >= 2,
    decreases n,
{
    if n > 0 {
        lemma_askable(c, n - 1, x);
        let front = askable_upto(c, n - 1);
        let all = askable_upto(c, n);
        if all.contains(x) {
            let k = choose|k: int| 0 <= k < all.len() && all[k] == x;
            if k < front.len() {
                assert(front[k] == x);
                assert(front.contains(x));
            } else {
                assert(c.members_by_scope@[n - 1].scope@ == x.0);
            }
        }
        if front.contains(x) {
            let k = choose|k: int| 0 <= k < front.len() && front[k] == x;
            assert(all[k] == x);
        }
        let key = c.members_by_scope@[n - 1].scope@;
        if key == x.0 && landing::is_listable(key) && x.1 == landing::contestants(c, key).len() && x.1
            >= 2 {
            assert(all[all.len() - 1] == x);
        }
    }
}

/// The index asks about every listed scope with at least two members that can be compared, and
/// about no other; of two that are alike in activity and members, the smaller key comes first.
pub proof fn law_index_asks_about(s: ReducerState, c: ContentState, x: (Seq<char>, nat))
    ensures
        askable(s, c).contains(x) <==> exists|k: int|
            0 <= k < c.members_by_scope@.len() && (#[trigger] c.members_by_scope@[k]).scope@ == x.0
                && landing::is_listable(x.0) && x.1 == landing::contestants(c, x.0).len() && x.1 >= 2,
        forall|i: int, j: int|
            0 <= i < j < askable(s, c).len() ==> {
                let a = #[trigger] askable(s, c)[i];
                let b = #[trigger] askable(s, c)[j];
                let ta = activity_of(s, c, a.0, None);
                let tb = activity_of(s, c, b.0, None);
                ta > tb || (ta == tb && (a.1 > b.1 || (a.1 == b.1 && !text::text_lt(b.0, a.0))))
            },
{
    let n = c.members_by_scope@.len() as int;
    let scopes = askable_upto(c, n);
    let keys = bump_keys(s, c, scopes);
    lemma_askable(c, n, x);
    sort::lemma_sorted_rows(scopes, keys);
    let o = sort::stable_order(keys);
    let r = askable(s, c);
    assert forall|i: int, j: int| 0 <= i < j < r.len() implies {
        let a = #[trigger] r[i];
        let b = #[trigger] r[j];
        let ta = activity_of(s, c, a.0, None);
        let tb = activity_of(s, c, b.0, None);
        ta > tb || (ta == tb && (a.1 > b.1 || (a.1 == b.1 && !text::text_lt(b.0, a.0))))
    } by {
        assert(!sort::key_lt(keys[o[j]], keys[o[i]]));
    }
}

/// The index lists, scope by scope in their order, the entry of the scope by itself and then one
/// for each of its prompted aspects, fifty entries at most.
pub proof fn law_index_entries(
    c: ContentState,
    nav: NavModel,
    scopes: Seq<(Seq<char>, nat)>,
    x: (Seq<char>, nat),
    v: Seq<EntryModel>,
    i: int,
)
    ensures
        entries_of(c, nav, Seq::empty()).len() == 0,
        entries_of(c, nav, scopes.push(x)) == entries_of(c, nav, scopes) + scope_entries(
            c,
            nav,
            x.0,
            x.1,
        ),
        match entry_of(c, nav, x.0, None, x.1) {
            Some(e) => scope_entries(c, nav, x.0, x.1).len() > 0 && scope_entries(c, nav, x.0, x.1)[0]
                == e,
            None => true,
        },
        capped(v).len() == if v.len() < 50 {
            v.len()
        } else {
            50
        },
        0 <= i < capped(v).len() ==> capped(v)[i] == v[i],
{
    assert(scopes.push(x).drop_last() =~= scopes);
}

/// An entry says what its question asks, how many members it has, and where it is found.
pub proof fn law_entries(
    c: ContentState,
    nav: NavModel,
    collection: Seq<char>,
    slug: Seq<char>,
    n: nat,
)
    requires
        questions::collection_key(paths::last_piece(collection)) == Some(collection),
    ensures
        ({
            let leaf = paths::last_piece(collection);
            let e = entry_of(c, nav, collection, None, n);
            &&& e is Some
            &&& e.unwrap().collection == collection
            &&& e.unwrap().aspect is None
            &&& e.unwrap().leaf == leaf
            &&& e.unwrap().member_count == n
            &&& e.unwrap().title == questions::title_of(questions::headline_of(c, collection, None))
            &&& e.unwrap().question_path == nav::vote_prefix(nav) + "/q/"@ + leaf
            &&& e.unwrap().garden_href == nav::item_href(nav, collection)
            &&& e.unwrap().thread_href == nav.thread_prefix + "/"@ + leaf
        }),
        garden::is_aspect_slug(slug) ==> {
            let leaf = paths::last_piece(collection);
            let e = entry_of(c, nav, collection, Some(slug), n);
            &&& e is Some
            &&& e.unwrap().aspect == Some(slug)
            &&& e.unwrap().title == questions::title_of(
                questions::headline_of(c, collection, Some(slug)),
            )
            &&& e.unwrap().question_path == nav::vote_prefix(nav) + "/q/"@ + leaf + "/"@ + slug
            &&& e.unwrap().dom_suffix == leaf + "-"@ + slug
        },
        !garden::is_aspect_slug(slug) ==> entry_of(c, nav, collection, Some(slug), n) is None,
{
}

proof fn lemma_prompted(c: ContentState, n: int, slug: Seq<char>)
    requires
        0 <= n <= c.aspect_prompts@.len(),
    ensures
        prompted_upto(c, n).contains(slug) <==> garden::is_aspect_slug(slug) && exists|k: int|
            0 <= k < n && (#[trigger] c.aspect_prompts@[k]).slug@ == slug && text::trim(
                c.aspect_prompts@[k].prompt@,
            ).len() > 0,
    decreases n,
{
    if n > 0 {
        lemma_prompted(c, n - 1, slug);
        let front = prompted_upto(c, n - 1);
        let all = prompted_upto(c, n);
        if all.contains(slug) {
            let k = choose|k: int| 0 <= k < all.len() && all[k] == slug;
            if k < front.len() {
                assert(front[k] == slug);
                assert(front.contains(slug));
            } else {
                assert(c.aspect_prompts@[n - 1].slug@ == slug);
            }
        }
        if front.contains(slug) {
            let k = choose|k: int| 0 <= k < front.len() && front[k] == slug;
            assert(all[k] == slug);
        }
        let p = c.aspect_prompts@[n - 1];
        if p.slug@ == slug && is_prompted(p.slug@, p.prompt@) {
            assert(all[all.len() - 1] == slug);
        }
    }
}

/// A well-spelled aspect with a prompt that is not blank is a question of every scope.
pub proof fn law_prompted_aspects(c: ContentState, collection: Seq<char>, k: int)
    requires
        0 <= k < c.aspect_prompts@.len(),
        garden::is_aspect_slug(c.aspect_prompts@[k].slug@),
        text::trim(c.aspect_prompts@[k].prompt@).len() > 0,
    ensures
        prompted(c, collection).contains(c.aspect_prompts@[k].slug@),
{
    let n = c.aspect_prompts@.len() as int;
    let slug = c.aspect_prompts@[k].slug@;
    lemma_prompted(c, n, slug);
    let a = prompted_upto(c, n);
    let b = prompted_links(questions::scope_aspects(c, collection));
    let i = choose|i: int| 0 <= i < a.len() && a[i] == slug;
    assert((a + b)[i] == slug);
    sort::law_sorted_set(a + b);
}

proof fn lemma_prompted_links(links: Seq<(Seq<char>, Option<Seq<char>>)>, slug: Seq<char>)
    ensures
        prompted_links(links).contains(slug) <==> garden::is_aspect_slug(slug) && exists|k: int|
            0 <= k < links.len() && (#[trigger] links[k]).0 == slug && links[k].1 is Some
                && links[k].1.unwrap().len() > 0,
    decreases links.len(),
{
    if links.len() > 0 {
        let rest = links.drop_last();
        lemma_prompted_links(rest, slug);
        let front = prompted_links(rest);
        let all = prompted_links(links);
        let n = links.len() - 1;
        if all.contains(slug) {
            let k = choose|k: int| 0 <= k < all.len() && all[k] == slug;
            if k < front.len() {
                assert(front[k] == slug);
                assert(front.contains(slug));
                let j = choose|j: int|
                    0 <= j < rest.len() && (#[trigger] rest[j]).0 == slug && rest[j].1 is Some
                        && rest[j].1.unwrap().len() > 0;
                assert(links[j] == rest[j]);
            } else {
                assert(links[n].0 == slug);
            }
        }
        if garden::is_aspect_slug(slug) && exists|k: int|
            0 <= k < links.len() && (#[trigger] links[k]).0 == slug && links[k].1 is Some
                && links[k].1.unwrap().len() > 0 {
            let k = choose|k: int|
                0 <= k < links.len() && (#[trigger] links[k]).0 == slug && links[k].1 is Some
                    && links[k].1.unwrap().len() > 0;
            if k < n {
                assert(rest[k] == links[k]);
                let j = choose|j: int| 0 <= j < front.len() && front[j] == slug;
                assert(all[j] == slug);
            } else {
                assert(all[all.len() - 1] == slug);
            }
        }
    }
}

/// The aspects under which a scope is a question are well-spelled ones with a prompt that is not
/// blank, each once and in order.
pub proof fn law_prompted_only(c: ContentState, collection: Seq<char>, slug: Seq<char>)
    requires
        c.wf(),
        prompted(c, collection).contains(slug),
    ensures
        garden::is_aspect_slug(slug),
        exists|k: int|
            0 <= k < c.aspect_prompts@.len() && (#[trigger] c.aspect_prompts@[k]).slug@ == slug
                && text::trim(c.aspect_prompts@[k].prompt@).len() > 0,
        forall|i: int, j: int|
            0 <= i < j < prompted(c, collection).len() ==> text::text_lt(
                #[trigger] prompted(c, collection)[i],
                #[trigger] prompted(c, collection)[j],
            ),
{
    let n = c.aspect_prompts@.len() as int;
    let a = prompted_upto(c, n);
    let links = questions::scope_aspects(c, collection);
    let b = prompted_links(links);
    lemma_prompted(c, n, slug);
    lemma_prompted_links(links, slug);
    sort::law_sorted_set(a + b);
    assert((a + b).contains(slug));
    let k = choose|k: int| 0 <= k < (a + b).len() && (a + b)[k] == slug;
    if k < a.len() {
        assert(a[k] == slug);
        assert(a.contains(slug));
    } else {
        assert(b[k - a.len()] == slug);
        assert(b.contains(slug));
        let j = choose|j: int|
            0 <= j < links.len() && (#[trigger] links[j]).0 == slug && links[j].1 is Some
                && links[j].1.unwrap().len() > 0;
        assert(links[j].1 == questions::not_blank(state::prompt_of(c, slug)));
        let ks = state::prompt_keys(c);
        text::lemma_position(ks, slug);
        let p = text::position(ks, slug).unwrap();
        assert(ks[p] == c.aspect_prompts@[p].slug@);
        assert(text::trim(c.aspect_prompts@[p].prompt@).len() > 0);
    }
}

/// The entries of a scope under some aspects stand in the order of the aspects.
pub proof fn law_aspect_entries(
    c: ContentState,
    nav: NavModel,
    scope: Seq<char>,
    slugs: Seq<Seq<char>>,
    slug: Seq<char>,
    n: nat,
)
    ensures
        aspect_entries(c, nav, scope, Seq::empty(), n).len() == 0,
        aspect_entries(c, nav, scope, slugs.push(slug), n) == match entry_of(
            c,
            nav,
            scope,
            Some(slug),
            n,
        ) {
            Some(e) => aspect_entries(c, nav, scope, slugs, n).push(e),
            None => aspect_entries(c, nav, scope, slugs, n),
        },
        scope_entries(c, nav, scope, n) == match entry_of(c, nav, scope, None, n) {
            Some(e) => seq![e] + aspect_entries(c, nav, scope, prompted(c, scope), n),
            None => aspect_entries(c, nav, scope, prompted(c, scope), n),
        },
{
    assert(slugs.push(slug).drop_last() =~= slugs);
    let front = aspect_entries(c, nav, scope, slugs, n);
    match entry_of(c, nav, scope, Some(slug), n) {
        Some(e) => {
            assert(front + seq![e] =~= front.push(e));
        },
        None => {
            assert(front + Seq::<EntryModel>::empty() =~= front);
        },
    }
    if entry_of(c, nav, scope, None, n) is None {
        let rest = aspect_entries(c, nav, scope, prompted(c, scope), n);
        assert(Seq::<EntryModel>::empty() + rest =~= rest);
    }
}

} // verus!
