//! The questions that are still open, and the one that a reader is dealt first.

use vstd::prelude::*;

use crate::garden;
use crate::nav::{self, NavModel, ScopeId, ThreadNav};
use crate::outside;
use crate::paths::{self, ItemId};
use crate::sort::{self, Key, SortKey};
use crate::state::{self, AspectGroup, ContentState, GroupState, ItemPair, ReducerState, RecentVote};
use crate::text;
use crate::votes::{self, VoteSkipEntry, OPEN_INDEX_CAP};

verus! {

/// A question that is not yet fully judged: a scope, by itself or under one of its aspects.
#[derive(Debug)]
pub struct LandingQuestion {
    pub scope: ItemId,
    /// None for the canonical ranking.
    pub aspect: Option<String>,
    pub voted: u128,
    pub possible: u128,
    pub members: usize,
    pub last_vote_ts: i64,
}

/// The mathematical value of a [`LandingQuestion`].
pub struct QuestionModel {
    pub scope: Seq<char>,
    pub aspect: Option<Seq<char>>,
    pub voted: nat,
    pub possible: nat,
    pub members: nat,
    pub last_ts: int,
}

impl View for LandingQuestion {
    type V = QuestionModel;

    open spec fn view(&self) -> QuestionModel {
        QuestionModel {
            scope: self.scope@,
            aspect: text::opt_view(self.aspect),
            voted: self.voted as nat,
            possible: self.possible as nat,
            members: self.members as nat,
            last_ts: self.last_vote_ts as int,
        }
    }
}

impl LandingQuestion {
    /// A copy of the question.
    pub fn copy(&self) -> (r: LandingQuestion)
        ensures
            r@ == self@,
    {
        LandingQuestion {
            scope: self.scope.copy(),
            aspect: state::copy_opt(&self.aspect),
            voted: self.voted,
            possible: self.possible,
            members: self.members,
            last_vote_ts: self.last_vote_ts,
        }
    }
}

// ---------------------------------------------------------------------------
// Density
// ---------------------------------------------------------------------------

/// How many of some items have been compared with one.
pub open spec fn compared_with(g: GroupState, x: Seq<char>, items: Seq<Seq<char>>) -> nat
    decreases items.len(),
{
    if items.len() == 0 {
        0
    } else {
        compared_with(g, x, items.drop_last()) + if votes::holds_pair(
            g.voted_pairs@,
            x,
            items.last(),
        ) {
            1nat
        } else {
            0nat
        }
    }
}

/// How many pairs of some items have been compared.
pub open spec fn compared_pairs(g: GroupState, items: Seq<Seq<char>>) -> nat
    decreases items.len(),
{
    if items.len() == 0 {
        0
    } else {
        compared_pairs(g, items.drop_last()) + compared_with(g, items.last(), items.drop_last())
    }
}

/// How many pairs a number of items has.
pub open spec fn pairs_of(n: int) -> int {
    n * (n - 1) / 2
}

proof fn lemma_compared_with_bound(g: GroupState, x: Seq<char>, items: Seq<Seq<char>>)
    ensures
        compared_with(g, x, items) <= items.len(),
    decreases items.len(),
{
    if items.len() > 0 {
        lemma_compared_with_bound(g, x, items.drop_last());
    }
}

/// No more pairs are compared than there are.
pub proof fn law_compared_pairs_bound(g: GroupState, items: Seq<Seq<char>>)
    ensures
        compared_pairs(g, items) <= pairs_of(items.len() as int),
    decreases items.len(),
{
    if items.len() > 0 {
        let n = items.len() as int;
        law_compared_pairs_bound(g, items.drop_last());
        lemma_compared_with_bound(g, items.last(), items.drop_last());
        assert(n * (n - 1) == (n - 1) * (n - 2) + 2 * (n - 1)) by (nonlinear_arith);
        assert(pairs_of(n) == pairs_of(n - 1) + (n - 1));
    }
}

/// How many pairs of the members have been compared in a vote graph, and how many there are.
pub fn voted_density(group: &GroupState, members: &Vec<ItemId>) -> (r: (u128, u128))
    requires
        members@.len() >= 1,
    ensures
        r.0 == compared_pairs(*group, paths::keys(members@)),
        r.1 == pairs_of(members@.len() as int),
{
    let ghost keys = paths::keys(members@);
    let n: u128 = members.len() as u128;
    assert(n * (n - 1) <= 0xffff_ffff_ffff_ffff * 0xffff_ffff_ffff_ffff) by (nonlinear_arith)
        requires
            1 <= n <= 0xffff_ffff_ffff_ffff,
    ;
    assert(n * (n - 1) >= 0) by (nonlinear_arith)
        requires
            n >= 1,
    ;
    let possible: u128 = n * (n - 1) / 2;
    let mut voted: u128 = 0;
    let mut i: usize = 0;
    while i < members.len()
        invariant
            i <= members.len(),
            keys == paths::keys(members@),
            n == members.len(),
            possible == pairs_of(n as int),
            possible <= 0xffff_ffff_ffff_ffff * 0xffff_ffff_ffff_ffff,
            voted == compared_pairs(*group, keys.take(i as int)),
        decreases members.len() - i,
    {
        let ghost front = keys.take(i as int);
        let mut here: u128 = 0;
        let mut j: usize = 0;
        while j < i
            invariant
                j <= i,
                i < members.len(),
                keys == paths::keys(members@),
                front == keys.take(i as int),
                here <= j,
                here == compared_with(*group, keys[i as int], front.take(j as int)),
            decreases i - j,
        {
            assert(front.take(j + 1).drop_last() =~= front.take(j as int));
            assert(front.take(j + 1).last() == members@[j as int]@);
            assert(keys[i as int] == members@[i as int]@);
            if votes::pair_in(&group.voted_pairs, &members[i], &members[j]) {
                here = here + 1;
            }
            j = j + 1;
        }
        assert(front.take(i as int) =~= front);
        assert(keys.take(i + 1).drop_last() =~= front);
        assert(keys.take(i + 1).last() == keys[i as int]);
        proof {
            law_compared_pairs_bound(*group, keys.take(i + 1));
            lemma_pairs_grow(i + 1, n as int);
        }
        voted = voted + here;
        i = i + 1;
    }
    assert(keys.take(keys.len() as int) =~= keys);
    (voted, possible)
}

proof fn lemma_pairs_grow(a: int, b: int)
    requires
        1 <= a <= b,
    ensures
        pairs_of(a) <= pairs_of(b),
{
    assert(a * (a - 1) <= b * (b - 1)) by (nonlinear_arith)
        requires
            1 <= a <= b,
    ;
}

// ---------------------------------------------------------------------------
// Open questions
// ---------------------------------------------------------------------------

/// The time of the first vote, from place `i` on, whose ends are both members; zero for none.
pub open spec fn newest_between(recent: Seq<state::RecentModel>, members: Seq<Seq<char>>, i: int) -> int
    decreases recent.len() - i,
{
    if i < 0 || i >= recent.len() {
        0
    } else if members.contains(recent[i].a) && members.contains(recent[i].b) {
        recent[i].ts
    } else {
        newest_between(recent, members, i + 1)
    }
}

/// When two members were last compared in the canonical graph; zero for never.
pub fn last_canonical_vote_ts(content: &ContentState, members: &Vec<ItemId>) -> (r: i64)
    ensures
        r == newest_between(
            state::rows(content.ranking_group.recent_votes@),
            paths::keys(members@),
            0,
        ),
{
    let recent: &Vec<RecentVote> = &content.ranking_group.recent_votes;
    let ghost rv = state::rows(recent@);
    let ghost keys = paths::keys(members@);
    let mut i: usize = 0;
    while i < recent.len()
        invariant
            i <= recent.len(),
            rv == state::rows(recent@),
            recent@ == content.ranking_group.recent_votes@,
            keys == paths::keys(members@),
            newest_between(rv, keys, 0) == newest_between(rv, keys, i as int),
        decreases recent.len() - i,
    {
        assert(rv[i as int] == recent@[i as int]@);
        if paths::holds_item(members, &recent[i].a) && paths::holds_item(members, &recent[i].b) {
            return recent[i].ts;
        }
        i = i + 1;
    }
    0
}

/// Whether a key names a scope that is listed: a single segment in the ontology.
pub open spec fn is_listable(key: Seq<char>) -> bool {
    match paths::tilde_tail(key) {
        Some(t) => t.len() > 0 && !t.contains('/'),
        None => false,
    }
}

/// Whether an item is a scope that is listed.
pub fn is_listable_scope(id: &ItemId) -> (r: bool)
    ensures
        r == is_listable(id@),
{
    match id.tilde_tail() {
        Some(t) => {
            let c: Vec<char> = text::chars(t.as_str());
            c.len() > 0 && !text::has_char(&c, '/')
        },
        None => false,
    }
}

/// The scopes that are listed, in order.
pub open spec fn listed_scopes(c: ContentState) -> Seq<Seq<char>> {
    sort::sorted_texts(listable_upto(c, c.members_by_scope@.len() as int))
}

/// The scopes among the first `n` that are listed.
pub open spec fn listable_upto(c: ContentState, n: int) -> Seq<Seq<char>>
    decreases n,
{
    if n <= 0 {
        Seq::empty()
    } else {
        let k = c.members_by_scope@[n - 1].scope@;
        let front = listable_upto(c, n - 1);
        if is_listable(k) {
            front.push(k)
        } else {
            front
        }
    }
}

/// The scopes that are listed, unordered.
pub fn listable_scopes(content: &ContentState) -> (r: Vec<String>)
    ensures
        text::views(r@) == listable_upto(*content, content.members_by_scope@.len() as int),
{
    let mut r: Vec<String> = Vec::new();
    let mut i: usize = 0;
    assert(text::views(r@) =~= listable_upto(*content, 0));
    while i < content.members_by_scope.len()
        invariant
            i <= content.members_by_scope.len(),
            text::views(r@) == listable_upto(*content, i as int),
        decreases content.members_by_scope.len() - i,
    {
        let scope: &ItemId = &content.members_by_scope[i].scope;
        if is_listable_scope(scope) {
            let ghost before = text::views(r@);
            r.push(scope.to_storage_string());
            assert(text::views(r@) =~= before.push(scope@));
        }
        i = i + 1;
    }
    r
}

/// The aspects among the first `n` groups that belong to a scope.
pub open spec fn slugs_upto(c: ContentState, scope: Seq<char>, n: int) -> Seq<Seq<char>>
    decreases n,
{
    if n <= 0 {
        Seq::empty()
    } else {
        let g = c.aspect_groups@[n - 1];
        let front = slugs_upto(c, scope, n - 1);
        if g.scope@ == scope {
            front.push(g.slug@)
        } else {
            front
        }
    }
}

/// The aspects of a scope that have a vote graph, in no particular order.
pub fn aspect_slugs(content: &ContentState, scope: &ItemId) -> (r: Vec<String>)
    ensures
        text::views(r@) == slugs_upto(*content, scope@, content.aspect_groups@.len() as int),
{
    let mut r: Vec<String> = Vec::new();
    let mut i: usize = 0;
    assert(text::views(r@) =~= slugs_upto(*content, scope@, 0));
    while i < content.aspect_groups.len()
        invariant
            i <= content.aspect_groups.len(),
            text::views(r@) == slugs_upto(*content, scope@, i as int),
        decreases content.aspect_groups.len() - i,
    {
        let g: &AspectGroup = &content.aspect_groups[i];
        if g.scope.same(scope) {
            let ghost before = text::views(r@);
            r.push(g.slug.clone());
            assert(text::views(r@) =~= before.push(g.slug@));
        }
        i = i + 1;
    }
    r
}

/// The aspects of a scope that have a vote graph, in order.
pub open spec fn scope_slugs(c: ContentState, scope: Seq<char>) -> Seq<Seq<char>> {
    sort::sorted_texts(slugs_upto(c, scope, c.aspect_groups@.len() as int))
}

/// The members of a scope that can be compared.
pub open spec fn contestants(c: ContentState, scope: Seq<char>) -> Seq<Seq<char>> {
    state::comparable_of(c, state::members_of(c, scope))
}

/// The question of a scope by itself.
pub open spec fn canonical_question(c: ContentState, scope: Seq<char>) -> QuestionModel {
    let members = contestants(c, scope);
    QuestionModel {
        scope,
        aspect: None,
        voted: compared_pairs(c.ranking_group, members),
        possible: pairs_of(members.len() as int) as nat,
        members: members.len(),
        last_ts: newest_between(state::rows(c.ranking_group.recent_votes@), members, 0),
    }
}

/// The question of a scope under an aspect.
pub open spec fn aspect_question(c: ContentState, scope: Seq<char>, slug: Seq<char>, at: int) -> QuestionModel {
    let members = contestants(c, scope);
    let group = c.aspect_groups@[at].group;
    QuestionModel {
        scope,
        aspect: Some(slug),
        voted: compared_pairs(group, members),
        possible: pairs_of(members.len() as int) as nat,
        members: members.len(),
        last_ts: if group.recent_votes@.len() > 0 {
            group.recent_votes@[0].ts as int
        } else {
            0
        },
    }
}

/// A question, if it is still open.
pub open spec fn if_open(q: QuestionModel) -> Seq<QuestionModel> {
    if q.voted < q.possible {
        seq![q]
    } else {
        Seq::empty()
    }
}

/// The open questions of a scope under the first `n` of its aspects.
pub open spec fn open_aspects(c: ContentState, scope: Seq<char>, slugs: Seq<Seq<char>>) -> Seq<
    QuestionModel,
>
    decreases slugs.len(),
{
    if slugs.len() == 0 {
        Seq::empty()
    } else {
        open_aspects(c, scope, slugs.drop_last()) + match state::aspect_index(
            c,
            scope,
            slugs.last(),
        ) {
            Some(at) => if_open(aspect_question(c, scope, slugs.last(), at)),
            None => Seq::empty(),
        }
    }
}

/// The open questions of a scope: by itself, then under each of its aspects.
pub open spec fn open_in_scope(c: ContentState, scope: Seq<char>) -> Seq<QuestionModel> {
    if contestants(c, scope).len() < 2 {
        Seq::empty()
    } else {
        if_open(canonical_question(c, scope)) + open_aspects(c, scope, scope_slugs(c, scope))
    }
}

/// The open questions of some scopes.
pub open spec fn open_in_scopes(c: ContentState, scopes: Seq<Seq<char>>) -> Seq<QuestionModel>
    decreases scopes.len(),
{
    if scopes.len() == 0 {
        Seq::empty()
    } else {
        open_in_scopes(c, scopes.drop_last()) + open_in_scope(c, scopes.last())
    }
}

/// Every open question, by scope, the canonical one of a scope before its aspects.
pub open spec fn questions_open(c: ContentState) -> Seq<QuestionModel> {
    open_in_scopes(c, listed_scopes(c))
}

fn push_if_open(out: &mut Vec<LandingQuestion>, q: LandingQuestion)
    ensures
        state::rows(final(out)@) == state::rows(old(out)@) + if_open(q@),
{
    let ghost before = state::rows(out@);
    if q.voted < q.possible {
        proof {
            state::lemma_rows_push(out@, q);
        }
        out.push(q);
        assert(state::rows(out@) =~= before + seq![q@]);
    } else {
        assert(state::rows(out@) =~= before + Seq::<QuestionModel>::empty());
    }
}

fn push_open_in_scope(content: &ContentState, scope: &ItemId, out: &mut Vec<LandingQuestion>)
    ensures
        state::rows(final(out)@) == state::rows(old(out)@) + open_in_scope(*content, scope@),
{
    let ghost start = state::rows(out@);
    let members: Vec<ItemId> = content.comparable_items(&content.members_of(scope));
    let ghost keys = paths::keys(members@);
    assert(keys == contestants(*content, scope@));
    assert(keys.len() == members@.len());
    if members.len() < 2 {
        assert(state::rows(out@) =~= start + open_in_scope(*content, scope@));
        return;
    }
    let (voted, possible) = voted_density(&content.ranking_group, &members);
    let canonical = LandingQuestion {
        scope: scope.copy(),
        aspect: None,
        voted,
        possible,
        members: members.len(),
        last_vote_ts: last_canonical_vote_ts(content, &members),
    };
    assert(canonical@ == canonical_question(*content, scope@));
    push_if_open(out, canonical);
    let ghost head = state::rows(out@);
    let slugs: Vec<String> = sort::sort_texts(&aspect_slugs(content, scope));
    let ghost sv = text::views(slugs@);
    let mut i: usize = 0;
    assert(head + open_aspects(*content, scope@, sv.take(0)) =~= head);
    while i < slugs.len()
        invariant
            i <= slugs.len(),
            sv == text::views(slugs@),
            members@.len() >= 2,
            keys == paths::keys(members@),
            keys == contestants(*content, scope@),
            state::rows(out@) == head + open_aspects(*content, scope@, sv.take(i as int)),
        decreases slugs.len() - i,
    {
        let ghost step = sv.take(i + 1);
        assert(step.drop_last() =~= sv.take(i as int));
        assert(step.last() == slugs@[i as int]@);
        let ghost before = open_aspects(*content, scope@, sv.take(i as int));
        match content.aspect_group(scope, slugs[i].as_str()) {
            Some(at) => {
                let group: &GroupState = &content.aspect_groups[at].group;
                let (voted, possible) = voted_density(group, &members);
                let last_vote_ts: i64 = if group.recent_votes.len() > 0 {
                    group.recent_votes[0].ts
                } else {
                    0
                };
                let q = LandingQuestion {
                    scope: scope.copy(),
                    aspect: Some(slugs[i].clone()),
                    voted,
                    possible,
                    members: members.len(),
                    last_vote_ts,
                };
                assert(q@ == aspect_question(*content, scope@, slugs@[i as int]@, at as int));
                push_if_open(out, q);
                assert(head + before + if_open(q@) =~= head + (before + if_open(q@)));
            },
            None => {
                assert(head + before =~= head + (before + Seq::<QuestionModel>::empty()));
            },
        }
        i = i + 1;
    }
    assert(sv.take(sv.len() as int) =~= sv);
    assert(state::rows(out@) =~= start + open_in_scope(*content, scope@));
}

/// Every open question, by scope, the canonical one of a scope before its aspects.
pub fn open_questions(content: &ContentState) -> (r: Vec<LandingQuestion>)
    ensures
        state::rows(r@) == questions_open(*content),
{
    let scopes: Vec<String> = sort::sort_texts(&listable_scopes(content));
    let ghost sv = text::views(scopes@);
    let mut out: Vec<LandingQuestion> = Vec::new();
    let mut i: usize = 0;
    assert(state::rows(out@) =~= open_in_scopes(*content, sv.take(0)));
    while i < scopes.len()
        invariant
            i <= scopes.len(),
            sv == text::views(scopes@),
            state::rows(out@) == open_in_scopes(*content, sv.take(i as int)),
        decreases scopes.len() - i,
    {
        assert(sv.take(i + 1).drop_last() =~= sv.take(i as int));
        assert(sv.take(i + 1).last() == scopes@[i as int]@);
        let scope: ItemId = ItemId::opaque(scopes[i].clone());
        push_open_in_scope(content, &scope, &mut out);
        i = i + 1;
    }
    assert(sv.take(sv.len() as int) =~= sv);
    out
}

proof fn lemma_open_aspects(c: ContentState, scope: Seq<char>, slugs: Seq<Seq<char>>, i: int)
    requires
        0 <= i < open_aspects(c, scope, slugs).len(),
    ensures
        open_aspects(c, scope, slugs)[i].voted < open_aspects(c, scope, slugs)[i].possible,
        open_aspects(c, scope, slugs)[i].scope == scope,
        open_aspects(c, scope, slugs)[i].members == contestants(c, scope).len(),
    decreases slugs.len(),
{
    let front = open_aspects(c, scope, slugs.drop_last());
    if i < front.len() {
        lemma_open_aspects(c, scope, slugs.drop_last(), i);
    }
}

proof fn lemma_open_in_scopes(c: ContentState, scopes: Seq<Seq<char>>, i: int)
    requires
        0 <= i < open_in_scopes(c, scopes).len(),
    ensures
        ({
            let q = open_in_scopes(c, scopes)[i];
            &&& q.voted < q.possible
            &&& q.members == contestants(c, q.scope).len()
            &&& q.members >= 2
            &&& scopes.contains(q.scope)
        }),
    decreases scopes.len(),
{
    let front = open_in_scopes(c, scopes.drop_last());
    let scope = scopes.last();
    if i < front.len() {
        lemma_open_in_scopes(c, scopes.drop_last(), i);
        let q = front[i];
        let k = choose|k: int| 0 <= k < scopes.drop_last().len() && scopes.drop_last()[k] == q.scope;
        assert(scopes[k] == q.scope);
    } else {
        assert(scopes[scopes.len() - 1] == scope);
        let here = if_open(canonical_question(c, scope));
        let rest = open_aspects(c, scope, scope_slugs(c, scope));
        let k = i - front.len();
        if k >= here.len() {
            lemma_open_aspects(c, scope, scope_slugs(c, scope), k - here.len());
        }
    }
}

/// Every open question has a pair left to judge, and belongs to a listed scope with at least
/// two members that can be compared.
pub proof fn law_open_questions_are_open(c: ContentState, i: int)
    requires
        0 <= i < questions_open(c).len(),
    ensures
        ({
            let q = questions_open(c)[i];
            &&& q.voted < q.possible
            &&& q.members == contestants(c, q.scope).len()
            &&& q.members >= 2
            &&& listed_scopes(c).contains(q.scope)
        }),
{
    lemma_open_in_scopes(c, listed_scopes(c), i);
}

proof fn lemma_listable_contains(c: ContentState, n: int, x: Seq<char>)
    requires
        0 <= n <= c.members_by_scope@.len(),
    ensures
        listable_upto(c, n).contains(x) <==> is_listable(x) && state::scope_keys(c).take(
            n,
        ).contains(x),
    decreases n,
{
    let ks = state::scope_keys(c);
    if n > 0 {
        lemma_listable_contains(c, n - 1, x);
        let k = c.members_by_scope@[n - 1].scope@;
        assert(ks.take(n) =~= ks.take(n - 1).push(k));
        vstd::seq_lib::lemma_seq_contains_after_push(ks.take(n - 1), k, x);
        vstd::seq_lib::lemma_seq_contains_after_push(listable_upto(c, n - 1), k, x);
    }
}

/// The aspects of a scope are the slugs of its groups.
pub proof fn lemma_slugs_contain(c: ContentState, scope: Seq<char>, n: int, x: Seq<char>)
    requires
        0 <= n <= c.aspect_groups@.len(),
    ensures
        slugs_upto(c, scope, n).contains(x) <==> state::aspect_keys(c).take(n).contains((scope, x)),
    decreases n,
{
    let ks = state::aspect_keys(c);
    if n > 0 {
        lemma_slugs_contain(c, scope, n - 1, x);
        let g = c.aspect_groups@[n - 1];
        assert(ks.take(n) =~= ks.take(n - 1).push((g.scope@, g.slug@)));
        vstd::seq_lib::lemma_seq_contains_after_push(ks.take(n - 1), (g.scope@, g.slug@), (scope, x));
        vstd::seq_lib::lemma_seq_contains_after_push(slugs_upto(c, scope, n - 1), g.slug@, x);
    }
}

/// Whether a question is that of a scope under an aspect which has a vote graph.
pub open spec fn is_aspect_question(c: ContentState, q: QuestionModel) -> bool {
    match q.aspect {
        Some(slug) => match state::aspect_index(c, q.scope, slug) {
            Some(at) => q == aspect_question(c, q.scope, slug, at),
            None => false,
        },
        None => false,
    }
}

proof fn lemma_open_aspects_contain(
    c: ContentState,
    scope: Seq<char>,
    slugs: Seq<Seq<char>>,
    q: QuestionModel,
)
    ensures
        open_aspects(c, scope, slugs).contains(q) <==> q.scope == scope && q.voted < q.possible
            && is_aspect_question(c, q) && slugs.contains(q.aspect.unwrap()),
    decreases slugs.len(),
{
    if slugs.len() > 0 {
        let less = slugs.drop_last();
        let last = slugs.last();
        lemma_open_aspects_contain(c, scope, less, q);
        assert(slugs =~= less.push(last));
        if q.aspect is Some {
            vstd::seq_lib::lemma_seq_contains_after_push(less, last, q.aspect.unwrap());
        }
        let here = match state::aspect_index(c, scope, last) {
            Some(at) => if_open(aspect_question(c, scope, last, at)),
            None => Seq::empty(),
        };
        vstd::seq_lib::lemma_seq_concat_contains_all_elements(
            open_aspects(c, scope, less),
            here,
            q,
        );
        if here.contains(q) {
            assert(here[0] == q);
        }
        if q.scope == scope && q.voted < q.possible && is_aspect_question(c, q) && q.aspect == Some(
            last,
        ) {
            assert(here[0] == q);
        }
    }
}

/// Whether a question is open: its scope is listed and has two members that can be compared,
/// it is that of the scope by itself or under an aspect which has a vote graph, and some pair is
/// not judged.
pub open spec fn is_open_question(c: ContentState, q: QuestionModel) -> bool {
    &&& state::scope_keys(c).contains(q.scope)
    &&& is_listable(q.scope)
    &&& contestants(c, q.scope).len() >= 2
    &&& q == canonical_question(c, q.scope) || is_aspect_question(c, q)
    &&& q.voted < q.possible
}

proof fn lemma_open_in_scope_contains(c: ContentState, scope: Seq<char>, q: QuestionModel)
    ensures
        open_in_scope(c, scope).contains(q) <==> q.scope == scope && contestants(c, scope).len() >= 2
            && (q == canonical_question(c, scope) || is_aspect_question(c, q)) && q.voted
            < q.possible,
{
    let here = if_open(canonical_question(c, scope));
    let slugs = slugs_upto(c, scope, c.aspect_groups@.len() as int);
    let ks = state::aspect_keys(c);
    lemma_open_aspects_contain(c, scope, scope_slugs(c, scope), q);
    vstd::seq_lib::lemma_seq_concat_contains_all_elements(
        here,
        open_aspects(c, scope, scope_slugs(c, scope)),
        q,
    );
    if q.aspect is Some {
        let slug = q.aspect.unwrap();
        sort::lemma_sorted_texts_contain(slugs, slug);
        lemma_slugs_contain(c, scope, c.aspect_groups@.len() as int, slug);
        assert(ks.take(ks.len() as int) =~= ks);
        text::lemma_position(ks, (scope, slug));
    }
    if here.contains(q) {
        assert(here[0] == q);
    }
    if q == canonical_question(c, scope) && q.voted < q.possible {
        assert(here[0] == q);
    }
}

proof fn lemma_open_in_scopes_contain(c: ContentState, scopes: Seq<Seq<char>>, q: QuestionModel)
    ensures
        open_in_scopes(c, scopes).contains(q) <==> scopes.contains(q.scope) && open_in_scope(
            c,
            q.scope,
        ).contains(q),
    decreases scopes.len(),
{
    if scopes.len() > 0 {
        let less = scopes.drop_last();
        lemma_open_in_scopes_contain(c, less, q);
        assert(scopes =~= less.push(scopes.last()));
        vstd::seq_lib::lemma_seq_contains_after_push(less, scopes.last(), q.scope);
        vstd::seq_lib::lemma_seq_concat_contains_all_elements(
            open_in_scopes(c, less),
            open_in_scope(c, scopes.last()),
            q,
        );
        lemma_open_in_scope_contains(c, scopes.last(), q);
    }
}

/// The open questions are listed, and nothing else is.
pub proof fn law_open_questions_are_all_listed(c: ContentState, q: QuestionModel)
    ensures
        questions_open(c).contains(q) <==> is_open_question(c, q),
{
    let n = c.members_by_scope@.len() as int;
    let ks = state::scope_keys(c);
    lemma_open_in_scopes_contain(c, listed_scopes(c), q);
    lemma_open_in_scope_contains(c, q.scope, q);
    sort::lemma_sorted_texts_contain(listable_upto(c, n), q.scope);
    lemma_listable_contains(c, n, q.scope);
    assert(ks.take(n) =~= ks);
}

/// What a question asks about: a scope, and an aspect of it or none.
pub open spec fn question_key(q: QuestionModel) -> (Seq<char>, Option<Seq<char>>) {
    (q.scope, q.aspect)
}

/// What questions ask about.
pub open spec fn question_keys(v: Seq<QuestionModel>) -> Seq<(Seq<char>, Option<Seq<char>>)> {
    Seq::new(v.len(), |i: int| question_key(v[i]))
}

proof fn lemma_listable_differ(c: ContentState, n: int)
    requires
        state::scope_keys(c).no_duplicates(),
        0 <= n <= c.members_by_scope@.len(),
    ensures
        listable_upto(c, n).no_duplicates(),
        forall|x: Seq<char>| #[trigger]
            listable_upto(c, n).contains(x) ==> state::scope_keys(c).take(n).contains(x),
    decreases n,
{
    let ks = state::scope_keys(c);
    if n > 0 {
        lemma_listable_differ(c, n - 1);
        let front = listable_upto(c, n - 1);
        let all = listable_upto(c, n);
        assert forall|x: Seq<char>| #[trigger] front.contains(x) implies ks.take(n).contains(x) && x
            != ks[n - 1] by {
            let less = ks.take(n - 1);
            let k = choose|k: int| 0 <= k < less.len() && less[k] == x;
            assert(ks.take(n)[k] == x && ks[k] == x);
        }
        assert(ks.take(n)[n - 1] == c.members_by_scope@[n - 1].scope@);
        assert forall|x: Seq<char>| #[trigger] all.contains(x) implies ks.take(n).contains(x) by {
            let i = choose|i: int| 0 <= i < all.len() && all[i] == x;
            if i < front.len() {
                assert(front[i] == x);
                assert(front.contains(x));
            }
        }
        assert forall|i: int, j: int| 0 <= i < all.len() && 0 <= j < all.len() && i != j implies all[i]
            != all[j] by {
            if i < front.len() {
                assert(all[i] == front[i] && front.contains(front[i]));
            }
            if j < front.len() {
                assert(all[j] == front[j] && front.contains(front[j]));
            }
        }
    }
}

proof fn lemma_slugs_differ(c: ContentState, scope: Seq<char>, n: int)
    requires
        state::aspect_keys(c).no_duplicates(),
        0 <= n <= c.aspect_groups@.len(),
    ensures
        slugs_upto(c, scope, n).no_duplicates(),
        forall|x: Seq<char>| #[trigger]
            slugs_upto(c, scope, n).contains(x) ==> state::aspect_keys(c).take(n).contains(
                (scope, x),
            ),
    decreases n,
{
    let ks = state::aspect_keys(c);
    if n > 0 {
        lemma_slugs_differ(c, scope, n - 1);
        let front = slugs_upto(c, scope, n - 1);
        let all = slugs_upto(c, scope, n);
        assert(ks[n - 1] == (c.aspect_groups@[n - 1].scope@, c.aspect_groups@[n - 1].slug@));
        assert forall|x: Seq<char>| #[trigger] front.contains(x) implies ks.take(n).contains(
            (scope, x),
        ) && (scope, x) != ks[n - 1] by {
            let less = ks.take(n - 1);
            let k = choose|k: int| 0 <= k < less.len() && less[k] == (scope, x);
            assert(ks.take(n)[k] == (scope, x) && ks[k] == (scope, x));
        }
        assert(ks.take(n)[n - 1] == ks[n - 1]);
        assert forall|x: Seq<char>| #[trigger] all.contains(x) implies ks.take(n).contains(
            (scope, x),
        ) by {
            let i = choose|i: int| 0 <= i < all.len() && all[i] == x;
            if i < front.len() {
                assert(front[i] == x);
                assert(front.contains(x));
            }
        }
        assert forall|i: int, j: int| 0 <= i < all.len() && 0 <= j < all.len() && i != j implies all[i]
            != all[j] by {
            if i < front.len() {
                assert(all[i] == front[i] && front.contains(front[i]));
            }
            if j < front.len() {
                assert(all[j] == front[j] && front.contains(front[j]));
            }
        }
    }
}

proof fn lemma_aspects_differ(c: ContentState, scope: Seq<char>, slugs: Seq<Seq<char>>)
    requires
        slugs.no_duplicates(),
    ensures
        question_keys(open_aspects(c, scope, slugs)).no_duplicates(),
        forall|i: int|
            0 <= i < open_aspects(c, scope, slugs).len() ==> {
                let q = #[trigger] open_aspects(c, scope, slugs)[i];
                q.scope == scope && q.aspect is Some && slugs.contains(q.aspect.unwrap())
            },
    decreases slugs.len(),
{
    if slugs.len() > 0 {
        let less = slugs.drop_last();
        lemma_aspects_differ(c, scope, less);
        let front = open_aspects(c, scope, less);
        let all = open_aspects(c, scope, slugs);
        assert forall|i: int| 0 <= i < front.len() implies (#[trigger] front[i]).scope == scope
            && front[i].aspect is Some && front[i].aspect != Some(slugs.last()) && slugs.contains(
            front[i].aspect.unwrap(),
        ) by {
            let x = front[i].aspect.unwrap();
            let k = choose|k: int| 0 <= k < less.len() && less[k] == x;
            assert(slugs[k] == x && slugs[slugs.len() - 1] == slugs.last());
        }
        assert(slugs[slugs.len() - 1] == slugs.last());
        assert forall|i: int| 0 <= i < all.len() implies {
            let q = #[trigger] all[i];
            q.scope == scope && q.aspect is Some && slugs.contains(q.aspect.unwrap())
        } by {
            if i < front.len() {
                assert(all[i] == front[i]);
            } else {
                assert(all[i].aspect == Some(slugs.last()));
            }
        }
        assert(all.len() <= front.len() + 1);
        assert forall|i: int, j: int|
            0 <= i < all.len() && 0 <= j < all.len() && i != j implies question_keys(all)[i]
            != question_keys(all)[j] by {
            if i < front.len() {
                assert(all[i] == front[i] && question_keys(front)[i] == question_key(all[i]));
            }
            if j < front.len() {
                assert(all[j] == front[j] && question_keys(front)[j] == question_key(all[j]));
            }
        }
    }
}

proof fn lemma_scope_questions_differ(c: ContentState, scope: Seq<char>)
    requires
        c.wf(),
    ensures
        question_keys(open_in_scope(c, scope)).no_duplicates(),
        forall|i: int|
            0 <= i < open_in_scope(c, scope).len() ==> (#[trigger] open_in_scope(c, scope)[i]).scope
                == scope,
{
    let slugs = slugs_upto(c, scope, c.aspect_groups@.len() as int);
    lemma_slugs_differ(c, scope, c.aspect_groups@.len() as int);
    sort::lemma_sorted_texts_differ(slugs);
    lemma_aspects_differ(c, scope, scope_slugs(c, scope));
    let here = if_open(canonical_question(c, scope));
    let rest = open_aspects(c, scope, scope_slugs(c, scope));
    let all = here + rest;
    assert forall|i: int, j: int|
        0 <= i < all.len() && 0 <= j < all.len() && i != j implies question_keys(all)[i]
        != question_keys(all)[j] by {
        if i >= here.len() {
            assert(all[i] == rest[i - here.len()]);
            assert(question_keys(rest)[i - here.len()] == question_key(all[i]));
        }
        if j >= here.len() {
            assert(all[j] == rest[j - here.len()]);
            assert(question_keys(rest)[j - here.len()] == question_key(all[j]));
        }
    }
    assert forall|i: int| 0 <= i < all.len() implies (#[trigger] all[i]).scope == scope by {
        if i >= here.len() {
            assert(all[i] == rest[i - here.len()]);
        }
    }
}

proof fn lemma_questions_differ(c: ContentState, scopes: Seq<Seq<char>>)
    requires
        c.wf(),
        scopes.no_duplicates(),
    ensures
        question_keys(open_in_scopes(c, scopes)).no_duplicates(),
    decreases scopes.len(),
{
    if scopes.len() > 0 {
        let less = scopes.drop_last();
        lemma_questions_differ(c, less);
        lemma_scope_questions_differ(c, scopes.last());
        let front = open_in_scopes(c, less);
        let here = open_in_scope(c, scopes.last());
        let all = front + here;
        assert forall|i: int| 0 <= i < front.len() implies (#[trigger] front[i]).scope
            != scopes.last() by {
            lemma_open_in_scopes(c, less, i);
            let k = choose|k: int| 0 <= k < less.len() && less[k] == front[i].scope;
            assert(scopes[k] == front[i].scope && scopes[scopes.len() - 1] == scopes.last());
        }
        assert forall|i: int, j: int|
            0 <= i < all.len() && 0 <= j < all.len() && i != j implies question_keys(all)[i]
            != question_keys(all)[j] by {
            if i < front.len() {
                assert(all[i] == front[i] && question_keys(front)[i] == question_key(all[i]));
            } else {
                assert(all[i] == here[i - front.len()]);
                assert(question_keys(here)[i - front.len()] == question_key(all[i]));
            }
            if j < front.len() {
                assert(all[j] == front[j] && question_keys(front)[j] == question_key(all[j]));
            } else {
                assert(all[j] == here[j - front.len()]);
                assert(question_keys(here)[j - front.len()] == question_key(all[j]));
            }
        }
    }
}

/// Every question stands among the open ones once.
pub proof fn law_questions_are_listed_once(c: ContentState)
    requires
        c.wf(),
    ensures
        question_keys(questions_open(c)).no_duplicates(),
{
    let n = c.members_by_scope@.len() as int;
    lemma_listable_differ(c, n);
    sort::lemma_sorted_texts_differ(listable_upto(c, n));
    lemma_questions_differ(c, listed_scopes(c));
}

// ---------------------------------------------------------------------------
// The heat index
// ---------------------------------------------------------------------------

/// An open question with the last activity of its thread.
pub struct OpenRow {
    pub question: LandingQuestion,
    pub thread_ts: i64,
}

/// The mathematical value of an [`OpenRow`].
pub struct OpenModel {
    pub question: QuestionModel,
    pub thread_ts: int,
}

impl View for OpenRow {
    type V = OpenModel;

    open spec fn view(&self) -> OpenModel {
        OpenModel { question: self.question@, thread_ts: self.thread_ts as int }
    }
}

impl OpenRow {
    fn copy(&self) -> (r: OpenRow)
        ensures
            r@ == self@,
    {
        OpenRow { question: self.question.copy(), thread_ts: self.thread_ts }
    }
}

/// The row of a question: with the last activity of the thread that is named like its scope.
pub open spec fn open_row(s: ReducerState, scope: Option<Seq<char>>, q: QuestionModel) -> OpenModel {
    OpenModel {
        question: q,
        thread_ts: state::thread_activity(
            s,
            scope,
            nav::canonical_tag(paths::last_piece(q.scope)),
        ),
    }
}

/// The rows of some questions.
pub open spec fn open_rows(s: ReducerState, scope: Option<Seq<char>>, qs: Seq<QuestionModel>) -> Seq<
    OpenModel,
> {
    Seq::new(qs.len(), |i: int| open_row(s, scope, qs[i]))
}

/// What open questions are ordered by: the newest vote first, then the newest post.
pub open spec fn heat_keys(rows: Seq<OpenModel>) -> Seq<Key> {
    Seq::new(
        rows.len(),
        |i: int|
            Key {
                major: -rows[i].question.last_ts,
                minor: -rows[i].thread_ts,
                text: Seq::empty(),
            },
    )
}

/// The open questions, hottest first.
pub open spec fn ranked_questions(s: ReducerState, c: ContentState, scope: Option<Seq<char>>) -> Seq<
    OpenModel,
> {
    let rows = open_rows(s, scope, questions_open(c));
    sort::pick(rows, sort::stable_order(heat_keys(rows)))
}

/// The open questions, hottest first: the newest vote wins, then the newest post in the thread.
pub fn rank_open_questions(content: &ContentState, reduced: &ReducerState, scope: &ScopeId) -> (r: Vec<
    OpenRow,
>)
    ensures
        state::rows(r@) == ranked_questions(*reduced, *content, scope@),
{
    let qs: Vec<LandingQuestion> = open_questions(content);
    let ghost qv = state::rows(qs@);
    let ghost want = open_rows(*reduced, scope@, qv);
    let mut all: Vec<OpenRow> = Vec::new();
    let mut keys: Vec<SortKey> = Vec::new();
    let mut i: usize = 0;
    while i < qs.len()
        invariant
            i <= qs.len(),
            all.len() == i,
            keys.len() == i,
            qv == state::rows(qs@),
            want == open_rows(*reduced, scope@, qv),
            forall|j: int| 0 <= j < i ==> (#[trigger] all@[j])@ == want[j],
            forall|j: int| 0 <= j < i ==> (#[trigger] keys@[j])@ == heat_keys(want)[j],
        decreases qs.len() - i,
    {
        let q: &LandingQuestion = &qs[i];
        assert(qv[i as int] == q@);
        let leaf: String = nav::canonicalize_tag(q.scope.last_segment().as_str());
        let thread_ts: i64 = reduced.thread_activity(scope, leaf.as_str());
        let row = OpenRow { question: q.copy(), thread_ts };
        let key = SortKey {
            major: -(q.last_vote_ts as i128),
            minor: -(thread_ts as i128),
            text: String::new(),
        };
        assert(key@.text =~= Seq::empty());
        all.push(row);
        keys.push(key);
        i = i + 1;
    }
    assert(state::rows(all@) =~= want);
    assert(sort::key_views(keys@) =~= heat_keys(want));
    let order: Vec<usize> = sort::order_by(&keys);
    let mut r: Vec<OpenRow> = Vec::new();
    let mut k: usize = 0;
    while k < order.len()
        invariant
            k <= order.len(),
            r.len() == k,
            forall|j: int| 0 <= j < order@.len() ==> (#[trigger] order@[j]) < all@.len(),
            forall|j: int| 0 <= j < k ==> (#[trigger] r@[j])@ == all@[order@[j] as int]@,
        decreases order.len() - k,
    {
        r.push(all[order[k]].copy());
        k = k + 1;
    }
    proof {
        let o = sort::ints(order@);
        assert forall|j: int| 0 <= j < r@.len() implies #[trigger] state::rows(r@)[j]
            == sort::pick(want, o)[j] by {
            assert(r@[j]@ == all@[order@[j] as int]@);
            assert(o[j] == order@[j] as int);
            assert(state::rows(all@)[o[j]] == all@[o[j]]@);
        }
        assert(state::rows(r@) =~= sort::pick(want, o));
    }
    r
}

/// A question with a newer vote never stands behind one with an older vote: judging outranks
/// talking.
pub proof fn law_votes_outrank_posts(s: ReducerState, c: ContentState, scope: Option<Seq<char>>, i: int, j: int)
    requires
        0 <= i < j < ranked_questions(s, c, scope).len(),
    ensures
        ({
            let a = ranked_questions(s, c, scope)[i];
            let b = ranked_questions(s, c, scope)[j];
            a.question.last_ts > b.question.last_ts || (a.question.last_ts == b.question.last_ts
                && a.thread_ts >= b.thread_ts)
        }),
{
    let rows = open_rows(s, scope, questions_open(c));
    let keys = heat_keys(rows);
    let order = sort::stable_order(keys);
    sort::lemma_stable_order(keys);
    assert(0 <= order[i] < rows.len() && 0 <= order[j] < rows.len());
    let ka = keys[order[i]];
    let kb = keys[order[j]];
    text::lemma_text_order(ka.text, kb.text);
    assert(sort::key_lt(ka, kb) || !sort::key_lt(kb, ka));
}

// ---------------------------------------------------------------------------
// The question to open with
// ---------------------------------------------------------------------------

/// The most compared of the first `n` questions; of those, the one with more members; of
/// those, the first.
pub open spec fn best_question(qs: Seq<QuestionModel>, n: int) -> Option<int>
    decreases n,
{
    if n <= 0 {
        None
    } else {
        match best_question(qs, n - 1) {
            None => Some(n - 1),
            Some(b) => if qs[n - 1].voted > qs[b].voted || (qs[n - 1].voted == qs[b].voted
                && qs[n - 1].members > qs[b].members) {
                Some(n - 1)
            } else {
                Some(b)
            },
        }
    }
}

/// The question to open with: the most compared one that is still open.
pub open spec fn landing_question(c: ContentState) -> Option<QuestionModel> {
    let qs = questions_open(c);
    match best_question(qs, qs.len() as int) {
        Some(i) => Some(qs[i]),
        None => None,
    }
}

/// The view of an optional question.
pub open spec fn opt_question(o: Option<LandingQuestion>) -> Option<QuestionModel> {
    match o {
        Some(q) => Some(q@),
        None => None,
    }
}

/// The question to open with: the most compared one that is still open.
pub fn pick_landing_question(content: &ContentState) -> (r: Option<LandingQuestion>)
    ensures
        opt_question(r) == landing_question(*content),
{
    let qs: Vec<LandingQuestion> = open_questions(content);
    let ghost qv = state::rows(qs@);
    let mut best: Option<usize> = None;
    let mut i: usize = 0;
    while i < qs.len()
        invariant
            i <= qs.len(),
            qv == state::rows(qs@),
            match best {
                Some(b) => best_question(qv, i as int) == Some(b as int) && b < i,
                None => best_question(qv, i as int) is None,
            },
        decreases qs.len() - i,
    {
        assert(qv[i as int] == qs@[i as int]@);
        best = match best {
            None => Some(i),
            Some(b) => {
                assert(qv[b as int] == qs@[b as int]@);
                if qs[i].voted > qs[b].voted || (qs[i].voted == qs[b].voted && qs[i].members
                    > qs[b].members) {
                    Some(i)
                } else {
                    Some(b)
                }
            },
        };
        i = i + 1;
    }
    match best {
        Some(b) => Some(qs[b].copy()),
        None => None,
    }
}

proof fn lemma_best_question(qs: Seq<QuestionModel>, n: int)
    requires
        0 <= n <= qs.len(),
    ensures
        match best_question(qs, n) {
            Some(b) => 0 <= b < n && forall|i: int|
                0 <= i < n ==> (#[trigger] qs[i]).voted < qs[b].voted || (qs[i].voted
                    == qs[b].voted && qs[i].members <= qs[b].members),
            None => n == 0,
        },
    decreases n,
{
    if n > 0 {
        lemma_best_question(qs, n - 1);
    }
}

/// The question to open with is open, and no open question is compared more; there is one as
/// long as any question is open.
pub proof fn law_landing_question(c: ContentState)
    ensures
        match landing_question(c) {
            Some(q) => q.voted < q.possible && questions_open(c).contains(q) && forall|i: int|
                0 <= i < questions_open(c).len() ==> (#[trigger] questions_open(c)[i]).voted
                    <= q.voted,
            None => questions_open(c).len() == 0,
        },
{
    let qs = questions_open(c);
    lemma_best_question(qs, qs.len() as int);
    match best_question(qs, qs.len() as int) {
        Some(b) => {
            law_open_questions_are_open(c, b);
            assert(qs[b] == landing_question(c).unwrap());
        },
        None => {},
    }
}

// ---------------------------------------------------------------------------
// Dealing
// ---------------------------------------------------------------------------

/// Whether two questions are about the same scope under the same aspect.
pub open spec fn same_question(a: QuestionModel, b: QuestionModel) -> bool {
    a.scope == b.scope && a.aspect == b.aspect
}

fn is_same_question(a: &LandingQuestion, b: &LandingQuestion) -> (r: bool)
    ensures
        r == same_question(a@, b@),
{
    a.scope.same(&b.scope) && match (&a.aspect, &b.aspect) {
        (Some(x), Some(y)) => text::same(x.as_str(), y.as_str()),
        (None, None) => true,
        _ => false,
    }
}

/// Whether a list holds a question.
pub open spec fn lists_question(qs: Seq<QuestionModel>, q: QuestionModel) -> bool {
    exists|i: int| 0 <= i < qs.len() && same_question(#[trigger] qs[i], q)
}

fn question_listed(qs: &Vec<LandingQuestion>, q: &LandingQuestion) -> (r: bool)
    ensures
        r == lists_question(state::rows(qs@), q@),
{
    let ghost qv = state::rows(qs@);
    let mut i: usize = 0;
    while i < qs.len()
        invariant
            i <= qs.len(),
            qv == state::rows(qs@),
            forall|j: int| 0 <= j < i ==> !same_question(#[trigger] qv[j], q@),
        decreases qs.len() - i,
    {
        assert(qv[i as int] == qs@[i as int]@);
        if is_same_question(&qs[i], q) {
            return true;
        }
        i = i + 1;
    }
    false
}

/// The order in which questions are tried: the one to open with, then the others, hottest
/// first.
pub open spec fn deal_order(first: Option<QuestionModel>, ranked: Seq<OpenModel>) -> Seq<QuestionModel>
    decreases ranked.len(),
{
    if ranked.len() == 0 {
        match first {
            Some(q) => seq![q],
            None => Seq::empty(),
        }
    } else {
        let front = deal_order(first, ranked.drop_last());
        let q = ranked.last().question;
        if lists_question(front, q) {
            front
        } else {
            front.push(q)
        }
    }
}

/// The pair that a question deals to a reader, given the pairs that the reader has skipped.
pub open spec fn dealt_pair(c: ContentState, q: QuestionModel, skips: Seq<VoteSkipEntry>) -> Option<
    (Seq<char>, Seq<char>),
> {
    let skipped = votes::skipped_upto(skips, q.aspect, skips.len() as int);
    match q.aspect {
        None => pair_left(c.ranking_group, contestants(c, q.scope), skipped),
        Some(slug) => match state::aspect_index(c, q.scope, slug) {
            Some(at) => pair_left(c.aspect_groups@[at].group, contestants(c, q.scope), skipped),
            None => None,
        },
    }
}

/// Whether two items have neither been compared nor skipped.
pub open spec fn is_left(
    g: GroupState,
    skipped: Seq<(Seq<char>, Seq<char>)>,
    a: Seq<char>,
    b: Seq<char>,
) -> bool {
    !votes::holds_pair(g.voted_pairs@, a, b) && !votes::holds_ends(skipped, a, b)
}

/// The first partner for item `i` that is left, from place `j` on.
pub open spec fn partner_left(
    g: GroupState,
    pool: Seq<Seq<char>>,
    skipped: Seq<(Seq<char>, Seq<char>)>,
    i: int,
    j: int,
) -> Option<int>
    decreases pool.len() - j,
{
    if j < 0 || j >= pool.len() {
        None
    } else if is_left(g, skipped, pool[i], pool[j]) {
        Some(j)
    } else {
        partner_left(g, pool, skipped, i, j + 1)
    }
}

/// The first pair that is left whose first item stands at `i` or behind.
pub open spec fn pair_left_from(
    g: GroupState,
    pool: Seq<Seq<char>>,
    skipped: Seq<(Seq<char>, Seq<char>)>,
    i: int,
) -> Option<(Seq<char>, Seq<char>)>
    decreases pool.len() - i,
{
    if i < 0 || i >= pool.len() {
        None
    } else {
        match partner_left(g, pool, skipped, i, i + 1) {
            Some(j) => Some((pool[i], pool[j])),
            None => pair_left_from(g, pool, skipped, i + 1),
        }
    }
}

/// The first pair of a pool that has neither been compared nor skipped.
pub open spec fn pair_left(
    g: GroupState,
    pool: Seq<Seq<char>>,
    skipped: Seq<(Seq<char>, Seq<char>)>,
) -> Option<(Seq<char>, Seq<char>)> {
    pair_left_from(g, pool, skipped, 0)
}

proof fn lemma_excluded_pairs(excluded: Seq<ItemPair>, a: Seq<char>, b: Seq<char>)
    ensures
        votes::holds_pair(excluded, a, b) == votes::holds_ends(state::rows(excluded), a, b),
{
    let rows = state::rows(excluded);
    if votes::holds_pair(excluded, a, b) {
        let i = choose|i: int|
            0 <= i < excluded.len() && votes::joins((#[trigger] excluded[i])@, a, b);
        assert(votes::joins(rows[i], a, b));
    }
    if votes::holds_ends(rows, a, b) {
        let i = choose|i: int| 0 <= i < rows.len() && votes::joins(#[trigger] rows[i], a, b);
        assert(votes::joins(excluded[i]@, a, b));
    }
}

proof fn lemma_partner_left(g: GroupState, pool: Seq<Seq<char>>, excluded: Seq<ItemPair>, i: int, j: int)
    ensures
        votes::next_partner(g, pool, None, excluded, i, j) == partner_left(
            g,
            pool,
            state::rows(excluded),
            i,
            j,
        ),
    decreases pool.len() - j,
{
    if 0 <= j < pool.len() {
        lemma_excluded_pairs(excluded, pool[i], pool[j]);
        lemma_partner_left(g, pool, excluded, i, j + 1);
    }
}

/// The pair left to a reader is the next open pair that is not among those skipped.
pub proof fn lemma_pair_left(g: GroupState, pool: Seq<Seq<char>>, excluded: Seq<ItemPair>, i: int)
    ensures
        votes::next_pair_from(g, pool, None, excluded, i) == pair_left_from(
            g,
            pool,
            state::rows(excluded),
            i,
        ),
    decreases pool.len() - i,
{
    if 0 <= i < pool.len() {
        lemma_partner_left(g, pool, excluded, i, i + 1);
        lemma_pair_left(g, pool, excluded, i + 1);
    }
}

/// The pair that a question deals to a reader who has skipped some.
pub fn deal_from_question(content: &ContentState, q: &LandingQuestion, skips: &Vec<VoteSkipEntry>) -> (r:
    Option<ItemPair>)
    ensures
        votes::opt_pair(r) == dealt_pair(*content, q@, skips@),
{
    let members: Vec<ItemId> = content.comparable_items(&content.members_of(&q.scope));
    let aspect: Option<&str> = match &q.aspect {
        Some(a) => Some(a.as_str()),
        None => None,
    };
    let excluded: Vec<ItemPair> = votes::skipped_pairs(skips, aspect);
    let group: &GroupState = match &q.aspect {
        None => &content.ranking_group,
        Some(slug) => match content.aspect_group(&q.scope, slug.as_str()) {
            Some(at) => &content.aspect_groups[at].group,
            None => {
                return None;
            },
        },
    };
    proof {
        lemma_pair_left(*group, paths::keys(members@), excluded@, 0);
    }
    votes::suggest_next_pair_in_pool_excluding(group, &members, None, &excluded)
}

/// The first question, from place `i` on, that has a pair for the reader.
pub open spec fn first_deal(
    c: ContentState,
    order: Seq<QuestionModel>,
    skips: Seq<VoteSkipEntry>,
    i: int,
) -> Option<(QuestionModel, (Seq<char>, Seq<char>))>
    decreases order.len() - i,
{
    if i < 0 || i >= order.len() {
        None
    } else {
        match dealt_pair(c, order[i], skips) {
            Some(p) => Some((order[i], p)),
            None => first_deal(c, order, skips, i + 1),
        }
    }
}

/// Those rows that are about another question.
pub open spec fn other_rows(rows: Seq<OpenModel>, q: QuestionModel) -> Seq<OpenModel>
    decreases rows.len(),
{
    if rows.len() == 0 {
        Seq::empty()
    } else if same_question(rows.last().question, q) {
        other_rows(rows.drop_last(), q)
    } else {
        other_rows(rows.drop_last(), q).push(rows.last())
    }
}

/// The first rows, up to the number that is listed.
pub open spec fn index_rows(rows: Seq<OpenModel>) -> Seq<OpenModel> {
    if rows.len() > OPEN_INDEX_CAP {
        rows.take(OPEN_INDEX_CAP as int)
    } else {
        rows
    }
}

/// A question with the pair that it deals.
pub struct Deal {
    pub question: LandingQuestion,
    pub pair: ItemPair,
}

/// What the landing page deals: a question with a pair, if there is one, and the other open
/// questions.
pub struct Landing {
    pub deal: Option<Deal>,
    pub index: Vec<OpenRow>,
}

/// What the landing page deals to a reader.
pub open spec fn landing_deal(
    s: ReducerState,
    c: ContentState,
    scope: Option<Seq<char>>,
    skips: Seq<VoteSkipEntry>,
) -> Option<(QuestionModel, (Seq<char>, Seq<char>))> {
    first_deal(c, deal_order(landing_question(c), ranked_questions(s, c, scope)), skips, 0)
}

/// The open questions listed below what is dealt.
pub open spec fn landing_index(
    s: ReducerState,
    c: ContentState,
    scope: Option<Seq<char>>,
    skips: Seq<VoteSkipEntry>,
) -> Seq<OpenModel> {
    let ranked = ranked_questions(s, c, scope);
    index_rows(
        match landing_deal(s, c, scope, skips) {
            Some(d) => other_rows(ranked, d.0),
            None => ranked,
        },
    )
}

/// The view of what is dealt.
pub open spec fn opt_deal(o: Option<Deal>) -> Option<(QuestionModel, (Seq<char>, Seq<char>))> {
    match o {
        Some(d) => Some((d.question@, d.pair@)),
        None => None,
    }
}

fn order_to_deal(first: Option<LandingQuestion>, ranked: &Vec<OpenRow>) -> (r: Vec<LandingQuestion>)
    ensures
        state::rows(r@) == deal_order(opt_question(first), state::rows(ranked@)),
{
    let ghost fv = opt_question(first);
    let ghost rv = state::rows(ranked@);
    let mut order: Vec<LandingQuestion> = Vec::new();
    match first {
        Some(q) => {
            order.push(q);
        },
        None => {},
    }
    assert(state::rows(order@) =~= deal_order(fv, rv.take(0)));
    let mut i: usize = 0;
    while i < ranked.len()
        invariant
            i <= ranked.len(),
            rv == state::rows(ranked@),
            state::rows(order@) == deal_order(fv, rv.take(i as int)),
        decreases ranked.len() - i,
    {
        assert(rv.take(i + 1).drop_last() =~= rv.take(i as int));
        assert(rv.take(i + 1).last() == ranked@[i as int]@);
        if !question_listed(&order, &ranked[i].question) {
            let q: LandingQuestion = ranked[i].question.copy();
            proof {
                state::lemma_rows_push(order@, q);
            }
            order.push(q);
        }
        i = i + 1;
    }
    assert(rv.take(rv.len() as int) =~= rv);
    order
}

fn rows_without(rows: &Vec<OpenRow>, q: Option<&LandingQuestion>) -> (r: Vec<OpenRow>)
    ensures
        state::rows(r@) == match q {
            Some(d) => other_rows(state::rows(rows@), d@),
            None => state::rows(rows@),
        },
{
    let ghost rv = state::rows(rows@);
    let mut out: Vec<OpenRow> = Vec::new();
    let mut i: usize = 0;
    match q {
        Some(d) => {
            assert(state::rows(out@) =~= other_rows(rv.take(0), d@));
            while i < rows.len()
                invariant
                    i <= rows.len(),
                    rv == state::rows(rows@),
                    state::rows(out@) == other_rows(rv.take(i as int), d@),
                decreases rows.len() - i,
            {
                assert(rv.take(i + 1).drop_last() =~= rv.take(i as int));
                assert(rv.take(i + 1).last() == rows@[i as int]@);
                if !is_same_question(&rows[i].question, d) {
                    let row: OpenRow = rows[i].copy();
                    proof {
                        state::lemma_rows_push(out@, row);
                    }
                    out.push(row);
                }
                i = i + 1;
            }
            assert(rv.take(rv.len() as int) =~= rv);
        },
        None => {
            assert(state::rows(out@) =~= rv.take(0));
            while i < rows.len()
                invariant
                    i <= rows.len(),
                    rv == state::rows(rows@),
                    state::rows(out@) == rv.take(i as int),
                decreases rows.len() - i,
            {
                let row: OpenRow = rows[i].copy();
                proof {
                    state::lemma_rows_push(out@, row);
                }
                out.push(row);
                assert(rv.take(i + 1) =~= rv.take(i as int).push(rv[i as int]));
                i = i + 1;
            }
            assert(rv.take(rv.len() as int) =~= rv);
        },
    }
    out
}

fn cap_rows(rows: Vec<OpenRow>) -> (r: Vec<OpenRow>)
    ensures
        state::rows(r@) == index_rows(state::rows(rows@)),
{
    let ghost rv = state::rows(rows@);
    if rows.len() <= OPEN_INDEX_CAP {
        return rows;
    }
    let mut out: Vec<OpenRow> = Vec::new();
    let mut i: usize = 0;
    while i < OPEN_INDEX_CAP
        invariant
            i <= OPEN_INDEX_CAP,
            OPEN_INDEX_CAP < rows.len(),
            out.len() == i,
            forall|j: int| 0 <= j < i ==> (#[trigger] out@[j])@ == rows@[j]@,
        decreases OPEN_INDEX_CAP - i,
    {
        out.push(rows[i].copy());
        i = i + 1;
    }
    assert(state::rows(out@) =~= rv.take(OPEN_INDEX_CAP as int));
    out
}

/// What the landing page deals to a reader: the most compared open question that has a pair
/// left for them, or else the hottest that has, with the other open questions below.
pub fn vote_landing(
    reduced: &ReducerState,
    content: &ContentState,
    scope: &ScopeId,
    skips: &Vec<VoteSkipEntry>,
) -> (r: Landing)
    ensures
        opt_deal(r.deal) == landing_deal(*reduced, *content, scope@, skips@),
        state::rows(r.index@) == landing_index(*reduced, *content, scope@, skips@),
{
    let ranked: Vec<OpenRow> = rank_open_questions(content, reduced, scope);
    let order: Vec<LandingQuestion> = order_to_deal(pick_landing_question(content), &ranked);
    let ghost ov = state::rows(order@);
    let mut deal: Option<Deal> = None;
    let mut i: usize = 0;
    while i < order.len() && deal.is_none()
        invariant
            i <= order.len(),
            ov == state::rows(order@),
            match deal {
                Some(d) => first_deal(*content, ov, skips@, 0) == Some((d.question@, d.pair@)),
                None => first_deal(*content, ov, skips@, 0) == first_deal(
                    *content,
                    ov,
                    skips@,
                    i as int,
                ),
            },
        decreases order.len() - i,
    {
        assert(ov[i as int] == order@[i as int]@);
        match deal_from_question(content, &order[i], skips) {
            Some(pair) => {
                deal = Some(Deal { question: order[i].copy(), pair });
            },
            None => {},
        }
        i = i + 1;
    }
    let rest: Vec<OpenRow> = match &deal {
        Some(d) => rows_without(&ranked, Some(&d.question)),
        None => rows_without(&ranked, None),
    };
    Landing { deal, index: cap_rows(rest) }
}

proof fn lemma_deal_order(first: Option<QuestionModel>, ranked: Seq<OpenModel>, i: int)
    requires
        0 <= i < deal_order(first, ranked).len(),
    ensures
        Some(deal_order(first, ranked)[i]) == first || exists|k: int|
            0 <= k < ranked.len() && (#[trigger] ranked[k]).question == deal_order(first, ranked)[i],
    decreases ranked.len(),
{
    if ranked.len() > 0 {
        let front = deal_order(first, ranked.drop_last());
        if i < front.len() {
            lemma_deal_order(first, ranked.drop_last(), i);
            if Some(front[i]) != first {
                let k = choose|k: int|
                    0 <= k < ranked.drop_last().len() && (#[trigger] ranked.drop_last()[k]).question
                        == front[i];
                assert(ranked[k].question == front[i]);
            }
        } else {
            assert(ranked[ranked.len() - 1].question == deal_order(first, ranked)[i]);
        }
    }
}

proof fn lemma_first_deal(c: ContentState, order: Seq<QuestionModel>, skips: Seq<VoteSkipEntry>, n: int)
    requires
        0 <= n,
    ensures
        match first_deal(c, order, skips, n) {
            Some(d) => exists|i: int|
                n <= i < order.len() && (#[trigger] order[i]) == d.0 && dealt_pair(
                    c,
                    order[i],
                    skips,
                ) == Some(d.1),
            None => forall|i: int|
                n <= i < order.len() ==> dealt_pair(c, #[trigger] order[i], skips) is None,
        },
    decreases order.len() - n,
{
    if n < order.len() {
        lemma_first_deal(c, order, skips, n + 1);
        assert(order[n] == order[n]);
    }
}

proof fn lemma_pair_left_is_left(
    g: GroupState,
    pool: Seq<Seq<char>>,
    skipped: Seq<(Seq<char>, Seq<char>)>,
    n: int,
)
    requires
        0 <= n,
    ensures
        match pair_left_from(g, pool, skipped, n) {
            Some(p) => is_left(g, skipped, p.0, p.1) && pool.contains(p.0) && pool.contains(p.1),
            None => true,
        },
    decreases pool.len() - n,
{
    if n < pool.len() {
        lemma_partner(g, pool, skipped, n, n + 1);
        lemma_pair_left_is_left(g, pool, skipped, n + 1);
        match partner_left(g, pool, skipped, n, n + 1) {
            Some(j) => {
                assert(pool[n] == pool[n] && pool[j] == pool[j]);
            },
            None => {},
        }
    }
}

proof fn lemma_partner(
    g: GroupState,
    pool: Seq<Seq<char>>,
    skipped: Seq<(Seq<char>, Seq<char>)>,
    i: int,
    j: int,
)
    requires
        0 <= j,
    ensures
        match partner_left(g, pool, skipped, i, j) {
            Some(k) => j <= k < pool.len() && is_left(g, skipped, pool[i], pool[k]),
            None => true,
        },
    decreases pool.len() - j,
{
    if j < pool.len() {
        lemma_partner(g, pool, skipped, i, j + 1);
    }
}

/// What the landing page deals is an open question, and a pair of its members that nobody has
/// judged there and that the reader has not skipped.
pub proof fn law_landing_deals_an_open_pair(
    s: ReducerState,
    c: ContentState,
    scope: Option<Seq<char>>,
    skips: Seq<VoteSkipEntry>,
)
    ensures
        match landing_deal(s, c, scope, skips) {
            Some((q, p)) => {
                let skipped = votes::skipped_upto(skips, q.aspect, skips.len() as int);
                &&& q.voted < q.possible
                &&& contestants(c, q.scope).contains(p.0)
                &&& contestants(c, q.scope).contains(p.1)
                &&& !votes::holds_ends(skipped, p.0, p.1)
                &&& !votes::holds_pair(
                    votes::group_for(c, Some(q.scope), q.aspect).voted_pairs@,
                    p.0,
                    p.1,
                )
            },
            None => true,
        },
{
    let first = landing_question(c);
    let rows = open_rows(s, scope, questions_open(c));
    let ranked = ranked_questions(s, c, scope);
    let order = deal_order(first, ranked);
    lemma_first_deal(c, order, skips, 0);
    match landing_deal(s, c, scope, skips) {
        Some((q, p)) => {
            let i = choose|i: int|
                0 <= i < order.len() && (#[trigger] order[i]) == q && dealt_pair(c, order[i], skips)
                    == Some(p);
            lemma_deal_order(first, ranked, i);
            law_landing_question(c);
            if Some(q) != first {
                let k = choose|k: int|
                    0 <= k < ranked.len() && (#[trigger] ranked[k]).question == q;
                let perm = sort::stable_order(heat_keys(rows));
                sort::lemma_stable_order(heat_keys(rows));
                assert(0 <= perm[k] < rows.len());
                assert(ranked[k] == rows[perm[k]]);
                law_open_questions_are_open(c, perm[k]);
            }
            let skipped = votes::skipped_upto(skips, q.aspect, skips.len() as int);
            match q.aspect {
                None => {
                    lemma_pair_left_is_left(
                        c.ranking_group,
                        contestants(c, q.scope),
                        skipped,
                        0,
                    );
                },
                Some(slug) => {
                    let at = state::aspect_index(c, q.scope, slug).unwrap();
                    lemma_pair_left_is_left(
                        c.aspect_groups@[at].group,
                        contestants(c, q.scope),
                        skipped,
                        0,
                    );
                },
            }
        },
        None => {},
    }
}

// ---------------------------------------------------------------------------
// Links
// ---------------------------------------------------------------------------

/// The links of a row of the heat index.
pub struct OpenIndexRow {
    pub judge_href: String,
    pub garden_href: String,
    pub thread_href: String,
    pub name: String,
    pub active_ts: i64,
}

/// The URL of the place of a question in the garden.
pub open spec fn question_garden_href(nav: NavModel, scope: Seq<char>, aspect: Option<Seq<char>>) -> Seq<char> {
    match aspect {
        None => nav::written_item_href(nav, scope),
        Some(slug) => nav::written_item_href(nav, scope) + "#aspect-"@ + slug,
    }
}

/// The URL of the place of a question in the garden.
pub fn landing_garden_href(nav: &ThreadNav, scope: &ItemId, aspect: &Option<String>) -> (r: String)
    ensures
        r@ == question_garden_href(nav@, scope@, text::opt_view(*aspect)),
{
    let href: String = garden::item_href(scope.as_str(), nav);
    match aspect {
        None => href,
        Some(slug) => text::cat3(href.as_str(), "#aspect-", slug.as_str()),
    }
}

/// The URL at which a question deals pairs.
pub open spec fn judge_href(nav: NavModel, scope: Seq<char>, aspect: Option<Seq<char>>) -> Seq<char> {
    match aspect {
        None => votes::pool_href(nav, scope),
        Some(slug) => votes::pool_href(nav, scope) + "&aspect="@ + outside::percent(slug),
    }
}

/// The links of a row of the heat index.
pub fn open_index_row(nav: &ThreadNav, row: &OpenRow) -> (r: OpenIndexRow)
    ensures
        r.judge_href@ == judge_href(nav@, row@.question.scope, row@.question.aspect),
        r.garden_href@ == question_garden_href(
            nav@,
            row@.question.scope,
            row@.question.aspect,
        ),
        r.thread_href@ == nav::thread_href(
            nav@,
            nav::canonical_tag(paths::last_piece(row@.question.scope)),
        ),
        r.name@ == garden::shown_path(row@.question.scope),
        r.active_ts == if row@.question.last_ts > row@.thread_ts {
            row@.question.last_ts
        } else {
            row@.thread_ts
        },
{
    let q: &LandingQuestion = &row.question;
    let pool: String = votes::vote_pool_href(nav, q.scope.as_str());
    let judge_href: String = match &q.aspect {
        None => pool,
        Some(slug) => {
            let s: String = outside::url_encode(slug.as_str());
            text::cat3(pool.as_str(), "&aspect=", s.as_str())
        },
    };
    let leaf: String = nav::canonicalize_tag(q.scope.last_segment().as_str());
    OpenIndexRow {
        judge_href,
        garden_href: landing_garden_href(nav, &q.scope, &q.aspect),
        thread_href: nav.thread_url(leaf.as_str()),
        name: garden::item_display_path(q.scope.as_str()),
        active_ts: if q.last_vote_ts > row.thread_ts {
            q.last_vote_ts
        } else {
            row.thread_ts
        },
    }
}

// ---------------------------------------------------------------------------
// What questions are made of
// ---------------------------------------------------------------------------

/// The number of compared pairs grows, with each further item, by the number of those before it
/// that a vote joins with it, whichever of the two the vote names first.
pub proof fn law_compared_pairs(g: GroupState, items: Seq<Seq<char>>, x: Seq<char>)
    ensures
        compared_pairs(g, Seq::empty()) == 0,
        compared_pairs(g, items.push(x)) == compared_pairs(g, items) + items.filter(
            |y: Seq<char>|
                exists|k: int|
                    0 <= k < g.voted_pairs@.len() && {
                        let v = #[trigger] g.voted_pairs@[k];
                        (v.a@ == x && v.b@ == y) || (v.a@ == y && v.b@ == x)
                    },
        ).len(),
{
    assert(items.push(x).drop_last() =~= items);
    lemma_compared_with(g, x, items);
}

proof fn lemma_compared_with(g: GroupState, x: Seq<char>, items: Seq<Seq<char>>)
    ensures
        compared_with(g, x, items) == items.filter(
            |y: Seq<char>|
                exists|k: int|
                    0 <= k < g.voted_pairs@.len() && {
                        let v = #[trigger] g.voted_pairs@[k];
                        (v.a@ == x && v.b@ == y) || (v.a@ == y && v.b@ == x)
                    },
        ).len(),
    decreases items.len(),
{
    reveal(Seq::filter);
    if items.len() > 0 {
        lemma_compared_with(g, x, items.drop_last());
        let y = items.last();
        if votes::holds_pair(g.voted_pairs@, x, y) {
            let k = choose|k: int|
                0 <= k < g.voted_pairs@.len() && votes::joins((#[trigger] g.voted_pairs@[k])@, x, y);
            let v = g.voted_pairs@[k];
            assert((v.a@ == x && v.b@ == y) || (v.a@ == y && v.b@ == x));
        }
        if exists|k: int|
            0 <= k < g.voted_pairs@.len() && {
                let v = #[trigger] g.voted_pairs@[k];
                (v.a@ == x && v.b@ == y) || (v.a@ == y && v.b@ == x)
            } {
            let k = choose|k: int|
                0 <= k < g.voted_pairs@.len() && {
                    let v = #[trigger] g.voted_pairs@[k];
                    (v.a@ == x && v.b@ == y) || (v.a@ == y && v.b@ == x)
                };
            assert(votes::joins(g.voted_pairs@[k]@, x, y));
        }
    }
}

/// A number of items has half as many pairs as it has ways to name two of them in order.
pub proof fn law_possible_pairs(n: int)
    requires
        0 <= n,
    ensures
        2 * pairs_of(n) == n * (n - 1),
        pairs_of(n + 1) == pairs_of(n) + n,
{
    if n % 2 == 0 {
        let k = n / 2;
        assert(n * (n - 1) == 2 * (k * (n - 1))) by (nonlinear_arith)
            requires
                n == 2 * k,
        ;
    } else {
        let k = n / 2;
        assert(n * (n - 1) == 2 * (n * k)) by (nonlinear_arith)
            requires
                n == 2 * k + 1,
        ;
    }
    assert((n + 1) * n == n * (n - 1) + 2 * n) by (nonlinear_arith);
}

/// The last vote on a question without an aspect is the first of the newest votes whose ends are
/// both members.
pub proof fn law_last_vote(recent: Seq<state::RecentModel>, members: Seq<Seq<char>>, m: int)
    requires
        0 <= m <= recent.len(),
        forall|i: int|
            0 <= i < m ==> !(members.contains((#[trigger] recent[i]).a) && members.contains(
                recent[i].b,
            )),
        m < recent.len() ==> members.contains(recent[m].a) && members.contains(recent[m].b),
    ensures
        newest_between(recent, members, 0) == if m < recent.len() {
            recent[m].ts
        } else {
            0
        },
{
    lemma_newest(recent, members, m, 0);
}

proof fn lemma_newest(recent: Seq<state::RecentModel>, members: Seq<Seq<char>>, m: int, i: int)
    requires
        0 <= i <= m <= recent.len(),
        forall|k: int|
            0 <= k < m ==> !(members.contains((#[trigger] recent[k]).a) && members.contains(
                recent[k].b,
            )),
        m < recent.len() ==> members.contains(recent[m].a) && members.contains(recent[m].b),
    ensures
        newest_between(recent, members, i) == if m < recent.len() {
            recent[m].ts
        } else {
            0
        },
    decreases m - i,
{
    if i < m {
        assert(!(members.contains(recent[i].a) && members.contains(recent[i].b)));
        lemma_newest(recent, members, m, i + 1);
    }
}

/// A scope is listed where it is a single name under the root of the ontology.
pub proof fn law_listable(t: Seq<char>, key: Seq<char>)
    ensures
        t.len() > 0 && !t.contains('/') ==> is_listable("https://slug.social/~/"@ + t),
        t.contains('/') ==> !is_listable("https://slug.social/~/"@ + t),
        is_listable(key) ==> key.len() > 22 && key.take(22) == "https://slug.social/~/"@
            && !key.skip(22).contains('/'),
{
    reveal_strlit("https://slug.social/~/");
    reveal_strlit("https://slug.social/~");
    let p = "https://slug.social/~/"@;
    let k = p + t;
    assert(k.subrange(0, 22) =~= p);
    assert(k.skip(22) =~= t);
    assert(k.len() >= 22);
    if is_listable(key) {
        assert(key.subrange(0, 22) =~= key.take(22));
    }
}

/// The contestants of a scope are those of its members that can be compared.
pub proof fn law_contestants(c: ContentState, scope: Seq<char>, x: Seq<char>)
    ensures
        contestants(c, scope).contains(x) <==> state::members_of(c, scope).contains(x) && exists|k: int|
            0 <= k < c.comparable@.len() && (#[trigger] c.comparable@[k])@ == x,
{
    let ms = state::members_of(c, scope);
    let f = |k: Seq<char>| paths::keys(c.comparable@).contains(k);
    let ks = paths::keys(c.comparable@);
    lemma_filter_holds(ms, f, x);
    if ks.contains(x) {
        let k = choose|k: int| 0 <= k < ks.len() && ks[k] == x;
        assert(c.comparable@[k]@ == x);
    }
    if exists|k: int| 0 <= k < c.comparable@.len() && (#[trigger] c.comparable@[k])@ == x {
        let k = choose|k: int| 0 <= k < c.comparable@.len() && (#[trigger] c.comparable@[k])@ == x;
        assert(ks[k] == x);
    }
}

proof fn lemma_filter_holds(v: Seq<Seq<char>>, f: spec_fn(Seq<char>) -> bool, x: Seq<char>)
    ensures
        v.filter(f).contains(x) <==> v.contains(x) && f(x),
    decreases v.len(),
{
    reveal(Seq::filter);
    if v.len() > 0 {
        lemma_filter_holds(v.drop_last(), f, x);
        let front = v.drop_last().filter(f);
        let all = v.filter(f);
        if all.contains(x) {
            let k = choose|k: int| 0 <= k < all.len() && all[k] == x;
            if k < front.len() {
                assert(front[k] == x);
                assert(front.contains(x));
                let j = choose|j: int| 0 <= j < v.drop_last().len() && v.drop_last()[j] == x;
                assert(v[j] == x);
            } else {
                assert(v[v.len() - 1] == x);
            }
        }
        if v.contains(x) && f(x) {
            let j = choose|j: int| 0 <= j < v.len() && v[j] == x;
            if j < v.len() - 1 {
                assert(v.drop_last()[j] == x);
                let k = choose|k: int| 0 <= k < front.len() && front[k] == x;
                assert(all[k] == x);
            } else {
                assert(all[all.len() - 1] == x);
            }
        }
    }
}

/// What the questions of a scope say: how many members can be compared, how many pairs they
/// have, how many of those a vote of the graph joins, and when the last vote was. The question
/// of the scope by itself goes by the canonical graph, that of an aspect by the aspect's.
pub proof fn law_question_numbers(c: ContentState, scope: Seq<char>, slug: Seq<char>, at: int)
    requires
        0 <= at < c.aspect_groups@.len(),
    ensures
        ({
            let q = canonical_question(c, scope);
            &&& q.scope == scope
            &&& q.aspect is None
            &&& q.members == contestants(c, scope).len()
            &&& 2 * q.possible == q.members * (q.members - 1)
            &&& q.voted == compared_pairs(c.ranking_group, contestants(c, scope))
            &&& q.last_ts == newest_between(
                state::rows(c.ranking_group.recent_votes@),
                contestants(c, scope),
                0,
            )
        }),
        ({
            let q = aspect_question(c, scope, slug, at);
            let g = c.aspect_groups@[at].group;
            &&& q.scope == scope
            &&& q.aspect == Some(slug)
            &&& q.members == contestants(c, scope).len()
            &&& 2 * q.possible == q.members * (q.members - 1)
            &&& q.voted == compared_pairs(g, contestants(c, scope))
            &&& g.recent_votes@.len() > 0 ==> q.last_ts == g.recent_votes@[0].ts
            &&& g.recent_votes@.len() == 0 ==> q.last_ts == 0
        }),
{
    let n = contestants(c, scope).len() as int;
    law_possible_pairs(n);
    assert(n * (n - 1) >= 0) by (nonlinear_arith)
        requires
            n >= 0,
    ;
}

/// The question to open with is the most compared one; of those that are compared as often, one
/// with no fewer members than any; and of those, the first.
pub proof fn law_opening_question(c: ContentState)
    ensures
        match landing_question(c) {
            Some(q) => exists|b: int|
                0 <= b < questions_open(c).len() && #[trigger] questions_open(c)[b] == q && (forall|
                    i: int,
                |
                    0 <= i < questions_open(c).len() ==> {
                        let o = #[trigger] questions_open(c)[i];
                        o.voted < q.voted || (o.voted == q.voted && (o.members < q.members
                            || (o.members == q.members && b <= i)))
                    }),
            None => questions_open(c).len() == 0,
        },
{
    let qs = questions_open(c);
    lemma_first_best(qs, qs.len() as int);
    match best_question(qs, qs.len() as int) {
        Some(b) => {
            assert(qs[b] == landing_question(c).unwrap());
        },
        None => {},
    }
}

proof fn lemma_first_best(qs: Seq<QuestionModel>, n: int)
    requires
        0 <= n <= qs.len(),
    ensures
        match best_question(qs, n) {
            Some(b) => 0 <= b < n && forall|i: int|
                0 <= i < n ==> (#[trigger] qs[i]).voted < qs[b].voted || (qs[i].voted
                    == qs[b].voted && (qs[i].members < qs[b].members || (qs[i].members
                    == qs[b].members && b <= i))),
            None => n == 0,
        },
    decreases n,
{
    if n > 0 {
        lemma_first_best(qs, n - 1);
    }
}

/// The open questions are ranked without losing any or adding one, each with the last activity
/// of the thread that is named like its scope.
pub proof fn law_ranked_questions(
    s: ReducerState,
    c: ContentState,
    scope: Option<Seq<char>>,
    r: OpenModel,
)
    ensures
        ranked_questions(s, c, scope).len() == questions_open(c).len(),
        ranked_questions(s, c, scope).contains(r) <==> questions_open(c).contains(r.question)
            && r.thread_ts == state::thread_activity(
            s,
            scope,
            nav::canonical_tag(paths::last_piece(r.question.scope)),
        ),
{
    let qs = questions_open(c);
    let rows = open_rows(s, scope, qs);
    sort::lemma_sorted_rows(rows, heat_keys(rows));
    if rows.contains(r) {
        let k = choose|k: int| 0 <= k < rows.len() && rows[k] == r;
        assert(qs[k] == r.question);
    }
    if qs.contains(r.question) && r.thread_ts == state::thread_activity(
        s,
        scope,
        nav::canonical_tag(paths::last_piece(r.question.scope)),
    ) {
        let k = choose|k: int| 0 <= k < qs.len() && qs[k] == r.question;
        assert(rows[k] == r);
    }
}

proof fn lemma_none_left(
    g: GroupState,
    pool: Seq<Seq<char>>,
    skipped: Seq<(Seq<char>, Seq<char>)>,
    n: int,
)
    requires
        0 <= n,
        pair_left_from(g, pool, skipped, n) is None,
    ensures
        forall|i: int, j: int|
            n <= i < j < pool.len() ==> !is_left(g, skipped, #[trigger] pool[i], #[trigger] pool[j]),
    decreases pool.len() - n,
{
    if n < pool.len() {
        lemma_no_partner(g, pool, skipped, n, n + 1);
        lemma_none_left(g, pool, skipped, n + 1);
    }
}

proof fn lemma_no_partner(
    g: GroupState,
    pool: Seq<Seq<char>>,
    skipped: Seq<(Seq<char>, Seq<char>)>,
    i: int,
    j: int,
)
    requires
        0 <= j,
        partner_left(g, pool, skipped, i, j) is None,
    ensures
        forall|k: int| j <= k < pool.len() ==> !is_left(g, skipped, pool[i], #[trigger] pool[k]),
    decreases pool.len() - j,
{
    if j < pool.len() {
        lemma_no_partner(g, pool, skipped, i, j + 1);
    }
}

/// Whether a vote of a graph joins two items, or an entry of a list under an aspect names them,
/// in either order.
pub open spec fn is_settled(
    g: GroupState,
    skips: Seq<VoteSkipEntry>,
    aspect: Option<Seq<char>>,
    a: Seq<char>,
    b: Seq<char>,
) -> bool {
    ||| exists|k: int|
        0 <= k < g.voted_pairs@.len() && {
            let v = #[trigger] g.voted_pairs@[k];
            (v.a@ == a && v.b@ == b) || (v.a@ == b && v.b@ == a)
        }
    ||| exists|k: int|
        0 <= k < skips.len() && {
            let e = #[trigger] skips[k];
            text::opt_view(e.aspect) == aspect && ((e.lo@ == a && e.hi@ == b) || (e.lo@ == b && e.hi@
                == a))
        }
}

#[verifier::rlimit(50)]
proof fn lemma_settled(
    g: GroupState,
    skips: Seq<VoteSkipEntry>,
    aspect: Option<Seq<char>>,
    a: Seq<char>,
    b: Seq<char>,
)
    ensures
        is_left(g, votes::skipped_upto(skips, aspect, skips.len() as int), a, b) <==> !is_settled(
            g,
            skips,
            aspect,
            a,
            b,
        ),
{
    let sk = votes::skipped_upto(skips, aspect, skips.len() as int);
    votes::law_skips_go_by_aspect(skips, aspect, (a, b));
    votes::law_skips_go_by_aspect(skips, aspect, (b, a));
    if votes::holds_pair(g.voted_pairs@, a, b) {
        let k = choose|k: int|
            0 <= k < g.voted_pairs@.len() && votes::joins((#[trigger] g.voted_pairs@[k])@, a, b);
        let v = g.voted_pairs@[k];
        assert((v.a@ == a && v.b@ == b) || (v.a@ == b && v.b@ == a));
    }
    if exists|k: int|
        0 <= k < g.voted_pairs@.len() && {
            let v = #[trigger] g.voted_pairs@[k];
            (v.a@ == a && v.b@ == b) || (v.a@ == b && v.b@ == a)
        } {
        let k = choose|k: int|
            0 <= k < g.voted_pairs@.len() && {
                let v = #[trigger] g.voted_pairs@[k];
                (v.a@ == a && v.b@ == b) || (v.a@ == b && v.b@ == a)
            };
        assert(votes::joins(g.voted_pairs@[k]@, a, b));
    }
    if votes::holds_ends(sk, a, b) {
        let k = choose|k: int| 0 <= k < sk.len() && votes::joins(#[trigger] sk[k], a, b);
        assert(sk.contains((a, b)) || sk.contains((b, a)));
        if sk.contains((a, b)) {
            let i = choose|i: int|
                0 <= i < skips.len() && (#[trigger] skips[i]).lo@ == a && skips[i].hi@ == b
                    && text::opt_view(skips[i].aspect) == aspect;
            assert(text::opt_view(skips[i].aspect) == aspect);
        } else {
            let i = choose|i: int|
                0 <= i < skips.len() && (#[trigger] skips[i]).lo@ == b && skips[i].hi@ == a
                    && text::opt_view(skips[i].aspect) == aspect;
            assert(text::opt_view(skips[i].aspect) == aspect);
        }
    }
    if exists|k: int|
        0 <= k < skips.len() && {
            let e = #[trigger] skips[k];
            text::opt_view(e.aspect) == aspect && ((e.lo@ == a && e.hi@ == b) || (e.lo@ == b && e.hi@
                == a))
        } {
        let k = choose|k: int|
            0 <= k < skips.len() && {
                let e = #[trigger] skips[k];
                text::opt_view(e.aspect) == aspect && ((e.lo@ == a && e.hi@ == b) || (e.lo@ == b
                    && e.hi@ == a))
            };
        if skips[k].lo@ == a && skips[k].hi@ == b {
            assert(sk.contains((a, b)));
            let i = choose|i: int| 0 <= i < sk.len() && sk[i] == (a, b);
            assert(votes::joins(sk[i], a, b));
        } else {
            assert(sk.contains((b, a)));
            let i = choose|i: int| 0 <= i < sk.len() && sk[i] == (b, a);
            assert(votes::joins(sk[i], a, b));
        }
    }
}

/// What a question deals is a pair of contestants that no vote of its graph joins and that the
/// reader has not skipped under its aspect; it deals nothing only where there is no such pair.
pub proof fn law_dealt_pairs(c: ContentState, q: QuestionModel, skips: Seq<VoteSkipEntry>)
    requires
        c.wf(),
    ensures
        match q.aspect {
            None => true,
            Some(slug) => state::aspect_index(c, q.scope, slug) is Some,
        } ==> match dealt_pair(c, q, skips) {
            Some(p) => contestants(c, q.scope).contains(p.0) && contestants(c, q.scope).contains(
                p.1,
            ) && !is_settled(
                votes::group_for(c, Some(q.scope), q.aspect),
                skips,
                q.aspect,
                p.0,
                p.1,
            ),
            None => forall|i: int, j: int|
                0 <= i < j < contestants(c, q.scope).len() ==> is_settled(
                    votes::group_for(c, Some(q.scope), q.aspect),
                    skips,
                    q.aspect,
                    #[trigger] contestants(c, q.scope)[i],
                    #[trigger] contestants(c, q.scope)[j],
                ),
        },
{
    let g = votes::group_for(c, Some(q.scope), q.aspect);
    let pool = contestants(c, q.scope);
    let sk = votes::skipped_upto(skips, q.aspect, skips.len() as int);
    if match q.aspect {
        None => true,
        Some(slug) => state::aspect_index(c, q.scope, slug) is Some,
    } {
        assert(dealt_pair(c, q, skips) == pair_left(g, pool, sk));
        lemma_pair_left_is_left(g, pool, sk, 0);
        match pair_left(g, pool, sk) {
            Some(p) => {
                lemma_settled(g, skips, q.aspect, p.0, p.1);
            },
            None => {
                lemma_none_left(g, pool, sk, 0);
                assert forall|i: int, j: int| 0 <= i < j < pool.len() implies is_settled(
                    g,
                    skips,
                    q.aspect,
                    #[trigger] pool[i],
                    #[trigger] pool[j],
                ) by {
                    lemma_settled(g, skips, q.aspect, pool[i], pool[j]);
                }
            },
        }
    }
}

proof fn lemma_deal_order_lists(first: Option<QuestionModel>, ranked: Seq<OpenModel>)
    ensures
        forall|k: int|
            0 <= k < ranked.len() ==> lists_question(
                deal_order(first, ranked),
                (#[trigger] ranked[k]).question,
            ),
        first is Some ==> deal_order(first, ranked).len() > 0 && deal_order(first, ranked)[0]
            == first.unwrap(),
    decreases ranked.len(),
{
    if ranked.len() > 0 {
        lemma_deal_order_lists(first, ranked.drop_last());
        let front = deal_order(first, ranked.drop_last());
        let all = deal_order(first, ranked);
        assert forall|k: int| 0 <= k < ranked.len() implies lists_question(
            all,
            (#[trigger] ranked[k]).question,
        ) by {
            if k < ranked.len() - 1 {
                assert(ranked.drop_last()[k] == ranked[k]);
                let i = choose|i: int|
                    0 <= i < front.len() && same_question(#[trigger] front[i], ranked[k].question);
                assert(all[i] == front[i]);
            } else if !lists_question(front, ranked.last().question) {
                assert(same_question(all[all.len() - 1], ranked.last().question));
            }
        }
    }
}

/// The landing page deals from the opening question as long as that has a pair for the reader;
/// and it deals nothing only where no open question has one.
#[verifier::rlimit(50)]
pub proof fn law_landing_deals_what_there_is(
    s: ReducerState,
    c: ContentState,
    scope: Option<Seq<char>>,
    skips: Seq<VoteSkipEntry>,
    q: QuestionModel,
)
    ensures
        match landing_deal(s, c, scope, skips) {
            Some((d, p)) => dealt_pair(c, d, skips) == Some(p) && questions_open(c).contains(d),
            None => questions_open(c).contains(q) ==> dealt_pair(c, q, skips) is None,
        },
        landing_question(c) == Some(q) && dealt_pair(c, q, skips) is Some ==> landing_deal(
            s,
            c,
            scope,
            skips,
        ) == Some((q, dealt_pair(c, q, skips).unwrap())),
{
    let first = landing_question(c);
    let ranked = ranked_questions(s, c, scope);
    let order = deal_order(first, ranked);
    lemma_deal_order_lists(first, ranked);
    lemma_first_deal(c, order, skips, 0);
    law_landing_question(c);
    match first_deal(c, order, skips, 0) {
        Some(d) => {
            let i = choose|i: int|
                0 <= i < order.len() && (#[trigger] order[i]) == d.0 && dealt_pair(c, order[i], skips)
                    == Some(d.1);
            lemma_deal_order(first, ranked, i);
            if Some(order[i]) != first {
                let k = choose|k: int|
                    0 <= k < ranked.len() && (#[trigger] ranked[k]).question == order[i];
                assert(ranked.contains(ranked[k]));
                law_ranked_questions(s, c, scope, ranked[k]);
            }
        },
        None => {
            if questions_open(c).contains(q) {
                let r = open_row(s, scope, q);
                law_ranked_questions(s, c, scope, r);
                let k = choose|k: int| 0 <= k < ranked.len() && ranked[k] == r;
                assert(lists_question(order, ranked[k].question));
                let i = choose|i: int|
                    0 <= i < order.len() && same_question(#[trigger] order[i], q);
                assert(dealt_pair(c, order[i], skips) is None);
                assert(dealt_pair(c, q, skips) == dealt_pair(c, order[i], skips));
            }
        },
    }
}

proof fn lemma_other_rows(rows: Seq<OpenModel>, q: QuestionModel)
    ensures
        other_rows(rows, q) == rows.filter(
            |r: OpenModel| !(r.question.scope == q.scope && r.question.aspect == q.aspect),
        ),
    decreases rows.len(),
{
    reveal(Seq::filter);
    if rows.len() > 0 {
        lemma_other_rows(rows.drop_last(), q);
    }
    assert(other_rows(rows, q) =~= rows.filter(
        |r: OpenModel| !(r.question.scope == q.scope && r.question.aspect == q.aspect),
    ));
}

/// Below what is dealt stand the other open questions, in their order, ten of them at most.
pub proof fn law_landing_index(
    s: ReducerState,
    c: ContentState,
    scope: Option<Seq<char>>,
    skips: Seq<VoteSkipEntry>,
    i: int,
)
    ensures
        ({
            let rest = match landing_deal(s, c, scope, skips) {
                Some((q, _)) => ranked_questions(s, c, scope).filter(
                    |r: OpenModel| !(r.question.scope == q.scope && r.question.aspect == q.aspect),
                ),
                None => ranked_questions(s, c, scope),
            };
            &&& landing_index(s, c, scope, skips).len() == if rest.len() < 10 {
                rest.len()
            } else {
                10
            }
            &&& 0 <= i < landing_index(s, c, scope, skips).len() ==> landing_index(
                s,
                c,
                scope,
                skips,
            )[i] == rest[i]
        }),
{
    match landing_deal(s, c, scope, skips) {
        Some(d) => {
            lemma_other_rows(ranked_questions(s, c, scope), d.0);
        },
        None => {},
    }
}

/// The listed scopes are the single names that have members, in the order of their keys, and the
/// aspects of a scope are those with a vote graph, in order.
pub proof fn law_listed_scopes_and_aspects(c: ContentState, scope: Seq<char>, x: Seq<char>)
    ensures
        listed_scopes(c).contains(x) <==> is_listable(x) && exists|k: int|
            0 <= k < c.members_by_scope@.len() && (#[trigger] c.members_by_scope@[k]).scope@ == x,
        scope_slugs(c, scope).contains(x) <==> exists|k: int|
            0 <= k < c.aspect_groups@.len() && (#[trigger] c.aspect_groups@[k]).scope@ == scope
                && c.aspect_groups@[k].slug@ == x,
        forall|i: int, j: int|
            0 <= i < j < listed_scopes(c).len() ==> !text::text_lt(
                #[trigger] listed_scopes(c)[j],
                #[trigger] listed_scopes(c)[i],
            ),
        forall|i: int, j: int|
            0 <= i < j < scope_slugs(c, scope).len() ==> !text::text_lt(
                #[trigger] scope_slugs(c, scope)[j],
                #[trigger] scope_slugs(c, scope)[i],
            ),
{
    let n = c.members_by_scope@.len() as int;
    let a = listable_upto(c, n);
    lemma_listable_contains(c, n, x);
    sort::lemma_sorted_texts_contain(a, x);
    let ks = state::scope_keys(c);
    assert(ks.take(n) =~= ks);
    if ks.contains(x) {
        let k = choose|k: int| 0 <= k < ks.len() && ks[k] == x;
        assert(c.members_by_scope@[k].scope@ == x);
    }
    if exists|k: int|
        0 <= k < c.members_by_scope@.len() && (#[trigger] c.members_by_scope@[k]).scope@ == x {
        let k = choose|k: int|
            0 <= k < c.members_by_scope@.len() && (#[trigger] c.members_by_scope@[k]).scope@ == x;
        assert(ks[k] == x);
    }
    let m = c.aspect_groups@.len() as int;
    let b = slugs_upto(c, scope, m);
    lemma_slugs_contain(c, scope, m, x);
    sort::lemma_sorted_texts_contain(b, x);
    let aks = state::aspect_keys(c);
    assert(aks.take(m) =~= aks);
    if aks.contains((scope, x)) {
        let k = choose|k: int| 0 <= k < aks.len() && aks[k] == (scope, x);
        assert(c.aspect_groups@[k].scope@ == scope);
    }
    if exists|k: int|
        0 <= k < c.aspect_groups@.len() && (#[trigger] c.aspect_groups@[k]).scope@ == scope
            && c.aspect_groups@[k].slug@ == x {
        let k = choose|k: int|
            0 <= k < c.aspect_groups@.len() && (#[trigger] c.aspect_groups@[k]).scope@ == scope
                && c.aspect_groups@[k].slug@ == x;
        assert(aks[k] == (scope, x));
    }
    sort::law_sorted_texts(a);
    sort::law_sorted_texts(b);
}

/// Where a question is judged and where its ranking stands.
pub proof fn law_links_of_questions(nav: NavModel, scope: Seq<char>, slug: Seq<char>)
    ensures
        question_garden_href(nav, scope, None) == nav::written_item_href(nav, scope),
        question_garden_href(nav, scope, Some(slug)) == nav::written_item_href(nav, scope)
            + "#aspect-"@ + slug,
        judge_href(nav, scope, None) == votes::pool_href(nav, scope),
        judge_href(nav, scope, Some(slug)) == votes::pool_href(nav, scope) + "&aspect="@
            + outside::percent(slug),
{
}

} // verus!
