//! The page of a garden item: where it belongs, how it ranks there, and what it contains.

use vstd::prelude::*;

use crate::forum;
use crate::garden;
use crate::landing;
use crate::nav::ScopeId;
use crate::paths::{self, ItemId};
use crate::sort::{self, Key, SortKey};
use crate::state::{
    self, AspectGroup, BorderModel, BorderPairState, ChildrenRankings, ContentState,
    FallenBorderEntry, FallenModel, HistoryModel, MembershipStatus, RankHistoryEntry, RankingsModel,
    ReducerState, ScopedComponent, VoteData, VoteModel,
};
use crate::text;
use crate::votes;

verus! {

// ---------------------------------------------------------------------------
// Percentiles
// ---------------------------------------------------------------------------

/// The ending of an ordinal number.
pub open spec fn ordinal_ending(n: int) -> Seq<char> {
    if 11 <= n % 100 <= 13 {
        "th"@
    } else if n % 10 == 1 {
        "st"@
    } else if n % 10 == 2 {
        "nd"@
    } else if n % 10 == 3 {
        "rd"@
    } else {
        "th"@
    }
}

/// The ending of an ordinal number.
pub fn ordinal_suffix(n: u32) -> (r: &'static str)
    ensures
        r@ == ordinal_ending(n as int),
{
    let mod100: u32 = n % 100;
    if 11 <= mod100 && mod100 <= 13 {
        return "th";
    }
    let mod10: u32 = n % 10;
    if mod10 == 1 {
        "st"
    } else if mod10 == 2 {
        "nd"
    } else if mod10 == 3 {
        "rd"
    } else {
        "th"
    }
}

/// The percentile of the first of `n`, in whole numbers; none for a group of fewer than two.
pub open spec fn winner_percentile(n: int) -> Option<int> {
    if n < 2 {
        None
    } else {
        Some((n - 1) * 100 / n)
    }
}

/// The percentile of the winner of a group of `n`.
pub fn winner_percentile_for_group_size(n: usize) -> (r: Option<u32>)
    ensures
        match r {
            Some(p) => winner_percentile(n as int) == Some(p as int),
            None => winner_percentile(n as int) is None,
        },
{
    if n < 2 {
        return None;
    }
    proof {
        law_winner_percentile(n as int);
    }
    let wide: u128 = ((n - 1) as u128) * 100 / (n as u128);
    Some(wide as u32)
}

/// The percentile of a winner lies between fifty and ninety-nine.
pub proof fn law_winner_percentile(n: int)
    requires
        n >= 2,
    ensures
        50 <= winner_percentile(n).unwrap() <= 99,
{
    assert(50 <= (n - 1) * 100 / n <= 99) by (nonlinear_arith)
        requires
            n >= 2,
    ;
}

// ---------------------------------------------------------------------------
// Parents
// ---------------------------------------------------------------------------

/// The weight of the claim that an item belongs to a parent.
pub open spec fn containment_weight(c: ContentState, item: Seq<char>, parent: Seq<char>) -> int {
    match state::border_of(c, item, parent) {
        Some(b) => b.containment as int,
        None => 0,
    }
}

/// Whether one parent of an item is stronger than another: heavier, or as heavy and the smaller
/// key.
pub open spec fn is_stronger(c: ContentState, item: Seq<char>, a: Seq<char>, b: Seq<char>) -> bool {
    let w = containment_weight(c, item, a);
    let v = containment_weight(c, item, b);
    w > v || (w == v && text::text_lt(a, b))
}

/// The place of the strongest of the first `n` parents: the heaviest, of those the first in
/// the order of the keys.
pub open spec fn strongest_upto(c: ContentState, item: Seq<char>, parents: Seq<Seq<char>>, n: int) -> Option<
    int,
>
    decreases n,
{
    if n <= 0 {
        None
    } else {
        match strongest_upto(c, item, parents, n - 1) {
            None => Some(n - 1),
            Some(b) => {
                if is_stronger(c, item, parents[n - 1], parents[b]) {
                    Some(n - 1)
                } else {
                    Some(b)
                }
            },
        }
    }
}

/// The strongest scope of an item.
pub open spec fn strongest(c: ContentState, item: Seq<char>) -> Option<Seq<char>> {
    let leaf = paths::leaf_key(item);
    let parents = state::scopes_of(c, leaf);
    match strongest_upto(c, leaf, parents, parents.len() as int) {
        Some(i) => Some(parents[i]),
        None => None,
    }
}

fn weight_of(content: &ContentState, item: &ItemId, parent: &ItemId) -> (r: u32)
    ensures
        r == containment_weight(*content, item@, parent@),
{
    match content.border_state(item, parent) {
        Some(b) => b.containment_weight,
        None => 0,
    }
}

/// The strongest active parent of an item: the heaviest containment, then the smaller key.
pub fn strongest_parent(content: &ContentState, item: &ItemId) -> (r: Option<ItemId>)
    ensures
        votes::opt_item(r) == strongest(*content, item@),
{
    let leaf: ItemId = item.ontology_leaf();
    let parents: Vec<ItemId> = content.scopes_of(&leaf);
    let ghost pk = paths::keys(parents@);
    let mut best: Option<usize> = None;
    let mut i: usize = 0;
    while i < parents.len()
        invariant
            i <= parents.len(),
            pk == paths::keys(parents@),
            match best {
                Some(b) => strongest_upto(*content, leaf@, pk, i as int) == Some(b as int) && b < i,
                None => strongest_upto(*content, leaf@, pk, i as int) is None,
            },
        decreases parents.len() - i,
    {
        assert(pk[i as int] == parents@[i as int]@);
        best = match best {
            None => Some(i),
            Some(b) => {
                assert(pk[b as int] == parents@[b as int]@);
                let w: u32 = weight_of(content, &leaf, &parents[i]);
                let bw: u32 = weight_of(content, &leaf, &parents[b]);
                if w > bw || (w == bw && text::str_lt(parents[i].as_str(), parents[b].as_str())) {
                    Some(i)
                } else {
                    Some(b)
                }
            },
        };
        i = i + 1;
    }
    match best {
        Some(b) => Some(parents[b].copy()),
        None => None,
    }
}

proof fn lemma_strongest_upto(c: ContentState, item: Seq<char>, parents: Seq<Seq<char>>, n: int)
    requires
        0 <= n <= parents.len(),
    ensures
        match strongest_upto(c, item, parents, n) {
            Some(b) => 0 <= b < n && forall|i: int|
                0 <= i < n ==> !is_stronger(c, item, #[trigger] parents[i], parents[b]),
            None => n == 0,
        },
    decreases n,
{
    if n > 0 {
        lemma_strongest_upto(c, item, parents, n - 1);
        match strongest_upto(c, item, parents, n - 1) {
            Some(b) => {
                let last = parents[n - 1];
                assert forall|i: int| 0 <= i < n implies !is_stronger(
                    c,
                    item,
                    #[trigger] parents[i],
                    parents[strongest_upto(c, item, parents, n).unwrap()],
                ) by {
                    text::lemma_text_order(parents[i], parents[b]);
                    text::lemma_text_order(last, last);
                    text::lemma_text_order(last, parents[b]);
                    text::lemma_text_order(last, parents[i]);
                    if i < n - 1 && is_stronger(c, item, last, parents[b]) && is_stronger(
                        c,
                        item,
                        parents[i],
                        last,
                    ) {
                        text::lemma_text_order_transitive(parents[i], last, parents[b]);
                    }
                }
            },
            None => {
                text::lemma_text_order(parents[0], parents[0]);
            },
        }
    }
}

/// The strongest parent is one of the item's scopes; none of them holds it with more weight, and
/// of those that hold it with the same weight none has a smaller key. An item that has a scope
/// has a strongest one.
pub proof fn law_strongest_parent(c: ContentState, item: Seq<char>)
    ensures
        match strongest(c, item) {
            Some(p) => state::scopes_of(c, paths::leaf_key(item)).contains(p) && forall|i: int|
                0 <= i < state::scopes_of(c, paths::leaf_key(item)).len() ==> {
                    let q = #[trigger] state::scopes_of(c, paths::leaf_key(item))[i];
                    let w = containment_weight(c, paths::leaf_key(item), q);
                    let best = containment_weight(c, paths::leaf_key(item), p);
                    w < best || (w == best && (p == q || text::text_lt(p, q)))
                },
            None => state::scopes_of(c, paths::leaf_key(item)).len() == 0,
        },
{
    let leaf = paths::leaf_key(item);
    let parents = state::scopes_of(c, leaf);
    lemma_strongest_upto(c, leaf, parents, parents.len() as int);
    match strongest_upto(c, leaf, parents, parents.len() as int) {
        Some(b) => {
            let p = parents[b];
            assert(p == strongest(c, item).unwrap());
            assert forall|i: int| 0 <= i < parents.len() implies {
                let q = #[trigger] parents[i];
                let w = containment_weight(c, leaf, q);
                let best = containment_weight(c, leaf, p);
                w < best || (w == best && (p == q || text::text_lt(p, q)))
            } by {
                assert(!is_stronger(c, leaf, parents[i], p));
                text::lemma_text_order(parents[i], p);
            }
        },
        None => {},
    }
}

// ---------------------------------------------------------------------------
// Crumbs
// ---------------------------------------------------------------------------

/// Whether a key is the root of the ontology.
pub open spec fn is_root_key(key: Seq<char>) -> bool {
    paths::tilde_tail(key) == Some(Seq::<char>::empty()) || key == paths::root_key()
}

fn at_root(item: &ItemId) -> (r: bool)
    ensures
        r == is_root_key(item@),
{
    item.is_ontology_root() || item.same(&ItemId::ontology_root())
}

/// How many of the first `n` scopes have not been seen.
pub open spec fn unseen(c: ContentState, seen: Seq<Seq<char>>, n: int) -> nat
    decreases n,
{
    if n <= 0 {
        0
    } else {
        unseen(c, seen, n - 1) + if seen.contains(crumb_key(c.members_by_scope@[n - 1].scope@)) {
            0nat
        } else {
            1nat
        }
    }
}

/// The key under which a scope stands in a trail.
pub open spec fn crumb_key(key: Seq<char>) -> Seq<char> {
    paths::normal_key(paths::leaf_key(key))
}

/// The ancestors of an item by its strongest parents, nearest first, up to the root or to one
/// that was seen.
pub open spec fn climb(c: ContentState, cur: Seq<char>, seen: Seq<Seq<char>>) -> Seq<Seq<char>>
    decreases unseen(c, seen, c.members_by_scope@.len() as int),
    via climb_terminates
{
    match strongest(c, cur) {
        None => Seq::empty(),
        Some(p) => {
            let up = crumb_key(p);
            if is_root_key(up) || seen.contains(up) {
                Seq::empty()
            } else {
                seq![up] + climb(c, up, seen.push(up))
            }
        },
    }
}

#[via_fn]
proof fn climb_terminates(c: ContentState, cur: Seq<char>, seen: Seq<Seq<char>>) {
    match strongest(c, cur) {
        None => {},
        Some(p) => {
            let up = crumb_key(p);
            if !(is_root_key(up) || seen.contains(up)) {
                lemma_climb_step(c, cur, seen);
            }
        },
    }
}

proof fn lemma_scopes_are_rows(c: ContentState, item: Seq<char>, n: nat, i: int)
    requires
        n <= c.members_by_scope@.len(),
        0 <= i < state::scopes_of_upto(c, item, n).len(),
    ensures
        exists|k: int|
            0 <= k < n && (#[trigger] c.members_by_scope@[k]).scope@ == state::scopes_of_upto(
                c,
                item,
                n,
            )[i],
    decreases n,
{
    let all = state::scopes_of_upto(c, item, n);
    let front = state::scopes_of_upto(c, item, (n - 1) as nat);
    if i < front.len() {
        lemma_scopes_are_rows(c, item, (n - 1) as nat, i);
    } else {
        assert(c.members_by_scope@[n - 1].scope@ == all[i]);
    }
}

proof fn lemma_unseen_shrinks(c: ContentState, seen: Seq<Seq<char>>, up: Seq<char>, n: int)
    requires
        0 <= n <= c.members_by_scope@.len(),
    ensures
        unseen(c, seen.push(up), n) <= unseen(c, seen, n),
        !seen.contains(up) && (exists|k: int|
            0 <= k < n && crumb_key((#[trigger] c.members_by_scope@[k]).scope@) == up) ==> unseen(
            c,
            seen.push(up),
            n,
        ) < unseen(c, seen, n),
    decreases n,
{
    if n > 0 {
        lemma_unseen_shrinks(c, seen, up, n - 1);
        let here = crumb_key(c.members_by_scope@[n - 1].scope@);
        let more = seen.push(up);
        if seen.contains(here) {
            let i = choose|i: int| 0 <= i < seen.len() && seen[i] == here;
            assert(more[i] == here);
        }
        if here == up {
            assert(more[seen.len() as int] == up);
        } else if more.contains(here) {
            let i = choose|i: int| 0 <= i < more.len() && more[i] == here;
            assert(i < seen.len());
            assert(seen[i] == here);
        }
    }
}

proof fn lemma_climb_step(c: ContentState, cur: Seq<char>, seen: Seq<Seq<char>>)
    requires
        strongest(c, cur) is Some,
        !seen.contains(crumb_key(strongest(c, cur).unwrap())),
    ensures
        unseen(
            c,
            seen.push(crumb_key(strongest(c, cur).unwrap())),
            c.members_by_scope@.len() as int,
        ) < unseen(c, seen, c.members_by_scope@.len() as int),
{
    let p = strongest(c, cur).unwrap();
    let leaf = paths::leaf_key(cur);
    law_strongest_parent(c, cur);
    let parents = state::scopes_of(c, leaf);
    let i = choose|i: int| 0 <= i < parents.len() && parents[i] == p;
    lemma_scopes_are_rows(c, leaf, c.members_by_scope@.len(), i);
    let k = choose|k: int|
        0 <= k < c.members_by_scope@.len() && (#[trigger] c.members_by_scope@[k]).scope@ == p;
    assert(crumb_key(c.members_by_scope@[k].scope@) == crumb_key(p));
    lemma_unseen_shrinks(c, seen, crumb_key(p), c.members_by_scope@.len() as int);
}

/// The trail to an item: its ancestors by their strongest parents, the outermost first, then
/// the item. The root has none.
pub open spec fn crumbs(c: ContentState, item: Seq<char>) -> Seq<Seq<char>> {
    let key = crumb_key(item);
    if is_root_key(key) {
        Seq::empty()
    } else {
        climb(c, key, seq![key]).reverse().push(key)
    }
}

fn reversed_items(v: &Vec<ItemId>) -> (r: Vec<ItemId>)
    ensures
        paths::keys(r@) == paths::keys(v@).reverse(),
{
    let mut r: Vec<ItemId> = Vec::new();
    let mut i: usize = v.len();
    while i > 0
        invariant
            i <= v.len(),
            r.len() == v.len() - i,
            forall|j: int| 0 <= j < r.len() ==> (#[trigger] r@[j])@ == v@[v.len() - 1 - j]@,
        decreases i,
    {
        i = i - 1;
        r.push(v[i].copy());
    }
    assert(paths::keys(r@) =~= paths::keys(v@).reverse());
    r
}

/// The trail to an item by strongest parents, the outermost first, the item last.
pub fn containment_crumb_chain(content: &ContentState, item: &ItemId) -> (r: Vec<ItemId>)
    ensures
        paths::keys(r@) == crumbs(*content, item@),
{
    let key: ItemId = item.ontology_leaf().normalized_storage();
    if at_root(&key) {
        let none: Vec<ItemId> = Vec::new();
        assert(paths::keys(none@) =~= Seq::empty());
        return none;
    }
    let mut ancestors: Vec<ItemId> = Vec::new();
    let mut seen: Vec<ItemId> = Vec::new();
    seen.push(key.copy());
    let mut cur: ItemId = key.copy();
    let mut done: bool = false;
    let ghost all = climb(*content, key@, seq![key@]);
    assert(paths::keys(seen@) =~= seq![key@]);
    assert(paths::keys(ancestors@) + climb(*content, cur@, paths::keys(seen@)) =~= all);
    while !done
        invariant
            all == climb(*content, key@, seq![key@]),
            done ==> paths::keys(ancestors@) == all,
            !done ==> paths::keys(ancestors@) + climb(*content, cur@, paths::keys(seen@)) == all,
        decreases
            unseen(*content, paths::keys(seen@), content.members_by_scope@.len() as int),
            if done {
                0int
            } else {
                1int
            },
    {
        let ghost sv = paths::keys(seen@);
        let ghost av = paths::keys(ancestors@);
        match strongest_parent(content, &cur) {
            None => {
                assert(av + climb(*content, cur@, sv) =~= av);
                done = true;
            },
            Some(p) => {
                let up: ItemId = p.ontology_leaf().normalized_storage();
                if at_root(&up) || paths::holds_item(&seen, &up) {
                    assert(av + climb(*content, cur@, sv) =~= av);
                    done = true;
                } else {
                    proof {
                        lemma_climb_step(*content, cur@, sv);
                    }
                    ancestors.push(up.copy());
                    seen.push(up.copy());
                    assert(paths::keys(seen@) =~= sv.push(up@));
                    assert(paths::keys(ancestors@) =~= av.push(up@));
                    assert(av.push(up@) + climb(*content, up@, sv.push(up@)) =~= av + (seq![up@]
                        + climb(*content, up@, sv.push(up@))));
                    cur = up;
                }
            },
        }
    }
    let mut r: Vec<ItemId> = reversed_items(&ancestors);
    let ghost rv = paths::keys(r@);
    r.push(key);
    assert(paths::keys(r@) =~= rv.push(key@));
    r
}

proof fn lemma_climb_is_fresh(c: ContentState, cur: Seq<char>, seen: Seq<Seq<char>>)
    ensures
        forall|i: int|
            0 <= i < climb(c, cur, seen).len() ==> !seen.contains(#[trigger] climb(c, cur, seen)[i])
                && !is_root_key(climb(c, cur, seen)[i]),
        climb(c, cur, seen).no_duplicates(),
    decreases unseen(c, seen, c.members_by_scope@.len() as int),
{
    match strongest(c, cur) {
        None => {},
        Some(p) => {
            let up = crumb_key(p);
            if !(is_root_key(up) || seen.contains(up)) {
                lemma_climb_step(c, cur, seen);
                lemma_climb_is_fresh(c, up, seen.push(up));
                let rest = climb(c, up, seen.push(up));
                let all = climb(c, cur, seen);
                assert(all =~= seq![up] + rest);
                assert forall|i: int| 0 <= i < all.len() implies !seen.contains(#[trigger] all[i])
                    && !is_root_key(all[i]) by {
                    if i > 0 {
                        assert(all[i] == rest[i - 1]);
                        if seen.contains(all[i]) {
                            let k = choose|k: int| 0 <= k < seen.len() && seen[k] == all[i];
                            assert(seen.push(up)[k] == all[i]);
                        }
                    }
                }
                assert forall|i: int, j: int| 0 <= i < all.len() && 0 <= j < all.len() && i != j implies all[i]
                    != all[j] by {
                    assert(seen.push(up)[seen.len() as int] == up);
                    if i > 0 {
                        assert(all[i] == rest[i - 1]);
                    }
                    if j > 0 {
                        assert(all[j] == rest[j - 1]);
                    }
                }
            }
        },
    }
}

/// The item that a climb has reached after `n` steps.
spec fn reached(cur: Seq<char>, up: Seq<Seq<char>>, n: int) -> Seq<char> {
    if n <= 0 {
        cur
    } else {
        up[n - 1]
    }
}

proof fn lemma_climb_is_a_chain(c: ContentState, cur: Seq<char>, seen: Seq<Seq<char>>)
    ensures
        forall|i: int|
            0 <= i < climb(c, cur, seen).len() ==> parent_crumb(
                c,
                reached(cur, climb(c, cur, seen), i),
            ) == Some(#[trigger] climb(c, cur, seen)[i]),
        ({
            let up = climb(c, cur, seen);
            match parent_crumb(c, reached(cur, up, up.len() as int)) {
                None => true,
                Some(p) => is_root_key(p) || seen.contains(p) || up.contains(p),
            }
        }),
    decreases unseen(c, seen, c.members_by_scope@.len() as int),
{
    match strongest(c, cur) {
        None => {},
        Some(p) => {
            let up = crumb_key(p);
            if !(is_root_key(up) || seen.contains(up)) {
                lemma_climb_step(c, cur, seen);
                lemma_climb_is_a_chain(c, up, seen.push(up));
                let rest = climb(c, up, seen.push(up));
                let all = climb(c, cur, seen);
                assert(all =~= seq![up] + rest);
                assert forall|i: int| 0 <= i < all.len() implies parent_crumb(
                    c,
                    reached(cur, all, i),
                ) == Some(#[trigger] all[i]) by {
                    if i > 0 {
                        assert(all[i] == rest[i - 1]);
                        assert(reached(cur, all, i) == reached(up, rest, i - 1));
                    }
                }
                assert(reached(cur, all, all.len() as int) == reached(up, rest, rest.len() as int));
                match parent_crumb(c, reached(cur, all, all.len() as int)) {
                    None => {},
                    Some(q) => {
                        if seen.push(up).contains(q) {
                            let k = choose|k: int|
                                0 <= k < seen.push(up).len() && seen.push(up)[k] == q;
                            if k < seen.len() {
                                assert(seen[k] == q);
                            } else {
                                assert(all[0] == q);
                            }
                        } else if rest.contains(q) {
                            let k = choose|k: int| 0 <= k < rest.len() && rest[k] == q;
                            assert(all[k + 1] == q);
                        }
                    },
                }
            }
        },
    }
}

/// The crumb of the strongest parent of an item.
pub open spec fn parent_crumb(c: ContentState, item: Seq<char>) -> Option<Seq<char>> {
    match strongest(c, item) {
        Some(p) => Some(crumb_key(p)),
        None => None,
    }
}

/// A trail ends with the item, names nothing twice, and never names the root. Each crumb is the
/// strongest parent of the next, and the first has no parent, or the root for its parent, or one
/// that the trail already names.
pub proof fn law_crumbs(c: ContentState, item: Seq<char>)
    ensures
        crumbs(c, item).no_duplicates(),
        forall|i: int| 0 <= i < crumbs(c, item).len() ==> !is_root_key(#[trigger] crumbs(c, item)[i]),
        !is_root_key(crumb_key(item)) ==> crumbs(c, item).len() > 0 && crumbs(c, item).last()
            == crumb_key(item),
        is_root_key(crumb_key(item)) ==> crumbs(c, item).len() == 0,
        forall|i: int, j: int|
            0 <= i && j == i + 1 && j < crumbs(c, item).len() ==> parent_crumb(
                c,
                #[trigger] crumbs(c, item)[j],
            ) == Some(#[trigger] crumbs(c, item)[i]),
        crumbs(c, item).len() > 0 ==> match parent_crumb(c, crumbs(c, item)[0]) {
            None => true,
            Some(p) => is_root_key(p) || crumbs(c, item).contains(p),
        },
{
    let key = crumb_key(item);
    if !is_root_key(key) {
        let up = climb(c, key, seq![key]);
        lemma_climb_is_fresh(c, key, seq![key]);
        let all = crumbs(c, item);
        assert(all =~= up.reverse().push(key));
        assert(seq![key][0] == key);
        lemma_climb_is_a_chain(c, key, seq![key]);
        let n = up.len() as int;
        assert forall|i: int, j: int| 0 <= i && j == i + 1 && j < all.len() implies parent_crumb(
            c,
            #[trigger] all[j],
        ) == Some(#[trigger] all[i]) by {
            assert(all[i] == up[n - 1 - i]);
            assert(all[j] == reached(key, up, n - 1 - i));
        }
        assert(all[0] == reached(key, up, n));
        match parent_crumb(c, all[0]) {
            None => {},
            Some(p) => {
                if seq![key].contains(p) {
                    assert(all[n] == p);
                } else if up.contains(p) {
                    let k = choose|k: int| 0 <= k < up.len() && up[k] == p;
                    assert(all[n - 1 - k] == p);
                }
            },
        }
        assert forall|i: int| 0 <= i < all.len() implies !is_root_key(#[trigger] all[i]) by {
            if i < up.len() {
                assert(all[i] == up[up.len() - 1 - i]);
            }
        }
        assert forall|i: int, j: int| 0 <= i < all.len() && 0 <= j < all.len() && i != j implies all[i]
            != all[j] by {
            if i < up.len() {
                assert(all[i] == up[up.len() - 1 - i]);
            }
            if j < up.len() {
                assert(all[j] == up[up.len() - 1 - j]);
            }
        }
    }
}

// ---------------------------------------------------------------------------
// Borders
// ---------------------------------------------------------------------------

/// The rows among the first `n` whose child is an item.
pub open spec fn borders_of_child(c: ContentState, child: Seq<char>, n: int) -> Seq<BorderModel>
    decreases n,
{
    if n <= 0 {
        Seq::empty()
    } else {
        let b = c.borders@[n - 1]@;
        let front = borders_of_child(c, child, n - 1);
        if b.child == child {
            front.push(b)
        } else {
            front
        }
    }
}

/// What the parents of an item are ordered by: the heavier first, then the key.
pub open spec fn parent_keys(rows: Seq<BorderModel>) -> Seq<Key> {
    Seq::new(
        rows.len(),
        |i: int| Key { major: -(rows[i].containment as int), minor: 0, text: rows[i].parent },
    )
}

/// The claims that an item belongs somewhere, the heaviest first.
pub open spec fn child_borders(c: ContentState, item: Seq<char>) -> Seq<BorderModel> {
    let rows = borders_of_child(c, paths::leaf_key(item), c.borders@.len() as int);
    sort::pick(rows, sort::stable_order(parent_keys(rows)))
}

pub(crate) fn pick_borders(all: &Vec<BorderPairState>, keys: &Vec<SortKey>) -> (r: Vec<BorderPairState>)
    requires
        all@.len() == keys@.len(),
    ensures
        state::rows(r@) == sort::pick(
            state::rows(all@),
            sort::stable_order(sort::key_views(keys@)),
        ),
{
    let order: Vec<usize> = sort::order_by(keys);
    let mut r: Vec<BorderPairState> = Vec::new();
    let mut k: usize = 0;
    while k < order.len()
        invariant
            k <= order.len(),
            r.len() == k,
            forall|j: int| 0 <= j < order@.len() ==> (#[trigger] order@[j]) < all@.len(),
            forall|j: int| 0 <= j < k ==> (#[trigger] r@[j])@ == all@[order@[j] as int]@,
        decreases order.len() - k,
    {
        r.push(all[order[k]].copy());
        k = k + 1;
    }
    proof {
        let rows = state::rows(all@);
        let o = sort::ints(order@);
        assert forall|j: int| 0 <= j < r@.len() implies #[trigger] state::rows(r@)[j]
            == sort::pick(rows, o)[j] by {
            assert(r@[j]@ == all@[order@[j] as int]@);
            assert(o[j] == order@[j] as int);
        }
        assert(state::rows(r@) =~= sort::pick(rows, o));
    }
    r
}

/// The claims that an item belongs somewhere, active or not, the heaviest first.
pub fn child_border_pairs(content: &ContentState, item: &ItemId) -> (r: Vec<BorderPairState>)
    ensures
        state::rows(r@) == child_borders(*content, item@),
{
    let leaf: ItemId = item.ontology_leaf();
    let mut all: Vec<BorderPairState> = Vec::new();
    let mut keys: Vec<SortKey> = Vec::new();
    let mut i: usize = 0;
    assert(state::rows(all@) =~= borders_of_child(*content, leaf@, 0));
    while i < content.borders.len()
        invariant
            i <= content.borders.len(),
            all.len() == keys.len(),
            state::rows(all@) == borders_of_child(*content, leaf@, i as int),
            forall|j: int|
                0 <= j < keys.len() ==> (#[trigger] keys@[j])@ == (Key {
                    major: -(all@[j].containment_weight as int),
                    minor: 0,
                    text: all@[j].parent@,
                }),
        decreases content.borders.len() - i,
    {
        let b: &BorderPairState = &content.borders[i];
        if b.child.same(&leaf) {
            let row: BorderPairState = b.copy();
            let key = SortKey {
                major: -(row.containment_weight as i128),
                minor: 0,
                text: row.parent.to_storage_string(),
            };
            proof {
                state::lemma_rows_push(all@, row);
            }
            all.push(row);
            keys.push(key);
        }
        i = i + 1;
    }
    assert(sort::key_views(keys@) =~= parent_keys(state::rows(all@)));
    pick_borders(&all, &keys)
}

/// Those claims that have a status.
pub open spec fn with_status(rows: Seq<BorderModel>, status: MembershipStatus) -> Seq<BorderModel>
    decreases rows.len(),
{
    if rows.len() == 0 {
        Seq::empty()
    } else if rows.last().status == status {
        with_status(rows.drop_last(), status).push(rows.last())
    } else {
        with_status(rows.drop_last(), status)
    }
}

/// Where the state is well formed, a claim that is suspended has no more for it than against it,
/// and one that is active has more.
pub proof fn law_status_follows_weight(c: ContentState, child: Seq<char>, parent: Seq<char>)
    requires
        c.wf(),
        state::border_of(c, child, parent) is Some,
    ensures
        state::border_of(c, child, parent).unwrap().status is Active <==> state::border_of(
            c,
            child,
            parent,
        ).unwrap().containment > state::border_of(c, child, parent).unwrap().border,
{
    text::lemma_position(state::border_keys(c), (child, parent));
    let i = text::position(state::border_keys(c), (child, parent)).unwrap();
    assert(0 <= i < c.borders@.len());
    assert(c.borders@[i]@ == state::border_of(c, child, parent).unwrap());
}

/// Those claims that have a status.
pub fn borders_with_status(rows: &Vec<BorderPairState>, status: MembershipStatus) -> (r: Vec<
    BorderPairState,
>)
    ensures
        state::rows(r@) == with_status(state::rows(rows@), status),
{
    let ghost rv = state::rows(rows@);
    let mut out: Vec<BorderPairState> = Vec::new();
    let mut i: usize = 0;
    assert(state::rows(out@) =~= with_status(rv.take(0), status));
    while i < rows.len()
        invariant
            i <= rows.len(),
            rv == state::rows(rows@),
            state::rows(out@) == with_status(rv.take(i as int), status),
        decreases rows.len() - i,
    {
        assert(rv.take(i + 1).drop_last() =~= rv.take(i as int));
        assert(rv.take(i + 1).last() == rows@[i as int]@);
        if rows[i].status == status {
            let row: BorderPairState = rows[i].copy();
            proof {
                state::lemma_rows_push(out@, row);
            }
            out.push(row);
        }
        i = i + 1;
    }
    assert(rv.take(rv.len() as int) =~= rv);
    out
}

/// The entries among the first `n` of the journal that name an item.
pub open spec fn fallen_upto(c: ContentState, item: Seq<char>, n: int) -> Seq<FallenModel>
    decreases n,
{
    if n <= 0 {
        Seq::empty()
    } else {
        let e = c.fallen_borders@[n - 1]@;
        let front = fallen_upto(c, item, n - 1);
        if e.child == item || e.parent == item {
            front.push(e)
        } else {
            front
        }
    }
}

/// The entries of the journal of fallen borders that name an item.
pub fn fallen_for_item(content: &ContentState, item: &ItemId) -> (r: Vec<FallenBorderEntry>)
    ensures
        state::rows(r@) == fallen_upto(*content, item@, content.fallen_borders@.len() as int),
{
    let mut out: Vec<FallenBorderEntry> = Vec::new();
    let mut i: usize = 0;
    assert(state::rows(out@) =~= fallen_upto(*content, item@, 0));
    while i < content.fallen_borders.len()
        invariant
            i <= content.fallen_borders.len(),
            state::rows(out@) == fallen_upto(*content, item@, i as int),
        decreases content.fallen_borders.len() - i,
    {
        let e: &FallenBorderEntry = &content.fallen_borders[i];
        if e.child.same(item) || e.parent.same(item) {
            let row: FallenBorderEntry = e.copy();
            proof {
                state::lemma_rows_push(out@, row);
            }
            out.push(row);
        }
        i = i + 1;
    }
    out
}

/// The weights for and against a membership as shown.
pub open spec fn weight_label(b: BorderModel) -> Seq<char> {
    "containment "@ + text::decimal(b.containment) + " · border "@ + text::decimal(b.border)
}

/// The weights for and against a membership as shown.
pub fn pair_weight_label(pair: &BorderPairState) -> (r: String)
    ensures
        r@ == weight_label(pair@),
{
    let c: String = text::number(pair.containment_weight as u64);
    let b: String = text::number(pair.border_weight as u64);
    text::cat4("containment ", c.as_str(), " · border ", b.as_str())
}

// ---------------------------------------------------------------------------
// Fragments
// ---------------------------------------------------------------------------

/// Whether a character stays in a fragment.
pub open spec fn stays_in_fragment(c: char) -> bool {
    text::is_alnum(c) || c == '-' || c == '_'
}

/// A text with each run of other characters folded into one hyphen, none at the start.
pub open spec fn folded(s: Seq<char>) -> Seq<char>
    decreases s.len(),
{
    if s.len() == 0 {
        Seq::empty()
    } else {
        let front = folded(s.drop_last());
        if stays_in_fragment(s.last()) {
            front.push(text::lower(s.last()))
        } else if front.len() > 0 && front.last() != '-' {
            front.push('-')
        } else {
            front
        }
    }
}

/// The fragment for a text: small letters, digits, underscores, and hyphens between them.
pub open spec fn fragment_of(s: Seq<char>) -> Seq<char> {
    text::trim_char_end(text::trim_char_start(folded(s), '-'), '-')
}

/// The fragment for a text.
pub fn fragment_slug(raw: &str) -> (r: String)
    ensures
        r@ == fragment_of(raw@),
{
    let s: Vec<char> = text::chars(raw);
    let mut out: Vec<char> = Vec::new();
    let mut i: usize = 0;
    assert(out@ =~= folded(s@.take(0)));
    while i < s.len()
        invariant
            i <= s.len(),
            out@ == folded(s@.take(i as int)),
        decreases s.len() - i,
    {
        assert(s@.take(i + 1).drop_last() =~= s@.take(i as int));
        let c: char = s[i];
        if text::alnum(c) || c == '-' || c == '_' {
            out.push(text::lower_char(c));
        } else if out.len() > 0 && out[out.len() - 1] != '-' {
            out.push('-');
        }
        i = i + 1;
    }
    assert(s@.take(s@.len() as int) =~= s@);
    text::string(&text::without_trailing(&text::without_leading(&out, '-'), '-'))
}

/// Whether a character can stand in a fragment.
pub open spec fn is_fragment_char(c: char) -> bool {
    ('a' <= c && c <= 'z') || text::is_digit(c) || c == '-' || c == '_'
}

proof fn lemma_folded(s: Seq<char>)
    ensures
        forall|i: int| 0 <= i < folded(s).len() ==> is_fragment_char(#[trigger] folded(s)[i]),
    decreases s.len(),
{
    if s.len() > 0 {
        lemma_folded(s.drop_last());
        let front = folded(s.drop_last());
        let c = s.last();
        if 'A' <= c && c <= 'Z' {
            let n = c as u32;
            assert(65 <= n <= 90);
            assert((n + 32) as u8 == n + 32);
            assert(text::lower(c) as u32 == n + 32);
        }
        assert forall|i: int| 0 <= i < folded(s).len() implies is_fragment_char(
            #[trigger] folded(s)[i],
        ) by {
            if i < front.len() {
                assert(folded(s)[i] == front[i]);
            }
        }
    }
}

proof fn lemma_trim_char(s: Seq<char>)
    ensures
        forall|i: int|
            0 <= i < text::trim_char_start(s, '-').len() ==> s.contains(
                #[trigger] text::trim_char_start(s, '-')[i],
            ),
        text::trim_char_start(s, '-').len() > 0 ==> text::trim_char_start(s, '-')[0] != '-',
    decreases s.len(),
{
    let t = text::trim_char_start(s, '-');
    if s.len() > 0 && s[0] == '-' {
        lemma_trim_char(s.skip(1));
        assert forall|i: int| 0 <= i < t.len() implies s.contains(#[trigger] t[i]) by {
            let rest = s.skip(1);
            let k = choose|k: int| 0 <= k < rest.len() && rest[k] == t[i];
            assert(s[k + 1] == t[i]);
        }
    } else {
        assert forall|i: int| 0 <= i < t.len() implies s.contains(#[trigger] t[i]) by {
            assert(s[i] == t[i]);
        }
    }
}

proof fn lemma_trim_char_back(s: Seq<char>)
    ensures
        text::trim_char_end(s, '-').len() <= s.len(),
        forall|i: int|
            0 <= i < text::trim_char_end(s, '-').len() ==> (#[trigger] text::trim_char_end(
                s,
                '-',
            )[i]) == s[i],
        text::trim_char_end(s, '-').len() > 0 ==> text::trim_char_end(s, '-').last() != '-',
    decreases s.len(),
{
    if s.len() > 0 && s.last() == '-' {
        lemma_trim_char_back(s.drop_last());
    }
}

/// A fragment holds only small letters, digits, underscores and hyphens, with no hyphen at
/// either end.
pub proof fn law_fragment_is_safe(s: Seq<char>)
    ensures
        forall|i: int|
            0 <= i < fragment_of(s).len() ==> is_fragment_char(#[trigger] fragment_of(s)[i]),
        fragment_of(s).len() > 0 ==> fragment_of(s)[0] != '-' && fragment_of(s).last() != '-',
{
    let f = folded(s);
    let t = text::trim_char_start(f, '-');
    lemma_folded(s);
    lemma_trim_char(f);
    lemma_trim_char_back(t);
    assert forall|i: int| 0 <= i < fragment_of(s).len() implies is_fragment_char(
        #[trigger] fragment_of(s)[i],
    ) by {
        assert(f.contains(t[i]));
        let k = choose|k: int| 0 <= k < f.len() && f[k] == t[i];
        assert(is_fragment_char(f[k]));
    }
}

/// A fragment, or `root` for an empty one.
pub open spec fn fragment_or_root(s: Seq<char>) -> Seq<char> {
    if fragment_of(s).len() == 0 {
        "root"@
    } else {
        fragment_of(s)
    }
}

/// The fragment of a membership.
pub open spec fn edge_fragment(child: Seq<char>, parent: Seq<char>) -> Seq<char> {
    "edge-"@ + fragment_or_root(paths::last_piece(child)) + "-in-"@ + fragment_or_root(
        paths::last_piece(parent),
    )
}

fn slug_or_root(s: &str) -> (r: String)
    ensures
        r@ == fragment_or_root(s@),
{
    let f: String = fragment_slug(s);
    if f.as_str().is_empty() {
        "root".to_owned()
    } else {
        f
    }
}

/// The fragment of a membership, by which it has its own URL.
pub fn edge_fragment_id(child: &ItemId, parent: &ItemId) -> (r: String)
    ensures
        r@ == edge_fragment(child@, parent@),
{
    let c: String = slug_or_root(child.last_segment().as_str());
    let p: String = slug_or_root(parent.last_segment().as_str());
    text::cat4("edge-", c.as_str(), "-in-", p.as_str())
}

// ---------------------------------------------------------------------------
// Siblings
// ---------------------------------------------------------------------------

/// A link to a sibling.
#[derive(Debug)]
pub struct SiblingNavLink {
    pub path: String,
}

/// Siblings that votes connect, in the order of their ranking; or a single one without votes.
#[derive(Debug)]
pub struct SiblingNavGroup {
    pub links: Vec<SiblingNavLink>,
}

/// The siblings of an item in one scope.
#[derive(Debug)]
pub struct SiblingNavBar {
    pub groups: Vec<SiblingNavGroup>,
    /// The rank of the item in the largest group, and the size of that group.
    pub largest_group_rank: Option<(usize, usize)>,
    /// The percentile of the winner of the largest group.
    pub winner_percentile: Option<u32>,
}

impl View for SiblingNavLink {
    type V = Seq<char>;

    open spec fn view(&self) -> Seq<char> {
        self.path@
    }
}

impl View for SiblingNavGroup {
    type V = Seq<Seq<char>>;

    open spec fn view(&self) -> Seq<Seq<char>> {
        state::rows(self.links@)
    }
}

/// The mathematical value of a [`SiblingNavBar`].
pub struct BarModel {
    pub groups: Seq<Seq<Seq<char>>>,
    pub rank: Option<(int, int)>,
    pub percentile: Option<int>,
}

impl View for SiblingNavBar {
    type V = BarModel;

    open spec fn view(&self) -> BarModel {
        BarModel {
            groups: state::rows(self.groups@),
            rank: match self.largest_group_rank {
                Some(p) => Some((p.0 as int, p.1 as int)),
                None => None,
            },
            percentile: match self.winner_percentile {
                Some(p) => Some(p as int),
                None => None,
            },
        }
    }
}

/// The storage keys of the items of a component.
pub open spec fn ranked_keys(c: state::ComponentModel) -> Seq<Seq<char>> {
    Seq::new(c.ranked.len(), |i: int| paths::normal_key(c.ranked[i].item))
}

/// One group for each component that has items.
pub open spec fn component_groups(components: Seq<state::ComponentModel>) -> Seq<Seq<Seq<char>>>
    decreases components.len(),
{
    if components.len() == 0 {
        Seq::empty()
    } else {
        let front = component_groups(components.drop_last());
        let keys = ranked_keys(components.last());
        if keys.len() > 0 {
            front.push(keys)
        } else {
            front
        }
    }
}

/// One group for each item without votes.
pub open spec fn single_groups(items: Seq<Seq<char>>) -> Seq<Seq<Seq<char>>> {
    Seq::new(items.len(), |i: int| seq![paths::normal_key(items[i])])
}

/// The groups of a ranking: one for each component, then one for each item without votes.
pub open spec fn nav_groups(r: RankingsModel) -> Seq<Seq<Seq<char>>> {
    component_groups(r.components) + single_groups(r.unranked)
}

/// How many items the groups have together.
pub open spec fn sibling_total(groups: Seq<Seq<Seq<char>>>) -> nat
    decreases groups.len(),
{
    if groups.len() == 0 {
        0
    } else {
        sibling_total(groups.drop_last()) + groups.last().len()
    }
}

/// The rank of an item in the largest component, where that has at least two items.
pub open spec fn rank_in_largest(r: RankingsModel, current: Seq<char>) -> Option<(int, int)> {
    if r.components.len() > 0 && r.components[0].ranked.len() >= 2 {
        match text::position(ranked_keys(r.components[0]), current) {
            Some(i) => Some((i + 1, r.components[0].ranked.len() as int)),
            None => None,
        }
    } else {
        None
    }
}

/// The siblings of an item under a parent: none where there is nobody to rank against.
pub open spec fn sibling_bar(r: RankingsModel, current: Seq<char>) -> Option<BarModel> {
    if sibling_total(nav_groups(r)) <= 1 {
        None
    } else {
        let rank = rank_in_largest(r, current);
        Some(
            BarModel {
                groups: nav_groups(r),
                rank,
                percentile: match rank {
                    Some(p) => if p.0 == 1 {
                        winner_percentile(p.1)
                    } else {
                        None
                    },
                    None => None,
                },
            },
        )
    }
}

/// The view of optional siblings.
pub open spec fn opt_bar(o: Option<SiblingNavBar>) -> Option<BarModel> {
    match o {
        Some(b) => Some(b@),
        None => None,
    }
}

fn links_of(comp: &ScopedComponent) -> (r: Vec<SiblingNavLink>)
    ensures
        state::rows(r@) == ranked_keys(comp@),
{
    let mut r: Vec<SiblingNavLink> = Vec::new();
    let mut i: usize = 0;
    while i < comp.ranked.len()
        invariant
            i <= comp.ranked.len(),
            r.len() == i,
            forall|j: int|
                0 <= j < i ==> (#[trigger] r@[j])@ == paths::normal_key(comp.ranked@[j].item@),
        decreases comp.ranked.len() - i,
    {
        let item: ItemId = comp.ranked[i].item.normalized_storage();
        r.push(SiblingNavLink { path: item.to_storage_string() });
        i = i + 1;
    }
    assert(state::rows(r@) =~= ranked_keys(comp@)) by {
        assert forall|j: int| 0 <= j < r@.len() implies state::rows(r@)[j] == #[trigger] ranked_keys(
            comp@,
        )[j] by {
            assert(r@[j]@ == paths::normal_key(comp.ranked@[j].item@));
        }
    }
    r
}

fn groups_of(rankings: &ChildrenRankings) -> (r: Vec<SiblingNavGroup>)
    ensures
        state::rows(r@) == nav_groups(rankings@),
{
    let ghost comps = rankings@.components;
    let ghost lone = rankings@.unranked;
    let mut groups: Vec<SiblingNavGroup> = Vec::new();
    let mut i: usize = 0;
    assert(state::rows(groups@) =~= component_groups(comps.take(0)));
    while i < rankings.component_rankings.len()
        invariant
            i <= rankings.component_rankings.len(),
            comps == rankings@.components,
            state::rows(groups@) == component_groups(comps.take(i as int)),
        decreases rankings.component_rankings.len() - i,
    {
        assert(comps.take(i + 1).drop_last() =~= comps.take(i as int));
        assert(comps.take(i + 1).last() == rankings.component_rankings@[i as int]@);
        let links: Vec<SiblingNavLink> = links_of(&rankings.component_rankings[i]);
        assert(state::rows(links@).len() == links@.len());
        if links.len() > 0 {
            let g = SiblingNavGroup { links };
            proof {
                state::lemma_rows_push(groups@, g);
            }
            groups.push(g);
        }
        i = i + 1;
    }
    assert(comps.take(comps.len() as int) =~= comps);
    let ghost first = component_groups(comps);
    let mut k: usize = 0;
    assert(state::rows(groups@) =~= first + single_groups(lone).take(0));
    while k < rankings.unranked_items.len()
        invariant
            k <= rankings.unranked_items.len(),
            lone == rankings@.unranked,
            state::rows(groups@) == first + single_groups(lone).take(k as int),
        decreases rankings.unranked_items.len() - k,
    {
        let ghost before = state::rows(groups@);
        let item: ItemId = rankings.unranked_items[k].normalized_storage();
        let mut links: Vec<SiblingNavLink> = Vec::new();
        links.push(SiblingNavLink { path: item.to_storage_string() });
        assert(state::rows(links@) =~= seq![item@]);
        let g = SiblingNavGroup { links };
        assert(lone[k as int] == rankings.unranked_items@[k as int]@);
        assert(g@ == single_groups(lone)[k as int]);
        proof {
            state::lemma_rows_push(groups@, g);
        }
        groups.push(g);
        assert(first + single_groups(lone).take(k + 1) =~= before.push(single_groups(lone)[k as int]));
        k = k + 1;
    }
    assert(single_groups(lone).take(lone.len() as int) =~= single_groups(lone));
    groups
}

proof fn lemma_groups_have_items(groups: Seq<Seq<Seq<char>>>)
    requires
        forall|i: int| 0 <= i < groups.len() ==> (#[trigger] groups[i]).len() > 0,
    ensures
        sibling_total(groups) >= groups.len(),
        groups.len() == 1 ==> sibling_total(groups) == groups[0].len(),
    decreases groups.len(),
{
    if groups.len() > 0 {
        let front = groups.drop_last();
        assert forall|i: int| 0 <= i < front.len() implies (#[trigger] front[i]).len() > 0 by {
            assert(front[i] == groups[i]);
        }
        lemma_groups_have_items(front);
    }
}

proof fn lemma_component_groups(components: Seq<state::ComponentModel>)
    ensures
        forall|i: int|
            0 <= i < component_groups(components).len() ==> (#[trigger] component_groups(
                components,
            )[i]).len() > 0,
    decreases components.len(),
{
    if components.len() > 0 {
        lemma_component_groups(components.drop_last());
        let front = component_groups(components.drop_last());
        assert forall|i: int| 0 <= i < component_groups(components).len() implies (
        #[trigger] component_groups(components)[i]).len() > 0 by {
            if i < front.len() {
                assert(component_groups(components)[i] == front[i]);
            }
        }
    }
}

fn place_in_component(comp: &ScopedComponent, current: &ItemId) -> (r: Option<usize>)
    ensures
        match r {
            Some(i) => text::position(ranked_keys(comp@), current@) == Some(i as int) && i
                < comp.ranked@.len(),
            None => text::position(ranked_keys(comp@), current@) is None,
        },
{
    let ghost keys = ranked_keys(comp@);
    let mut i: usize = 0;
    while i < comp.ranked.len()
        invariant
            i <= comp.ranked.len(),
            keys == ranked_keys(comp@),
            text::position(keys.take(i as int), current@) is None,
        decreases comp.ranked.len() - i,
    {
        let item: ItemId = comp.ranked[i].item.normalized_storage();
        assert(keys[i as int] == item@);
        assert(keys.take(i + 1).drop_last() =~= keys.take(i as int));
        if item.same(current) {
            assert(text::position(keys.take(i + 1), current@) == Some(i as int));
            proof {
                text::lemma_position_prefix(keys, current@, i + 1);
            }
            return Some(i);
        }
        i = i + 1;
    }
    assert(keys.take(keys.len() as int) =~= keys);
    None
}

/// The siblings of an item in a scope; none where the scope has fewer than two members.
pub fn build_sibling_nav_in_scope(content: &ContentState, current: &ItemId, parent: &ItemId) -> (r:
    Option<SiblingNavBar>)
    ensures
        opt_bar(r) == sibling_bar(state::rankings_of(*content, parent@), current@),
{
    let rankings: ChildrenRankings = content.children_rankings(parent);
    let groups: Vec<SiblingNavGroup> = groups_of(&rankings);
    let ghost gv = state::rows(groups@);
    proof {
        lemma_component_groups(rankings@.components);
        assert forall|i: int| 0 <= i < gv.len() implies (#[trigger] gv[i]).len() > 0 by {
            let n = component_groups(rankings@.components).len();
            if i < n {
                assert(gv[i] == component_groups(rankings@.components)[i]);
            } else {
                assert(gv[i] == single_groups(rankings@.unranked)[i - n]);
            }
        }
        lemma_groups_have_items(gv);
        assert(gv.len() == groups@.len());
        if gv.len() == 1 {
            assert(gv[0].len() == groups@[0].links@.len());
        }
    }
    if groups.len() == 0 || (groups.len() == 1 && groups[0].links.len() == 1) {
        return None;
    }
    let mut largest_group_rank: Option<(usize, usize)> = None;
    let mut winner_percentile: Option<u32> = None;
    if rankings.component_rankings.len() > 0 && rankings.component_rankings[0].ranked.len() >= 2 {
        let largest: &ScopedComponent = &rankings.component_rankings[0];
        assert(rankings@.components[0] == largest@);
        assert(largest@.ranked.len() == largest.ranked@.len());
        match place_in_component(largest, current) {
            Some(i) => {
                largest_group_rank = Some((i + 1, largest.ranked.len()));
                if i == 0 {
                    winner_percentile = winner_percentile_for_group_size(largest.ranked.len());
                }
            },
            None => {},
        }
    } else {
        assert(rankings@.components.len() > 0 ==> rankings@.components[0]
            == rankings.component_rankings@[0]@);
    }
    Some(SiblingNavBar { groups, largest_group_rank, winner_percentile })
}

/// The rank of an item among its siblings as shown.
pub open spec fn rank_note(b: BarModel) -> Option<Seq<char>> {
    match b.rank {
        Some(p) => Some("rank: "@ + text::decimal(p.0 as nat) + "/"@ + text::decimal(p.1 as nat)),
        None => None,
    }
}

/// The rank of an item among its siblings as shown.
pub fn sibling_rank_text(bar: &SiblingNavBar) -> (r: Option<String>)
    ensures
        text::opt_view(r) == rank_note(bar@),
{
    match bar.largest_group_rank {
        Some((rank, of)) => {
            let a: String = text::size(rank);
            let b: String = text::size(of);
            Some(text::cat4("rank: ", a.as_str(), "/", b.as_str()))
        },
        None => None,
    }
}

/// The percentile of a winner as shown, next to its rank.
pub open spec fn percentile_note(b: BarModel) -> Option<Seq<char>> {
    match (b.rank, b.percentile) {
        (Some(_), Some(p)) => Some(
            "top "@ + text::decimal(p as nat) + ordinal_ending(p) + " percentile"@,
        ),
        _ => None,
    }
}

/// The percentile of a winner as shown.
pub fn sibling_percentile_text(bar: &SiblingNavBar) -> (r: Option<String>)
    ensures
        text::opt_view(r) == percentile_note(bar@),
{
    match (bar.largest_group_rank, bar.winner_percentile) {
        (Some(_), Some(p)) => {
            let n: String = text::number(p as u64);
            Some(text::cat4("top ", n.as_str(), ordinal_suffix(p), " percentile"))
        },
        _ => None,
    }
}

/// The siblings of an item in one of its scopes.
#[derive(Debug)]
pub struct ScopedSiblingNav {
    pub scope: ItemId,
    pub bar: SiblingNavBar,
}

impl View for ScopedSiblingNav {
    type V = (Seq<char>, BarModel);

    open spec fn view(&self) -> (Seq<char>, BarModel) {
        (self.scope@, self.bar@)
    }
}

/// The siblings of an item in each of some scopes that has others.
pub open spec fn sibling_bars(c: ContentState, current: Seq<char>, scopes: Seq<Seq<char>>) -> Seq<
    (Seq<char>, BarModel),
>
    decreases scopes.len(),
{
    if scopes.len() == 0 {
        Seq::empty()
    } else {
        let front = sibling_bars(c, current, scopes.drop_last());
        let parent = paths::normal_key(scopes.last());
        match sibling_bar(state::rankings_of(c, parent), current) {
            Some(b) => front.push((parent, b)),
            None => front,
        }
    }
}

/// The siblings of an item in each of its scopes.
pub fn build_sibling_navs(content: &ContentState, current: &ItemId, scopes: &Vec<ItemId>) -> (r: Vec<
    ScopedSiblingNav,
>)
    ensures
        state::rows(r@) == sibling_bars(
            *content,
            paths::leaf_key(paths::normal_key(current@)),
            paths::keys(scopes@),
        ),
{
    let cur: ItemId = current.normalized_storage().ontology_leaf();
    let ghost sk = paths::keys(scopes@);
    let mut out: Vec<ScopedSiblingNav> = Vec::new();
    let mut i: usize = 0;
    assert(state::rows(out@) =~= sibling_bars(*content, cur@, sk.take(0)));
    while i < scopes.len()
        invariant
            i <= scopes.len(),
            sk == paths::keys(scopes@),
            state::rows(out@) == sibling_bars(*content, cur@, sk.take(i as int)),
        decreases scopes.len() - i,
    {
        assert(sk.take(i + 1).drop_last() =~= sk.take(i as int));
        assert(sk.take(i + 1).last() == scopes@[i as int]@);
        let parent: ItemId = scopes[i].normalized_storage();
        match build_sibling_nav_in_scope(content, &cur, &parent) {
            Some(bar) => {
                let row = ScopedSiblingNav { scope: parent, bar };
                proof {
                    state::lemma_rows_push(out@, row);
                }
                out.push(row);
            },
            None => {},
        }
        i = i + 1;
    }
    assert(sk.take(sk.len() as int) =~= sk);
    out
}

// ---------------------------------------------------------------------------
// Aspects
// ---------------------------------------------------------------------------

/// The ranking of the members of a scope under an aspect.
pub struct AspectRankingView {
    pub slug: String,
    pub prompt: Option<String>,
    pub rankings: ChildrenRankings,
}

/// The mathematical value of an [`AspectRankingView`].
pub struct AspectModel {
    pub slug: Seq<char>,
    pub prompt: Option<Seq<char>>,
    pub rankings: RankingsModel,
}

impl View for AspectRankingView {
    type V = AspectModel;

    open spec fn view(&self) -> AspectModel {
        AspectModel {
            slug: self.slug@,
            prompt: text::opt_view(self.prompt),
            rankings: self.rankings@,
        }
    }
}

/// The rankings under those of some aspects that have votes and a ranked component.
pub open spec fn aspect_models(c: ContentState, parent: Seq<char>, slugs: Seq<Seq<char>>) -> Seq<
    AspectModel,
>
    decreases slugs.len(),
{
    if slugs.len() == 0 {
        Seq::empty()
    } else {
        let front = aspect_models(c, parent, slugs.drop_last());
        let slug = slugs.last();
        match state::aspect_index(c, parent, slug) {
            Some(at) => {
                let g = c.aspect_groups@[at];
                if g.group.voted_pairs@.len() == 0 || g.rankings@.components.len() == 0 {
                    front
                } else {
                    front.push(
                        AspectModel { slug, prompt: state::prompt_of(c, slug), rankings: g.rankings@ },
                    )
                }
            },
            None => front,
        }
    }
}

/// The rankings of a scope under each of its aspects.
pub open spec fn aspects_ranked(c: ContentState, parent: Seq<char>) -> Seq<AspectModel> {
    let key = paths::normal_key(parent);
    aspect_models(
        c,
        key,
        sort::sorted_set(landing::slugs_upto(c, key, c.aspect_groups@.len() as int)),
    )
}

/// The rankings of the members of a scope under each of its aspects that has votes.
pub fn aspect_rankings_for_parent(content: &ContentState, parent: &ItemId) -> (r: Vec<
    AspectRankingView,
>)
    ensures
        state::rows(r@) == aspects_ranked(*content, parent@),
{
    let key: ItemId = parent.normalized_storage();
    let slugs: Vec<String> = sort::sort_unique(&landing::aspect_slugs(content, &key));
    let ghost sv = text::views(slugs@);
    let mut out: Vec<AspectRankingView> = Vec::new();
    let mut i: usize = 0;
    assert(state::rows(out@) =~= aspect_models(*content, key@, sv.take(0)));
    while i < slugs.len()
        invariant
            i <= slugs.len(),
            sv == text::views(slugs@),
            state::rows(out@) == aspect_models(*content, key@, sv.take(i as int)),
        decreases slugs.len() - i,
    {
        assert(sv.take(i + 1).drop_last() =~= sv.take(i as int));
        assert(sv.take(i + 1).last() == slugs@[i as int]@);
        match content.aspect_group(&key, slugs[i].as_str()) {
            Some(at) => {
                let g: &AspectGroup = &content.aspect_groups[at];
                assert(g.rankings@.components.len() == g.rankings.component_rankings@.len());
                if g.group.voted_pairs.len() > 0 && g.rankings.component_rankings.len() > 0 {
                    let prompt: Option<String> = match content.aspect_prompt(slugs[i].as_str()) {
                        Some(p) => Some(p.clone()),
                        None => None,
                    };
                    let row = AspectRankingView {
                        slug: slugs[i].clone(),
                        prompt,
                        rankings: g.rankings.copy(),
                    };
                    proof {
                        state::lemma_rows_push(out@, row);
                    }
                    out.push(row);
                }
            },
            None => {},
        }
        i = i + 1;
    }
    assert(sv.take(sv.len() as int) =~= sv);
    out
}

// ---------------------------------------------------------------------------
// Rank history
// ---------------------------------------------------------------------------

/// A vote as a post writes it.
pub struct WrittenVote {
    pub item1: String,
    pub item2: String,
    pub ratio_left: i32,
    pub ratio_right: i32,
    pub explanation: String,
}

/// The votes without an aspect that a post writes.
pub struct PostVotes {
    pub post_id: String,
    pub votes: Vec<WrittenVote>,
}

/// The posts of a table of written votes.
pub open spec fn post_vote_keys(table: Seq<PostVotes>) -> Seq<Seq<char>> {
    Seq::new(table.len(), |i: int| table[i].post_id@)
}

/// The item that a canonical text names.
pub open spec fn item_or_text(s: Seq<char>) -> Seq<char> {
    match paths::item_key(s) {
        Some(k) => k,
        None => s,
    }
}

fn item_from_text(s: &str) -> (r: ItemId)
    ensures
        r@ == item_or_text(s@),
{
    match ItemId::parse(s) {
        Some(i) => i,
        None => ItemId::opaque(s.to_owned()),
    }
}

/// Those of some written votes that touch an item, as votes of a post.
pub open spec fn causes(
    votes: Seq<WrittenVote>,
    item: Seq<char>,
    ts: int,
    principal: Seq<char>,
    delegate: Option<Seq<char>>,
    thread: Seq<char>,
) -> Seq<VoteModel>
    decreases votes.len(),
{
    if votes.len() == 0 {
        Seq::empty()
    } else {
        let front = causes(votes.drop_last(), item, ts, principal, delegate, thread);
        let v = votes.last();
        let a = paths::canonical_item(v.item1@);
        let b = paths::canonical_item(v.item2@);
        if a == item || b == item {
            front.push(
                VoteModel {
                    ts,
                    a: item_or_text(a),
                    b: item_or_text(b),
                    ratio_left: v.ratio_left as int,
                    ratio_right: v.ratio_right as int,
                    body: v.explanation@,
                    principal,
                    delegate,
                    thread_tag: thread,
                },
            )
        } else {
            front
        }
    }
}

/// A change of rank with its place in the forum and the votes that caused it.
pub struct RankHistoryEntryView {
    pub ts: i64,
    pub scope_rank: usize,
    pub scope_total: usize,
    pub scope_rank_delta: i32,
    pub thread: String,
    /// The place of the post in its thread, counted from zero.
    pub thread_post_index: usize,
    pub caused_by: Vec<VoteData>,
}

/// The mathematical value of a [`RankHistoryEntryView`].
pub struct ChangeModel {
    pub ts: int,
    pub rank: nat,
    pub total: nat,
    pub delta: int,
    pub thread: Seq<char>,
    pub post_index: int,
    pub caused_by: Seq<VoteModel>,
}

impl View for RankHistoryEntryView {
    type V = ChangeModel;

    open spec fn view(&self) -> ChangeModel {
        ChangeModel {
            ts: self.ts as int,
            rank: self.scope_rank as nat,
            total: self.scope_total as nat,
            delta: self.scope_rank_delta as int,
            thread: self.thread@,
            post_index: self.thread_post_index as int,
            caused_by: state::rows(self.caused_by@),
        }
    }
}

/// The votes of a post that touch an item; none for a post that is not there.
pub open spec fn votes_behind(s: ReducerState, table: Seq<PostVotes>, item: Seq<char>, e: HistoryModel) -> Seq<
    VoteModel,
> {
    match state::ingest_of(s, e.post_id) {
        None => Seq::empty(),
        Some(post) => match text::position(post_vote_keys(table), e.post_id) {
            None => Seq::empty(),
            Some(i) => causes(
                table[i].votes@,
                item,
                e.ts,
                post.principal,
                post.delegate,
                e.thread,
            ),
        },
    }
}

/// A change of rank as shown.
pub open spec fn change_of(
    s: ReducerState,
    scope: Option<Seq<char>>,
    table: Seq<PostVotes>,
    item: Seq<char>,
    e: HistoryModel,
) -> ChangeModel {
    ChangeModel {
        ts: e.ts,
        rank: e.rank,
        total: e.total,
        delta: e.delta,
        thread: e.thread,
        post_index: match forum::post_index(s, scope, e.thread, e.post_id) {
            Some(i) => i,
            None => 0,
        },
        caused_by: votes_behind(s, table, item, e),
    }
}

/// The changes of an item's rank as shown.
pub open spec fn changes_of(
    s: ReducerState,
    c: ContentState,
    scope: Option<Seq<char>>,
    table: Seq<PostVotes>,
    item: Seq<char>,
) -> Seq<ChangeModel> {
    let key = match paths::item_key(item) {
        Some(k) => paths::leaf_key(k),
        None => item,
    };
    let entries = state::history_of(c, key);
    Seq::new(entries.len(), |i: int| change_of(s, scope, table, item, entries[i]))
}

fn find_causes(votes: &Vec<WrittenVote>, item: &str, ts: i64, post: &state::Ingest, thread: &str) -> (r:
    Vec<VoteData>)
    ensures
        state::rows(r@) == causes(
            votes@,
            item@,
            ts as int,
            post@.principal,
            post@.delegate,
            thread@,
        ),
{
    let ghost pp = post@.principal;
    let ghost pd = post@.delegate;
    let mut out: Vec<VoteData> = Vec::new();
    let mut i: usize = 0;
    assert(state::rows(out@) =~= causes(votes@.take(0), item@, ts as int, pp, pd, thread@));
    while i < votes.len()
        invariant
            i <= votes.len(),
            pp == post@.principal,
            pd == post@.delegate,
            state::rows(out@) == causes(
                votes@.take(i as int),
                item@,
                ts as int,
                pp,
                pd,
                thread@,
            ),
        decreases votes.len() - i,
    {
        assert(votes@.take(i + 1).drop_last() =~= votes@.take(i as int));
        let v: &WrittenVote = &votes[i];
        assert(votes@.take(i + 1).last() == *v);
        let a: String = paths::canonicalize_item(v.item1.as_str());
        let b: String = paths::canonicalize_item(v.item2.as_str());
        if text::same(a.as_str(), item) || text::same(b.as_str(), item) {
            let row = VoteData {
                ts,
                a: item_from_text(a.as_str()),
                b: item_from_text(b.as_str()),
                ratio_left: v.ratio_left,
                ratio_right: v.ratio_right,
                body: v.explanation.clone(),
                principal: post.principal.clone(),
                delegate: state::copy_opt(&post.delegate),
                thread_tag: thread.to_owned(),
            };
            proof {
                state::lemma_rows_push(out@, row);
            }
            out.push(row);
        }
        i = i + 1;
    }
    assert(votes@.take(votes@.len() as int) =~= votes@);
    out
}

fn find_post_votes(table: &Vec<PostVotes>, id: &str) -> (r: Option<usize>)
    ensures
        match r {
            Some(i) => text::position(post_vote_keys(table@), id@) == Some(i as int) && i
                < table@.len(),
            None => text::position(post_vote_keys(table@), id@) is None,
        },
{
    let ghost keys = post_vote_keys(table@);
    let mut i: usize = 0;
    while i < table.len()
        invariant
            i <= table.len(),
            keys == post_vote_keys(table@),
            text::position(keys.take(i as int), id@) is None,
        decreases table.len() - i,
    {
        assert(keys[i as int] == table@[i as int].post_id@);
        assert(keys.take(i + 1).drop_last() =~= keys.take(i as int));
        if text::same(table[i].post_id.as_str(), id) {
            assert(text::position(keys.take(i + 1), id@) == Some(i as int));
            proof {
                text::lemma_position_prefix(keys, id@, i + 1);
            }
            return Some(i);
        }
        i = i + 1;
    }
    assert(keys.take(keys.len() as int) =~= keys);
    None
}

fn view_change(
    reduced: &ReducerState,
    scope: &ScopeId,
    table: &Vec<PostVotes>,
    item: &str,
    e: &RankHistoryEntry,
) -> (r: RankHistoryEntryView)
    ensures
        r@ == change_of(*reduced, scope@, table@, item@, e@),
{
    let mut caused_by: Vec<VoteData> = Vec::new();
    assert(state::rows(caused_by@) =~= Seq::empty());
    match reduced.find_ingest(e.post_id.as_str()) {
        Some(p) => {
            match find_post_votes(table, e.post_id.as_str()) {
                Some(i) => {
                    caused_by = find_causes(
                        &table[i].votes,
                        item,
                        e.ts,
                        &reduced.ingests[p],
                        e.thread.as_str(),
                    );
                },
                None => {},
            }
        },
        None => {},
    }
    let thread_post_index: usize = match forum::try_thread_post_index_chronological(
        reduced,
        scope,
        e.thread.as_str(),
        e.post_id.as_str(),
    ) {
        Some(i) => i,
        None => 0,
    };
    RankHistoryEntryView {
        ts: e.ts,
        scope_rank: e.scope_rank,
        scope_total: e.scope_total,
        scope_rank_delta: e.scope_rank_delta,
        thread: e.thread.clone(),
        thread_post_index,
        caused_by,
    }
}

fn find_history(content: &ContentState, key: &ItemId) -> (r: Option<usize>)
    ensures
        match r {
            Some(i) => text::position(state::history_keys(*content), key@) == Some(i as int) && i
                < content.rank_history@.len(),
            None => text::position(state::history_keys(*content), key@) is None,
        },
{
    let ghost keys = state::history_keys(*content);
    let mut i: usize = 0;
    while i < content.rank_history.len()
        invariant
            i <= content.rank_history.len(),
            keys == state::history_keys(*content),
            text::position(keys.take(i as int), key@) is None,
        decreases content.rank_history.len() - i,
    {
        assert(keys[i as int] == content.rank_history@[i as int].item@);
        assert(keys.take(i + 1).drop_last() =~= keys.take(i as int));
        if content.rank_history[i].item.same(key) {
            assert(text::position(keys.take(i + 1), key@) == Some(i as int));
            proof {
                text::lemma_position_prefix(keys, key@, i + 1);
            }
            return Some(i);
        }
        i = i + 1;
    }
    assert(keys.take(keys.len() as int) =~= keys);
    None
}

/// The changes of an item's rank as shown. `table` holds the votes that the posts write.
pub fn build_rank_history(
    reduced: &ReducerState,
    content: &ContentState,
    scope: &ScopeId,
    table: &Vec<PostVotes>,
    item: &str,
) -> (r: Vec<RankHistoryEntryView>)
    ensures
        state::rows(r@) == changes_of(*reduced, *content, scope@, table@, item@),
{
    let key: ItemId = match ItemId::parse(item) {
        Some(i) => i.ontology_leaf(),
        None => ItemId::opaque(item.to_owned()),
    };
    let mut out: Vec<RankHistoryEntryView> = Vec::new();
    let ghost want = changes_of(*reduced, *content, scope@, table@, item@);
    match find_history(content, &key) {
        None => {
            assert(state::rows(out@) =~= want);
        },
        Some(h) => {
            let entries: &Vec<RankHistoryEntry> = &content.rank_history[h].entries;
            let ghost ev = state::rows(entries@);
            assert(ev == state::history_of(*content, key@));
            let mut i: usize = 0;
            while i < entries.len()
                invariant
                    i <= entries.len(),
                    out.len() == i,
                    ev == state::rows(entries@),
                    forall|j: int|
                        0 <= j < i ==> (#[trigger] out@[j])@ == change_of(
                            *reduced,
                            scope@,
                            table@,
                            item@,
                            ev[j],
                        ),
                decreases entries.len() - i,
            {
                assert(ev[i as int] == entries@[i as int]@);
                out.push(view_change(reduced, scope, table, item, &entries[i]));
                i = i + 1;
            }
            assert(state::rows(out@) =~= want);
        },
    }
    out
}

/// A written vote as one behind a change of rank: its ends, its ratio and its reason as written,
/// with a time, an author and a thread.
pub open spec fn as_vote(
    v: WrittenVote,
    ts: int,
    principal: Seq<char>,
    delegate: Option<Seq<char>>,
    thread: Seq<char>,
) -> VoteModel {
    VoteModel {
        ts,
        a: item_or_text(paths::canonical_item(v.item1@)),
        b: item_or_text(paths::canonical_item(v.item2@)),
        ratio_left: v.ratio_left as int,
        ratio_right: v.ratio_right as int,
        body: v.explanation@,
        principal,
        delegate,
        thread_tag: thread,
    }
}

proof fn lemma_causes(
    votes: Seq<WrittenVote>,
    item: Seq<char>,
    ts: int,
    principal: Seq<char>,
    delegate: Option<Seq<char>>,
    thread: Seq<char>,
)
    ensures
        causes(votes, item, ts, principal, delegate, thread) == votes.filter(
            |v: WrittenVote|
                paths::canonical_item(v.item1@) == item || paths::canonical_item(v.item2@) == item,
        ).map_values(|v: WrittenVote| as_vote(v, ts, principal, delegate, thread)),
    decreases votes.len(),
{
    reveal(Seq::filter);
    let f = |v: WrittenVote|
        paths::canonical_item(v.item1@) == item || paths::canonical_item(v.item2@) == item;
    let g = |v: WrittenVote| as_vote(v, ts, principal, delegate, thread);
    if votes.len() > 0 {
        lemma_causes(votes.drop_last(), item, ts, principal, delegate, thread);
        let front = votes.drop_last().filter(f);
        assert(front.push(votes.last()).map_values(g) =~= front.map_values(g).push(
            g(votes.last()),
        ));
    }
    assert(causes(votes, item, ts, principal, delegate, thread) =~= votes.filter(f).map_values(g));
}

/// The votes behind a change of rank are those of the post's votes in which the item is the
/// first end or the second, in the order in which the post writes them, each with its ends, its
/// ratio and its reason as written, the time and the thread of the change, and the author of the
/// post. A post that is not there, or that has no votes in the table, is behind nothing.
#[verifier::rlimit(50)]
pub proof fn law_votes_behind_a_change(
    s: ReducerState,
    scope: Option<Seq<char>>,
    table: Seq<PostVotes>,
    item: Seq<char>,
    e: HistoryModel,
)
    ensures
        state::ingest_of(s, e.post_id) is None ==> change_of(s, scope, table, item, e).caused_by
            == Seq::<VoteModel>::empty(),
        (forall|k: int| 0 <= k < table.len() ==> (#[trigger] table[k]).post_id@ != e.post_id)
            ==> change_of(s, scope, table, item, e).caused_by == Seq::<VoteModel>::empty(),
        forall|row: int|
            #![trigger table[row]]
            0 <= row < table.len() && table[row].post_id@ == e.post_id && (forall|k: int|
                0 <= k < row ==> (#[trigger] table[k]).post_id@ != e.post_id) ==> match state::ingest_of(
                s,
                e.post_id,
            ) {
                Some(post) => change_of(s, scope, table, item, e).caused_by
                    == table[row].votes@.filter(
                    |v: WrittenVote|
                        paths::canonical_item(v.item1@) == item || paths::canonical_item(v.item2@)
                            == item,
                ).map_values(
                    |v: WrittenVote|
                        VoteModel {
                            ts: e.ts,
                            a: item_or_text(paths::canonical_item(v.item1@)),
                            b: item_or_text(paths::canonical_item(v.item2@)),
                            ratio_left: v.ratio_left as int,
                            ratio_right: v.ratio_right as int,
                            body: v.explanation@,
                            principal: post.principal,
                            delegate: post.delegate,
                            thread_tag: e.thread,
                        },
                ),
                None => true,
            },
{
    let keys = post_vote_keys(table);
    text::lemma_position(keys, e.post_id);
    if forall|k: int| 0 <= k < table.len() ==> (#[trigger] table[k]).post_id@ != e.post_id {
        match text::position(keys, e.post_id) {
            Some(k) => {
                assert(keys[k] == table[k].post_id@);
            },
            None => {},
        }
    }
    assert forall|row: int|
        #![trigger table[row]]
        0 <= row < table.len() && table[row].post_id@ == e.post_id && (forall|k: int|
            0 <= k < row ==> (#[trigger] table[k]).post_id@ != e.post_id) implies match state::ingest_of(
        s,
        e.post_id,
    ) {
        Some(post) => change_of(s, scope, table, item, e).caused_by == table[row].votes@.filter(
            |v: WrittenVote|
                paths::canonical_item(v.item1@) == item || paths::canonical_item(v.item2@) == item,
        ).map_values(
            |v: WrittenVote|
                VoteModel {
                    ts: e.ts,
                    a: item_or_text(paths::canonical_item(v.item1@)),
                    b: item_or_text(paths::canonical_item(v.item2@)),
                    ratio_left: v.ratio_left as int,
                    ratio_right: v.ratio_right as int,
                    body: v.explanation@,
                    principal: post.principal,
                    delegate: post.delegate,
                    thread_tag: e.thread,
                },
        ),
        None => true,
    } by {
        assert(keys[row] == e.post_id);
        let k = text::position(keys, e.post_id).unwrap();
        if k < row {
            assert(table[k].post_id@ == keys[k]);
        }
        assert(k == row);
        match state::ingest_of(s, e.post_id) {
            Some(post) => {
                let votes = table[row].votes@;
                lemma_causes(votes, item, e.ts, post.principal, post.delegate, e.thread);
                let f = |v: WrittenVote|
                    paths::canonical_item(v.item1@) == item || paths::canonical_item(v.item2@)
                        == item;
                let g = |v: WrittenVote|
                    VoteModel {
                        ts: e.ts,
                        a: item_or_text(paths::canonical_item(v.item1@)),
                        b: item_or_text(paths::canonical_item(v.item2@)),
                        ratio_left: v.ratio_left as int,
                        ratio_right: v.ratio_right as int,
                        body: v.explanation@,
                        principal: post.principal,
                        delegate: post.delegate,
                        thread_tag: e.thread,
                    };
                let h = |v: WrittenVote|
                    as_vote(v, e.ts, post.principal, post.delegate, e.thread);
                assert(votes.filter(f).map_values(h) =~= votes.filter(f).map_values(g));
            },
            None => {},
        }
    }
}

/// Whether a vote is behind a change of rank does not depend on which of its ends is written
/// first.
pub proof fn law_causes_have_no_direction(
    v: WrittenVote,
    w: WrittenVote,
    item: Seq<char>,
    ts: int,
    principal: Seq<char>,
    delegate: Option<Seq<char>>,
    thread: Seq<char>,
)
    requires
        w.item1@ == v.item2@,
        w.item2@ == v.item1@,
    ensures
        causes(seq![v], item, ts, principal, delegate, thread).len() == causes(
            seq![w],
            item,
            ts,
            principal,
            delegate,
            thread,
        ).len(),
        paths::canonical_item(v.item1@) == item ==> causes(
            seq![v],
            item,
            ts,
            principal,
            delegate,
            thread,
        ).len() == 1,
{
    assert(seq![v].drop_last() =~= Seq::empty());
    assert(seq![w].drop_last() =~= Seq::empty());
    assert(seq![v].last() == v && seq![w].last() == w);
    let none = Seq::<WrittenVote>::empty();
    assert(causes(none, item, ts, principal, delegate, thread).len() == 0);
    assert(causes(seq![v].drop_last(), item, ts, principal, delegate, thread).len() == 0);
    assert(causes(seq![w].drop_last(), item, ts, principal, delegate, thread).len() == 0);
}

/// The history of an item shows one change for each entry that was recorded of it, in the order
/// of the entries and with their numbers.
pub proof fn law_history_shows_every_entry(
    s: ReducerState,
    c: ContentState,
    scope: Option<Seq<char>>,
    table: Seq<PostVotes>,
    item: Seq<char>,
    h: int,
    k: int,
)
    requires
        c.wf(),
        0 <= h < c.rank_history@.len(),
        c.rank_history@[h].item@ == match paths::item_key(item) {
            Some(key) => paths::leaf_key(key),
            None => item,
        },
        0 <= k < c.rank_history@[h].entries@.len(),
    ensures
        changes_of(s, c, scope, table, item).len() == c.rank_history@[h].entries@.len(),
        ({
            let e = c.rank_history@[h].entries@[k];
            let r = changes_of(s, c, scope, table, item)[k];
            &&& r.ts == e.ts
            &&& r.rank == e.scope_rank
            &&& r.total == e.scope_total
            &&& r.delta == e.scope_rank_delta
            &&& r.thread == e.thread@
            &&& r.caused_by == votes_behind(s, table, item, e@)
        }),
{
    let keys = state::history_keys(c);
    let key = match paths::item_key(item) {
        Some(key) => paths::leaf_key(key),
        None => item,
    };
    text::lemma_position(keys, key);
    assert(keys[h] == key);
    assert(text::position(keys, key) == Some(h));
}

// ---------------------------------------------------------------------------
// The page
// ---------------------------------------------------------------------------

/// What the page of an item shows.
pub struct ItemPageViewModel {
    pub item: String,
    pub body: Option<String>,
    /// The siblings in the primary scope.
    pub sibling_nav: Option<SiblingNavBar>,
    /// The siblings in each scope that has others, the primary scope first.
    pub sibling_navs: Vec<ScopedSiblingNav>,
    /// Whether the item belongs to some scope.
    pub item_has_parent: bool,
    /// The scopes of the item, the strongest first.
    pub scopes: Vec<ItemId>,
    /// The scopes other than the strongest.
    pub alternate_scopes: Vec<ItemId>,
    /// Whether the item has members.
    pub is_scope: bool,
    pub crumb_chain: Vec<ItemId>,
    pub memberships: Vec<BorderPairState>,
    pub suspended_borders: Vec<BorderPairState>,
    pub fallen_journal: Vec<FallenBorderEntry>,
    pub child_rankings: ChildrenRankings,
    pub aspect_rankings: Vec<AspectRankingView>,
    pub child_depth: usize,
    pub rank_history: Vec<RankHistoryEntryView>,
    /// The threads that mention the item.
    pub threads: Vec<String>,
}

/// The key of the item that a page is about: the last segment in the ontology, or the root
/// where the text names no item.
pub open spec fn page_key(item: Seq<char>) -> Seq<char> {
    paths::normal_key(
        match paths::item_key(item) {
            Some(k) => paths::leaf_key(k),
            None => paths::root_key(),
        },
    )
}

/// What scopes are ordered by: the primary one first, then the key.
pub open spec fn scope_order_keys(scopes: Seq<Seq<char>>, primary: Option<Seq<char>>) -> Seq<Key> {
    Seq::new(
        scopes.len(),
        |i: int|
            Key {
                major: if Some(scopes[i]) == primary {
                    0
                } else {
                    1
                },
                minor: 0,
                text: scopes[i],
            },
    )
}

/// The scopes of an item, the strongest first.
pub open spec fn ordered_scopes(c: ContentState, key: Seq<char>) -> Seq<Seq<char>> {
    let scopes = state::scopes_of(c, key);
    sort::pick(scopes, sort::stable_order(scope_order_keys(scopes, strongest(c, key))))
}

/// The body of an item: in the scope, or else in public.
pub open spec fn body_or_public(s: ReducerState, c: ContentState, key: Seq<char>) -> Option<Seq<char>> {
    match state::body_of(c, key) {
        Some(b) => Some(b),
        None => state::body_of(s.public_content, key),
    }
}

/// The scopes of an item, the strongest first.
pub fn scopes_primary_first(content: &ContentState, key: &ItemId) -> (r: Vec<ItemId>)
    ensures
        paths::keys(r@) == ordered_scopes(*content, key@),
{
    let primary: Option<ItemId> = strongest_parent(content, key);
    let ghost pv = votes::opt_item(primary);
    let scopes: Vec<ItemId> = content.scopes_of(key);
    let ghost sk = paths::keys(scopes@);
    let ghost want = scope_order_keys(sk, pv);
    let mut keys: Vec<SortKey> = Vec::new();
    let mut i: usize = 0;
    while i < scopes.len()
        invariant
            i <= scopes.len(),
            keys.len() == i,
            sk == paths::keys(scopes@),
            pv == votes::opt_item(primary),
            want == scope_order_keys(sk, pv),
            forall|j: int| 0 <= j < i ==> (#[trigger] keys@[j])@ == want[j],
        decreases scopes.len() - i,
    {
        assert(sk[i as int] == scopes@[i as int]@);
        let first: bool = match &primary {
            Some(p) => p.same(&scopes[i]),
            None => false,
        };
        let key = SortKey {
            major: if first {
                0
            } else {
                1
            },
            minor: 0,
            text: scopes[i].to_storage_string(),
        };
        keys.push(key);
        i = i + 1;
    }
    assert(sort::key_views(keys@) =~= want);
    let order: Vec<usize> = sort::order_by(&keys);
    let mut r: Vec<ItemId> = Vec::new();
    let mut k: usize = 0;
    while k < order.len()
        invariant
            k <= order.len(),
            r.len() == k,
            forall|j: int| 0 <= j < order@.len() ==> (#[trigger] order@[j]) < scopes@.len(),
            forall|j: int| 0 <= j < k ==> (#[trigger] r@[j])@ == scopes@[order@[j] as int]@,
        decreases order.len() - k,
    {
        r.push(scopes[order[k]].copy());
        k = k + 1;
    }
    proof {
        let o = sort::ints(order@);
        assert forall|j: int| 0 <= j < r@.len() implies #[trigger] paths::keys(r@)[j]
            == sort::pick(sk, o)[j] by {
            assert(r@[j]@ == scopes@[order@[j] as int]@);
            assert(o[j] == order@[j] as int);
        }
        assert(paths::keys(r@) =~= sort::pick(sk, o));
    }
    r
}

/// What stands behind the first of a list.
pub open spec fn behind_first(v: Seq<Seq<char>>) -> Seq<Seq<char>> {
    if v.len() == 0 {
        v
    } else {
        v.skip(1)
    }
}

fn items_behind_first(v: &Vec<ItemId>) -> (r: Vec<ItemId>)
    ensures
        paths::keys(r@) == behind_first(paths::keys(v@)),
{
    let mut r: Vec<ItemId> = Vec::new();
    let mut i: usize = 1;
    while i < v.len()
        invariant
            1 <= i,
            v.len() > 0 ==> i <= v.len(),
            v.len() == 0 ==> i == 1,
            r.len() == i - 1,
            forall|j: int| 0 <= j < r.len() ==> (#[trigger] r@[j])@ == v@[j + 1]@,
        decreases v.len() - i,
    {
        r.push(v[i].copy());
        i = i + 1;
    }
    assert(paths::keys(r@) =~= behind_first(paths::keys(v@)));
    r
}

/// What the page of an item shows. `deep` is the ranking of the descendants down to the depth
/// asked for, which is shown where that is more than one; `table` holds the votes that the
/// posts write.
pub fn build_item_page_view_model(
    reduced: &ReducerState,
    scope: &ScopeId,
    item: &str,
    child_depth: usize,
    deep: &ChildrenRankings,
    table: &Vec<PostVotes>,
) -> (r: ItemPageViewModel)
    requires
        state::content_of(*reduced, scope@) is Some,
    ensures
        ({
            let c = state::content_of(*reduced, scope@).unwrap();
            let key = page_key(item@);
            let scopes = ordered_scopes(c, key);
            &&& r.item@ == key
            &&& text::opt_view(r.body) == body_or_public(*reduced, c, key)
            &&& paths::keys(r.scopes@) == scopes
            &&& r.item_has_parent == (scopes.len() > 0)
            &&& paths::keys(r.alternate_scopes@) == behind_first(scopes)
            &&& opt_bar(r.sibling_nav) == if scopes.len() > 0 {
                sibling_bar(
                    state::rankings_of(c, paths::normal_key(scopes[0])),
                    paths::leaf_key(paths::normal_key(key)),
                )
            } else {
                None
            }
            &&& state::rows(r.sibling_navs@) == sibling_bars(
                c,
                paths::leaf_key(paths::normal_key(key)),
                scopes,
            )
            &&& r.is_scope == (state::members_of(c, key).len() > 0)
            &&& paths::keys(r.crumb_chain@) == crumbs(c, key)
            &&& state::rows(r.memberships@) == with_status(
                child_borders(c, key),
                MembershipStatus::Active,
            )
            &&& state::rows(r.suspended_borders@) == with_status(
                child_borders(c, key),
                MembershipStatus::Suspended,
            )
            &&& state::rows(r.fallen_journal@) == fallen_upto(
                c,
                key,
                c.fallen_borders@.len() as int,
            )
            &&& r.child_depth == if child_depth > 1 {
                child_depth
            } else {
                1
            }
            &&& r.child_rankings@ == if child_depth > 1 {
                deep@
            } else {
                state::rankings_of(c, key)
            }
            &&& state::rows(r.aspect_rankings@) == aspects_ranked(c, key)
            &&& state::rows(r.rank_history@) == changes_of(*reduced, c, scope@, table@, key)
            &&& text::views(r.threads@) == sort::sorted_texts(state::threads_of(c, key))
        }),
{
    let content: &ContentState = garden::content_for_garden_view(reduced, scope);
    let key: ItemId = match ItemId::parse(item) {
        Some(i) => i.ontology_leaf().normalized_storage(),
        None => ItemId::ontology_root().normalized_storage(),
    };
    let members: Vec<ItemId> = content.members_of(&key);
    assert(paths::keys(members@).len() == members@.len());
    let scopes: Vec<ItemId> = scopes_primary_first(content, &key);
    assert(paths::keys(scopes@).len() == scopes@.len());
    let sibling_nav: Option<SiblingNavBar> = if scopes.len() > 0 {
        assert(paths::keys(scopes@)[0] == scopes@[0]@);
        build_sibling_nav_in_scope(
            content,
            &key.normalized_storage().ontology_leaf(),
            &scopes[0].normalized_storage(),
        )
    } else {
        None
    };
    let pairs: Vec<BorderPairState> = child_border_pairs(content, &key);
    let body: Option<String> = match content.body(&key) {
        Some(b) => Some(b.clone()),
        None => match reduced.public().body(&key) {
            Some(b) => Some(b.clone()),
            None => None,
        },
    };
    let child_rankings: ChildrenRankings = if child_depth > 1 {
        deep.copy()
    } else {
        content.children_rankings(&key)
    };
    let sibling_navs: Vec<ScopedSiblingNav> = build_sibling_navs(content, &key, &scopes);
    let alternate_scopes: Vec<ItemId> = items_behind_first(&scopes);
    ItemPageViewModel {
        item: key.to_storage_string(),
        body,
        sibling_nav,
        sibling_navs,
        item_has_parent: scopes.len() > 0,
        scopes,
        alternate_scopes,
        is_scope: members.len() > 0,
        crumb_chain: containment_crumb_chain(content, &key),
        memberships: borders_with_status(&pairs, MembershipStatus::Active),
        suspended_borders: borders_with_status(&pairs, MembershipStatus::Suspended),
        fallen_journal: fallen_for_item(content, &key),
        child_rankings,
        aspect_rankings: aspect_rankings_for_parent(content, &key),
        child_depth: if child_depth > 1 {
            child_depth
        } else {
            1
        },
        rank_history: build_rank_history(reduced, content, scope, table, key.as_str()),
        threads: sort::sort_texts(&content.threads(&key)),
    }
}

/// The strongest scope of an item stands first among its scopes.
pub proof fn law_strongest_scope_is_first(c: ContentState, key: Seq<char>)
    requires
        paths::leaf_key(key) == key,
        state::scopes_of(c, key).len() > 0,
    ensures
        ordered_scopes(c, key).len() > 0,
        strongest(c, key) == Some(ordered_scopes(c, key)[0]),
{
    let scopes = state::scopes_of(c, key);
    let primary = strongest(c, key);
    let keys = scope_order_keys(scopes, primary);
    let order = sort::stable_order(keys);
    law_strongest_parent(c, key);
    sort::lemma_stable_order(keys);
    let m = choose|m: int| 0 <= m < scopes.len() && scopes[m] == primary.unwrap();
    sort::lemma_permutation_covers(order, scopes.len() as int, m);
    let i = choose|i: int| 0 <= i < order.len() && order[i] == m;
    assert(0 <= order[0] < scopes.len());
    if i > 0 {
        assert(sort::key_lt(keys[order[0]], keys[order[i]]) || !sort::key_lt(
            keys[order[i]],
            keys[order[0]],
        ));
        assert(keys[order[i]].major == 0);
        assert(keys[order[0]].major == 0);
    }
}

// ---------------------------------------------------------------------------
// What the page is made of
// ---------------------------------------------------------------------------

/// The weight by which parents are told apart is that of the claims for the membership, and
/// nothing where nobody claimed it.
pub proof fn law_containment_weight(c: ContentState, i: int, item: Seq<char>, parent: Seq<char>)
    requires
        c.wf(),
    ensures
        0 <= i < c.borders@.len() ==> containment_weight(
            c,
            c.borders@[i].child@,
            c.borders@[i].parent@,
        ) == c.borders@[i].containment_weight,
        (forall|k: int|
            0 <= k < c.borders@.len() ==> !((#[trigger] c.borders@[k]).child@ == item
                && c.borders@[k].parent@ == parent)) ==> containment_weight(c, item, parent) == 0,
{
    if 0 <= i < c.borders@.len() {
        state::law_pairs_are_found_by_both_names(c, c.borders@[i].child@, c.borders@[i].parent@, i);
    }
    let ks = state::border_keys(c);
    text::lemma_position(ks, (item, parent));
    match text::position(ks, (item, parent)) {
        Some(k) => {
            assert(ks[k] == (c.borders@[k].child@, c.borders@[k].parent@));
        },
        None => {},
    }
}

proof fn lemma_borders_of_child(c: ContentState, child: Seq<char>, n: int, b: BorderModel)
    requires
        0 <= n <= c.borders@.len(),
    ensures
        borders_of_child(c, child, n).contains(b) <==> exists|k: int|
            0 <= k < n && (#[trigger] c.borders@[k])@ == b && c.borders@[k].child@ == child,
    decreases n,
{
    if n > 0 {
        lemma_borders_of_child(c, child, n - 1, b);
        let front = borders_of_child(c, child, n - 1);
        let all = borders_of_child(c, child, n);
        if all.contains(b) {
            let k = choose|k: int| 0 <= k < all.len() && all[k] == b;
            if k < front.len() {
                assert(front[k] == b);
                assert(front.contains(b));
            } else {
                assert(c.borders@[n - 1]@ == b);
            }
        }
        if front.contains(b) {
            let k = choose|k: int| 0 <= k < front.len() && front[k] == b;
            assert(all[k] == b);
        }
        if c.borders@[n - 1].child@ == child {
            assert(all[all.len() - 1] == c.borders@[n - 1]@);
        }
    }
}

/// The memberships of an item are the claims whose child it is, the heaviest first, and of those
/// as heavy the smaller parent.
pub proof fn law_memberships(c: ContentState, item: Seq<char>, b: BorderModel)
    ensures
        child_borders(c, item).contains(b) <==> exists|k: int|
            0 <= k < c.borders@.len() && (#[trigger] c.borders@[k])@ == b && c.borders@[k].child@
                == paths::leaf_key(item),
        forall|i: int, j: int|
            0 <= i < j < child_borders(c, item).len() ==> {
                let x = #[trigger] child_borders(c, item)[i];
                let y = #[trigger] child_borders(c, item)[j];
                x.containment > y.containment || (x.containment == y.containment && !text::text_lt(
                    y.parent,
                    x.parent,
                ))
            },
{
    let n = c.borders@.len() as int;
    let rows = borders_of_child(c, paths::leaf_key(item), n);
    let keys = parent_keys(rows);
    lemma_borders_of_child(c, paths::leaf_key(item), n, b);
    sort::lemma_sorted_rows(rows, keys);
    let o = sort::stable_order(keys);
    let r = child_borders(c, item);
    assert forall|i: int, j: int| 0 <= i < j < r.len() implies {
        let x = #[trigger] r[i];
        let y = #[trigger] r[j];
        x.containment > y.containment || (x.containment == y.containment && !text::text_lt(
            y.parent,
            x.parent,
        ))
    } by {
        assert(!sort::key_lt(keys[o[j]], keys[o[i]]));
    }
}

/// The claims of a status are all those that have it, in their order.
pub proof fn law_claims_by_status(rows: Seq<BorderModel>, status: MembershipStatus)
    ensures
        with_status(rows, status) == rows.filter(|b: BorderModel| b.status == status),
    decreases rows.len(),
{
    reveal(Seq::filter);
    if rows.len() > 0 {
        law_claims_by_status(rows.drop_last(), status);
    }
    assert(with_status(rows, status) =~= rows.filter(|b: BorderModel| b.status == status));
}

/// The journal of an item has the fallen borders that name it as child or as parent, in order.
pub proof fn law_journal(c: ContentState, item: Seq<char>, n: int)
    requires
        0 <= n <= c.fallen_borders@.len(),
    ensures
        fallen_upto(c, item, n) == state::rows(c.fallen_borders@).take(n).filter(
            |e: FallenModel| e.child == item || e.parent == item,
        ),
    decreases n,
{
    reveal(Seq::filter);
    let all = state::rows(c.fallen_borders@);
    if n > 0 {
        law_journal(c, item, n - 1);
        assert(all.take(n).drop_last() =~= all.take(n - 1));
        assert(all.take(n).last() == c.fallen_borders@[n - 1]@);
    }
    assert(fallen_upto(c, item, n) =~= all.take(n).filter(
        |e: FallenModel| e.child == item || e.parent == item,
    ));
}

/// How an ordinal number ends.
pub proof fn law_ordinals(k: int)
    requires
        0 <= k,
    ensures
        ordinal_ending(100 * k + 11) == "th"@ && ordinal_ending(100 * k + 12) == "th"@
            && ordinal_ending(100 * k + 13) == "th"@,
        (10 * k + 1) % 100 != 11 ==> ordinal_ending(10 * k + 1) == "st"@,
        (10 * k + 2) % 100 != 12 ==> ordinal_ending(10 * k + 2) == "nd"@,
        (10 * k + 3) % 100 != 13 ==> ordinal_ending(10 * k + 3) == "rd"@,
        ordinal_ending(10 * k) == "th"@ && ordinal_ending(10 * k + 4) == "th"@ && ordinal_ending(
            10 * k + 9,
        ) == "th"@,
{
}

/// The first of some items leaves all others behind: its percentile is their part in a hundred,
/// rounded down.
pub proof fn law_percentile_of_the_first(n: int)
    ensures
        n < 2 ==> winner_percentile(n) is None,
        n >= 2 ==> winner_percentile(n) is Some && n * winner_percentile(n).unwrap() <= 100 * (n - 1)
            < n * (winner_percentile(n).unwrap() + 1),
{
    if n >= 2 {
        let p = (n - 1) * 100 / n;
        assert(n * p <= (n - 1) * 100 < n * (p + 1)) by (nonlinear_arith)
            requires
                n >= 2,
                p == (n - 1) * 100 / n,
        ;
    }
}

/// A text of small letters, digits and underscores is its own fragment; capitals become small,
/// and a run of anything else between them becomes one hyphen.
#[verifier::rlimit(50)]
pub proof fn law_fragments(a: Seq<char>, gap: Seq<char>, b: Seq<char>)
    requires
        a.len() > 0,
        b.len() > 0,
        gap.len() > 0,
        forall|i: int| 0 <= i < a.len() ==> is_word_char(#[trigger] a[i]),
        forall|i: int| 0 <= i < b.len() ==> is_word_char(#[trigger] b[i]),
        forall|i: int|
            0 <= i < gap.len() ==> !is_word_char(#[trigger] gap[i]) && gap[i] != '-',
    ensures
        fragment_of(a) == text::lower_ascii(a),
        fragment_of(a + gap + b) == text::lower_ascii(a) + seq!['-'] + text::lower_ascii(b),
{
    let none = Seq::<char>::empty();
    assert(folded(none) == none);
    lemma_folded_word(none, a);
    assert(none + a =~= a);
    assert(none + text::lower_ascii(a) =~= text::lower_ascii(a));
    let la = text::lower_ascii(a);
    let lb = text::lower_ascii(b);
    lemma_lower_word(a[0]);
    lemma_lower_word(a.last());
    lemma_lower_word(b.last());
    assert(la[0] != '-' && la.last() != '-' && lb.last() != '-');
    lemma_folded_gap(a, gap);
    lemma_folded_word(a + gap, b);
    let whole = la.push('-') + lb;
    assert(folded(a + gap + b) == whole);
    assert(whole =~= la + seq!['-'] + lb);
    assert(whole[0] == la[0] && whole.last() == lb.last());
}

/// Letters, digits and underscores of ASCII.
pub open spec fn is_word_char(c: char) -> bool {
    'a' <= c <= 'z' || 'A' <= c <= 'Z' || '0' <= c <= '9' || c == '_'
}

proof fn lemma_lower_word(c: char)
    requires
        is_word_char(c),
    ensures
        text::lower(c) != '-',
{
}

proof fn lemma_folded_word(s: Seq<char>, w: Seq<char>)
    requires
        forall|i: int| 0 <= i < w.len() ==> is_word_char(#[trigger] w[i]),
    ensures
        folded(s + w) == folded(s) + text::lower_ascii(w),
    decreases w.len(),
{
    if w.len() == 0 {
        assert(s + w =~= s);
        assert(folded(s) + text::lower_ascii(w) =~= folded(s));
    } else {
        assert((s + w).drop_last() =~= s + w.drop_last());
        assert((s + w).last() == w.last());
        assert forall|i: int| 0 <= i < w.drop_last().len() implies is_word_char(
            #[trigger] w.drop_last()[i],
        ) by {
            assert(is_word_char(w[i]));
        }
        lemma_folded_word(s, w.drop_last());
        assert(is_word_char(w[w.len() - 1]));
        assert(folded(s + w) =~= folded(s) + text::lower_ascii(w));
    }
}

proof fn lemma_folded_gap(a: Seq<char>, gap: Seq<char>)
    requires
        a.len() > 0,
        gap.len() > 0,
        forall|i: int| 0 <= i < a.len() ==> is_word_char(#[trigger] a[i]),
        forall|i: int| 0 <= i < gap.len() ==> !is_word_char(#[trigger] gap[i]) && gap[i] != '-',
    ensures
        folded(a + gap) == text::lower_ascii(a).push('-'),
    decreases gap.len(),
{
    let none = Seq::<char>::empty();
    assert(folded(none) == none);
    lemma_folded_word(none, a);
    assert(none + a =~= a);
    assert(none + text::lower_ascii(a) =~= text::lower_ascii(a));
    assert((a + gap).drop_last() =~= a + gap.drop_last());
    assert((a + gap).last() == gap.last());
    assert(!is_word_char(gap[gap.len() - 1]) && gap[gap.len() - 1] != '-');
    if gap.len() == 1 {
        assert(a + gap.drop_last() =~= a);
        lemma_lower_word(a.last());
        assert(is_word_char(a[a.len() - 1]));
        assert(folded(a).last() != '-');
    } else {
        assert forall|i: int| 0 <= i < gap.drop_last().len() implies !is_word_char(
            #[trigger] gap.drop_last()[i],
        ) && gap.drop_last()[i] != '-' by {
            assert(!is_word_char(gap[i]) && gap[i] != '-');
        }
        lemma_folded_gap(a, gap.drop_last());
    }
}

/// The groups of siblings are the components in their order, each with its items in the order of
/// their rank, and then every item without votes by itself; a component without items is left
/// out.
pub proof fn law_sibling_groups(
    components: Seq<state::ComponentModel>,
    c: state::ComponentModel,
    items: Seq<Seq<char>>,
    i: int,
)
    ensures
        component_groups(Seq::empty()).len() == 0,
        c.ranked.len() > 0 ==> component_groups(components.push(c)) == component_groups(
            components,
        ).push(Seq::new(c.ranked.len(), |k: int| paths::normal_key(c.ranked[k].item))),
        c.ranked.len() == 0 ==> component_groups(components.push(c)) == component_groups(components),
        single_groups(items).len() == items.len(),
        0 <= i < items.len() ==> single_groups(items)[i] == seq![paths::normal_key(items[i])],
        nav_groups(RankingsModel { components, unranked: items }) == component_groups(components)
            + single_groups(items),
{
    assert(components.push(c).drop_last() =~= components);
    assert(ranked_keys(c) =~= Seq::new(c.ranked.len(), |k: int| paths::normal_key(c.ranked[k].item)));
}

/// The number of siblings is that of all groups together.
pub proof fn law_sibling_total(groups: Seq<Seq<Seq<char>>>, g: Seq<Seq<char>>)
    ensures
        sibling_total(Seq::empty()) == 0,
        sibling_total(groups.push(g)) == sibling_total(groups) + g.len(),
{
    assert(groups.push(g).drop_last() =~= groups);
}

/// An item has a rank among its siblings where it stands in the first component and that has at
/// least two items: its place from one on, out of the number of items. Only the first of them
/// has a percentile. An item without any sibling has no bar.
#[verifier::rlimit(50)]
pub proof fn law_sibling_rank(r: RankingsModel, i: int, current: Seq<char>)
    requires
        r.components.len() > 0,
        r.components[0].ranked.len() >= 2,
        sibling_total(nav_groups(r)) > 1,
    ensures
        sibling_bar(r, current) is Some,
        sibling_bar(r, current).unwrap().groups == nav_groups(r),
        0 <= i < r.components[0].ranked.len() && paths::normal_key(r.components[0].ranked[i].item)
            == current && (forall|k: int|
            0 <= k < i ==> paths::normal_key((#[trigger] r.components[0].ranked[k]).item) != current)
            ==> {
            let bar = sibling_bar(r, current).unwrap();
            &&& bar.rank == Some((i + 1, r.components[0].ranked.len() as int))
            &&& i == 0 ==> bar.percentile == winner_percentile(r.components[0].ranked.len() as int)
            &&& i > 0 ==> bar.percentile is None
            &&& rank_note(bar) == Some(
                "rank: "@ + text::decimal((i + 1) as nat) + "/"@ + text::decimal(
                    r.components[0].ranked.len(),
                ),
            )
        },
        (forall|k: int|
            0 <= k < r.components[0].ranked.len() ==> paths::normal_key(
                (#[trigger] r.components[0].ranked[k]).item,
            ) != current) ==> sibling_bar(r, current).unwrap().rank is None && sibling_bar(
            r,
            current,
        ).unwrap().percentile is None,
{
    let ks = ranked_keys(r.components[0]);
    text::lemma_position(ks, current);
    if 0 <= i < ks.len() && ks[i] == current {
        match text::position(ks, current) {
            Some(k) => {
                if k < i {
                    assert(paths::normal_key(r.components[0].ranked[k].item) == ks[k]);
                }
            },
            None => {},
        }
    }
    match text::position(ks, current) {
        Some(k) => {
            assert(paths::normal_key(r.components[0].ranked[k].item) == ks[k]);
        },
        None => {},
    }
}

/// An item that has nobody beside it has no bar, and in a component of one or outside the first
/// it has no rank.
pub proof fn law_no_sibling_rank(r: RankingsModel, current: Seq<char>)
    ensures
        sibling_total(nav_groups(r)) <= 1 ==> sibling_bar(r, current) is None,
        sibling_total(nav_groups(r)) > 1 && (r.components.len() == 0 || r.components[0].ranked.len()
            < 2) ==> sibling_bar(r, current) is Some && sibling_bar(r, current).unwrap().rank is None,
{
}

/// The bars of an item are those of its scopes that have one, in the order of the scopes, each
/// made from the ranking of its own scope.
pub proof fn law_sibling_bars(
    c: ContentState,
    current: Seq<char>,
    scopes: Seq<Seq<char>>,
    scope: Seq<char>,
)
    ensures
        sibling_bars(c, current, Seq::empty()).len() == 0,
        match sibling_bar(state::rankings_of(c, paths::normal_key(scope)), current) {
            Some(b) => sibling_bars(c, current, scopes.push(scope)) == sibling_bars(
                c,
                current,
                scopes,
            ).push((paths::normal_key(scope), b)),
            None => sibling_bars(c, current, scopes.push(scope)) == sibling_bars(c, current, scopes),
        },
{
    assert(scopes.push(scope).drop_last() =~= scopes);
}

/// A scope is ranked under each aspect that has votes and a ranked component, with the prompt and
/// the ranking of that aspect, in the order of the aspects.
pub proof fn law_aspect_rankings(
    c: ContentState,
    parent: Seq<char>,
    slugs: Seq<Seq<char>>,
    at: int,
)
    requires
        c.wf(),
        0 <= at < c.aspect_groups@.len(),
        c.aspect_groups@[at].scope@ == parent,
    ensures
        ({
            let g = c.aspect_groups@[at];
            let slug = g.slug@;
            if g.group.voted_pairs@.len() > 0 && g.rankings@.components.len() > 0 {
                aspect_models(c, parent, slugs.push(slug)) == aspect_models(c, parent, slugs).push(
                    AspectModel { slug, prompt: state::prompt_of(c, slug), rankings: g.rankings@ },
                )
            } else {
                aspect_models(c, parent, slugs.push(slug)) == aspect_models(c, parent, slugs)
            }
        }),
        aspect_models(c, parent, Seq::empty()).len() == 0,
{
    let slug = c.aspect_groups@[at].slug@;
    assert(slugs.push(slug).drop_last() =~= slugs);
    state::law_pairs_are_found_by_both_names(c, parent, slug, at);
}

/// The scopes of an item are all there; behind the strongest they stand in the order of their
/// keys.
pub proof fn law_scopes_in_order(c: ContentState, key: Seq<char>, x: Seq<char>)
    ensures
        ordered_scopes(c, key).contains(x) <==> state::scopes_of(c, key).contains(x),
        forall|i: int, j: int|
            0 <= i < j < ordered_scopes(c, key).len() ==> {
                let a = #[trigger] ordered_scopes(c, key)[i];
                let b = #[trigger] ordered_scopes(c, key)[j];
                Some(a) == strongest(c, key) || (Some(b) != strongest(c, key) && !text::text_lt(b, a))
            },
{
    let scopes = state::scopes_of(c, key);
    let keys = scope_order_keys(scopes, strongest(c, key));
    sort::lemma_sorted_rows(scopes, keys);
    let o = sort::stable_order(keys);
    let r = ordered_scopes(c, key);
    assert forall|i: int, j: int| 0 <= i < j < r.len() implies {
        let a = #[trigger] r[i];
        let b = #[trigger] r[j];
        Some(a) == strongest(c, key) || (Some(b) != strongest(c, key) && !text::text_lt(b, a))
    } by {
        assert(!sort::key_lt(keys[o[j]], keys[o[i]]));
    }
}

/// The body of an item is the one that it has in its own scope, and that of the public garden
/// only where it has none there.
pub proof fn law_body_of_a_page(s: ReducerState, c: ContentState, key: Seq<char>)
    ensures
        state::body_of(c, key) is Some ==> body_or_public(s, c, key) == state::body_of(c, key),
        state::body_of(c, key) is None ==> body_or_public(s, c, key) == state::body_of(
            s.public_content,
            key,
        ),
{
}

/// The weights of a membership as shown: what is for it, then what is against it.
pub proof fn law_weight_label(b: BorderModel)
    ensures
        weight_label(b) == "containment "@ + text::decimal(b.containment) + " · border "@
            + text::decimal(b.border),
{
}

/// A page is about the last segment of an item of the ontology, and about the root where its text
/// names no item.
pub proof fn law_page_keys(front: Seq<char>, last: Seq<char>)
    requires
        paths::is_bare(front),
        paths::is_bare(last),
        !last.contains('/'),
    ensures
        page_key("~/"@ + front + "/"@ + last) == "https://slug.social/~/"@ + last,
        page_key("~"@ + last) == "https://slug.social/~/"@ + last,
        page_key(Seq::empty()) == "https://slug.social/~"@,
{
    reveal_strlit("/");
    reveal_strlit("https://slug.social/~/");
    reveal_strlit("https://slug.social/~");
    let t = front + "/"@ + last;
    assert(t[0] == front[0] && t.last() == last.last());
    paths::law_ontology_items(t);
    paths::law_ontology_items(last);
    paths::law_ontology_paths(front, last);
    assert("~/"@ + front + "/"@ + last =~= "~/"@ + t);
    assert("https://slug.social/~/"@ + t =~= "https://slug.social/~/"@ + front + "/"@ + last);
    let k = "https://slug.social/~/"@ + last;
    assert(k.last() == last.last());
    assert(paths::normal_key(k) == k);
    let none = Seq::<char>::empty();
    assert(text::trim_start(none) == none);
    assert(text::trim_end(none) == none);
    assert(paths::item_key(none) is None);
    let r = "https://slug.social/~"@;
    assert(r.last() == '~');
    assert(paths::normal_key(r) == r);
}

/// The percentile is told of an item that has both a rank and a percentile, with its ordinal
/// ending; the other scopes of an item are all but its first.
pub proof fn law_sibling_notes(b: BarModel, v: Seq<Seq<char>>, i: int)
    ensures
        match (b.rank, b.percentile) {
            (Some(_), Some(p)) => percentile_note(b) == Some(
                "top "@ + text::decimal(p as nat) + ordinal_ending(p) + " percentile"@,
            ),
            _ => percentile_note(b) is None,
        },
        b.rank is None ==> rank_note(b) is None,
        v.len() == 0 ==> behind_first(v).len() == 0,
        v.len() > 0 ==> behind_first(v).len() == v.len() - 1,
        0 <= i < behind_first(v).len() ==> behind_first(v)[i] == v[i + 1],
{
}

/// The fragment of a membership names the child and then the parent.
pub proof fn law_edge_fragments(child: Seq<char>, parent: Seq<char>)
    ensures
        ({
            let a = fragment_of(paths::last_piece(child));
            let b = fragment_of(paths::last_piece(parent));
            &&& a.len() > 0 && b.len() > 0 ==> edge_fragment(child, parent) == "edge-"@ + a + "-in-"@ + b
            &&& a.len() > 0 && b.len() == 0 ==> edge_fragment(child, parent) == "edge-"@ + a + "-in-"@
                + "root"@
        }),
{
}

/// A scope is ranked under those of its aspects that have a vote graph, each once and in order.
#[verifier::rlimit(50)]
pub proof fn law_aspects_ranked(c: ContentState, parent: Seq<char>, i: int)
    requires
        0 <= i < aspects_ranked(c, parent).len(),
    ensures
        exists|k: int|
            0 <= k < c.aspect_groups@.len() && (#[trigger] c.aspect_groups@[k]).scope@
                == paths::normal_key(parent) && c.aspect_groups@[k].slug@ == aspects_ranked(
                c,
                parent,
            )[i].slug,
        forall|j: int|
            i < j < aspects_ranked(c, parent).len() ==> text::text_lt(
                aspects_ranked(c, parent)[i].slug,
                (#[trigger] aspects_ranked(c, parent)[j]).slug,
            ),
{
    let key = paths::normal_key(parent);
    let n = c.aspect_groups@.len() as int;
    let v = landing::slugs_upto(c, key, n);
    let set = sort::sorted_set(v);
    sort::law_sorted_set(v);
    lemma_aspect_places(c, key, set);
    let all = aspects_ranked(c, parent);
    let p = choose|p: Seq<int>|
        #![trigger are_places(all, set, p)]
        are_places(all, set, p);
    let slug = all[i].slug;
    assert(slug == set[p[i]]);
    assert(set.contains(slug));
    landing::lemma_slugs_contain(c, key, n, slug);
    let ks = state::aspect_keys(c);
    assert(ks.take(n) =~= ks);
    let k = choose|k: int| 0 <= k < ks.len() && ks[k] == (key, slug);
    assert(c.aspect_groups@[k].scope@ == key);
    assert forall|j: int| i < j < all.len() implies text::text_lt(
        all[i].slug,
        (#[trigger] all[j]).slug,
    ) by {
        assert(p[i] < p[j]);
        assert(text::text_lt(set[p[i]], set[p[j]]));
    }
}

/// Whether rankings are those of the slugs at ascending places.
pub open spec fn are_places(all: Seq<AspectModel>, slugs: Seq<Seq<char>>, p: Seq<int>) -> bool {
    &&& p.len() == all.len()
    &&& forall|i: int| 0 <= i < p.len() ==> 0 <= #[trigger] p[i] < slugs.len() && all[i].slug
        == slugs[p[i]]
    &&& forall|i: int, j: int| 0 <= i < j < p.len() ==> #[trigger] p[i] < #[trigger] p[j]
}

proof fn lemma_aspect_places(c: ContentState, parent: Seq<char>, slugs: Seq<Seq<char>>)
    ensures
        exists|p: Seq<int>|
            #![trigger are_places(aspect_models(c, parent, slugs), slugs, p)]
            are_places(aspect_models(c, parent, slugs), slugs, p),
    decreases slugs.len(),
{
    let all = aspect_models(c, parent, slugs);
    if slugs.len() == 0 {
        assert(are_places(all, slugs, Seq::empty()));
    } else {
        let rest = slugs.drop_last();
        lemma_aspect_places(c, parent, rest);
        let front = aspect_models(c, parent, rest);
        let p = choose|p: Seq<int>|
            #![trigger are_places(front, rest, p)]
            are_places(front, rest, p);
        if all.len() == front.len() {
            assert(all == front);
            assert forall|i: int| 0 <= i < p.len() implies 0 <= #[trigger] p[i] < slugs.len()
                && all[i].slug == slugs[p[i]] by {
                assert(rest[p[i]] == slugs[p[i]]);
            }
            assert(are_places(all, slugs, p));
        } else {
            let q = p.push(slugs.len() - 1);
            assert forall|i: int| 0 <= i < q.len() implies 0 <= #[trigger] q[i] < slugs.len()
                && all[i].slug == slugs[q[i]] by {
                if i < p.len() {
                    assert(q[i] == p[i]);
                    assert(all[i] == front[i]);
                    assert(rest[p[i]] == slugs[p[i]]);
                }
            }
            assert forall|i: int, j: int| 0 <= i < j < q.len() implies #[trigger] q[i]
                < #[trigger] q[j] by {
                assert(q[i] == p[i]);
                if j < p.len() {
                    assert(q[j] == p[j]);
                }
            }
            assert(are_places(all, slugs, q));
        }
    }
}

} // verus!
