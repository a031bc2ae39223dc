//! Pairwise votes: the votes on a pair, which pair to judge next, and which question to open
//! with.

use vstd::prelude::*;

use crate::garden;
use crate::nav::{self, NavModel, ThreadNav};
use crate::outside;
use crate::paths::{self, ItemId};
use crate::sort::{self, Key, SortKey};
use crate::state::{self, ContentState, GroupState, ItemPair, VoteData, VoteModel};
use crate::text;

verus! {

/// How many open questions are listed below the pair that is dealt.
pub const OPEN_INDEX_CAP: usize = 10;

// ---------------------------------------------------------------------------
// Element ids
// ---------------------------------------------------------------------------

/// The ids of the elements of a compare panel. Without a suffix it is the panel of the page.
#[derive(Debug)]
pub struct VoteCompareDomIds {
    pub suffix: Option<String>,
}

/// An id with the suffix of its panel.
pub open spec fn suffixed_id(base: Seq<char>, suffix: Option<Seq<char>>) -> Seq<char> {
    match suffix {
        Some(s) => if s.len() > 0 {
            base + "-"@ + s
        } else {
            base
        },
        None => base,
    }
}

impl VoteCompareDomIds {
    /// The ids of the panel of the page.
    pub fn page() -> (r: VoteCompareDomIds)
        ensures
            r.suffix is None,
    {
        VoteCompareDomIds { suffix: None }
    }

    /// The ids of a panel with a suffix of its own.
    pub fn with_suffix(suffix: String) -> (r: VoteCompareDomIds)
        ensures
            text::opt_view(r.suffix) == if suffix@.len() > 0 {
                Some(suffix@)
            } else {
                None
            },
    {
        if suffix.as_str().is_empty() {
            VoteCompareDomIds { suffix: None }
        } else {
            VoteCompareDomIds { suffix: Some(suffix) }
        }
    }

    /// An id with the suffix of the panel.
    pub fn suffixed(&self, base: &str) -> (r: String)
        ensures
            r@ == suffixed_id(base@, text::opt_view(self.suffix)),
    {
        match &self.suffix {
            Some(s) => if s.as_str().is_empty() {
                base.to_owned()
            } else {
                text::cat3(base, "-", s.as_str())
            },
            None => base.to_owned(),
        }
    }

    /// The form that posts a vote.
    pub fn form_id(&self) -> (r: String)
        ensures
            r@ == suffixed_id("vote-compare-form"@, text::opt_view(self.suffix)),
    {
        self.suffixed("vote-compare-form")
    }

    /// The votes on the pair.
    pub fn history_id(&self) -> (r: String)
        ensures
            r@ == suffixed_id("vote-edge-history-region"@, text::opt_view(self.suffix)),
    {
        self.suffixed("vote-edge-history-region")
    }

    /// The links to other pairs.
    pub fn nav_id(&self) -> (r: String)
        ensures
            r@ == suffixed_id("vote-compare-nav"@, text::opt_view(self.suffix)),
    {
        self.suffixed("vote-compare-nav")
    }

    /// The form that skips the pair.
    pub fn skip_form_id(&self) -> (r: String)
        ensures
            r@ == suffixed_id("vote-compare-skip-form"@, text::opt_view(self.suffix)),
    {
        self.suffixed("vote-compare-skip-form")
    }

    /// The slider between the two items.
    pub fn slider_id(&self) -> (r: String)
        ensures
            r@ == suffixed_id("vote-preference-slider"@, text::opt_view(self.suffix)),
    {
        self.suffixed("vote-preference-slider")
    }

    /// The share of the left item.
    pub fn ratio_left_id(&self) -> (r: String)
        ensures
            r@ == suffixed_id("vote-ratio-left"@, text::opt_view(self.suffix)),
    {
        self.suffixed("vote-ratio-left")
    }

    /// The share of the right item.
    pub fn ratio_right_id(&self) -> (r: String)
        ensures
            r@ == suffixed_id("vote-ratio-right"@, text::opt_view(self.suffix)),
    {
        self.suffixed("vote-ratio-right")
    }

    /// The ratio as shown.
    pub fn readout_id(&self) -> (r: String)
        ensures
            r@ == suffixed_id("vote-ratio-readout"@, text::opt_view(self.suffix)),
    {
        self.suffixed("vote-ratio-readout")
    }

    /// The errors of the form.
    pub fn errors_id(&self) -> (r: String)
        ensures
            r@ == suffixed_id("vote-compare-errors"@, text::opt_view(self.suffix)),
    {
        self.suffixed("vote-compare-errors")
    }

    /// The choice of a thread.
    pub fn thread_select_id(&self) -> (r: String)
        ensures
            r@ == suffixed_id("vote-thread-select"@, text::opt_view(self.suffix)),
    {
        self.suffixed("vote-thread-select")
    }

    /// The label at the left end of the slider.
    pub fn slider_left_label_id(&self) -> (r: String)
        ensures
            r@ == suffixed_id("vote-slider-left-label"@, text::opt_view(self.suffix)),
    {
        self.suffixed("vote-slider-left-label")
    }

    /// The label at the right end of the slider.
    pub fn slider_right_label_id(&self) -> (r: String)
        ensures
            r@ == suffixed_id("vote-slider-right-label"@, text::opt_view(self.suffix)),
    {
        self.suffixed("vote-slider-right-label")
    }

    /// The reason for the vote.
    pub fn explain_id(&self) -> (r: String)
        ensures
            r@ == suffixed_id("vote-explain"@, text::opt_view(self.suffix)),
    {
        self.suffixed("vote-explain")
    }
}

/// The ids of a panel before its suffix is put behind them.
pub open spec fn panel_bases() -> Seq<Seq<char>> {
    seq![
        "vote-compare-form"@,
        "vote-edge-history-region"@,
        "vote-compare-nav"@,
        "vote-compare-skip-form"@,
        "vote-preference-slider"@,
        "vote-ratio-left"@,
        "vote-ratio-right"@,
        "vote-ratio-readout"@,
        "vote-compare-errors"@,
        "vote-thread-select"@,
        "vote-slider-left-label"@,
        "vote-slider-right-label"@,
        "vote-explain"@,
    ]
}

/// No two of the ids before the suffix begin alike.
proof fn lemma_bases_differ(i: int, j: int)
    requires
        0 <= i < j < panel_bases().len(),
    ensures
        exists|k: int|
            0 <= k < panel_bases()[i].len() && k < panel_bases()[j].len()
                && #[trigger] panel_bases()[i][k] != panel_bases()[j][k],
{
    reveal_strlit("vote-compare-form");
    reveal_strlit("vote-edge-history-region");
    reveal_strlit("vote-compare-nav");
    reveal_strlit("vote-compare-skip-form");
    reveal_strlit("vote-preference-slider");
    reveal_strlit("vote-ratio-left");
    reveal_strlit("vote-ratio-right");
    reveal_strlit("vote-ratio-readout");
    reveal_strlit("vote-compare-errors");
    reveal_strlit("vote-thread-select");
    reveal_strlit("vote-slider-left-label");
    reveal_strlit("vote-slider-right-label");
    reveal_strlit("vote-explain");
    let a = panel_bases()[i];
    let b = panel_bases()[j];
    if a[5] != b[5] {
        assert(panel_bases()[i][5] != b[5]);
    } else if a[6] != b[6] {
        assert(panel_bases()[i][6] != b[6]);
    } else if a[11] != b[11] {
        assert(panel_bases()[i][11] != b[11]);
    } else if a[12] != b[12] {
        assert(panel_bases()[i][12] != b[12]);
    } else {
        assert(panel_bases()[i][13] != b[13]);
    }
}

/// The ids of all panels differ: two are the same only for the same element of panels with the
/// same suffix.
pub proof fn law_panel_ids_are_unique(i: int, j: int, s: Option<Seq<char>>, t: Option<Seq<char>>)
    requires
        0 <= i < panel_bases().len(),
        0 <= j < panel_bases().len(),
        match s {
            Some(x) => x.len() > 0,
            None => true,
        },
        match t {
            Some(x) => x.len() > 0,
            None => true,
        },
        suffixed_id(panel_bases()[i], s) == suffixed_id(panel_bases()[j], t),
    ensures
        i == j,
        s == t,
{
    let x = suffixed_id(panel_bases()[i], s);
    let y = suffixed_id(panel_bases()[j], t);
    let a = panel_bases()[i];
    let b = panel_bases()[j];
    if i != j {
        if i < j {
            lemma_bases_differ(i, j);
            let k = choose|k: int|
                0 <= k < panel_bases()[i].len() && k < panel_bases()[j].len()
                    && #[trigger] panel_bases()[i][k] != panel_bases()[j][k];
            assert(x[k] == a[k] && y[k] == b[k]);
        } else {
            lemma_bases_differ(j, i);
            let k = choose|k: int|
                0 <= k < panel_bases()[j].len() && k < panel_bases()[i].len()
                    && #[trigger] panel_bases()[j][k] != panel_bases()[i][k];
            assert(x[k] == a[k] && y[k] == b[k]);
        }
    }
    if s is Some {
        assert(x.skip(a.len() as int + "-"@.len()) =~= s.unwrap());
    }
    if t is Some {
        assert(y.skip(b.len() as int + "-"@.len()) =~= t.unwrap());
    }
}

// ---------------------------------------------------------------------------
// The votes on a pair
// ---------------------------------------------------------------------------

/// An unordered pair in the order of its storage keys.
pub open spec fn edge_of(a: Seq<char>, b: Seq<char>) -> (Seq<char>, Seq<char>) {
    let ac = paths::normal_key(a);
    let bc = paths::normal_key(b);
    if text::text_lt(bc, ac) {
        (bc, ac)
    } else {
        (ac, bc)
    }
}

/// The unordered pair of two items, in the order of their storage keys.
pub fn canonical_edge_items(a: &ItemId, b: &ItemId) -> (r: (ItemId, ItemId))
    ensures
        (r.0@, r.1@) == edge_of(a@, b@),
{
    let ac: ItemId = a.normalized_storage();
    let bc: ItemId = b.normalized_storage();
    if text::str_lt(bc.as_str(), ac.as_str()) {
        (bc, ac)
    } else {
        (ac, bc)
    }
}

/// An edge has no direction.
pub proof fn law_edge_is_symmetric(a: Seq<char>, b: Seq<char>)
    ensures
        edge_of(a, b) == edge_of(b, a),
{
    text::lemma_text_order(paths::normal_key(a), paths::normal_key(b));
}

/// Whether a pair joins two items, in either direction.
pub open spec fn joins(p: (Seq<char>, Seq<char>), a: Seq<char>, b: Seq<char>) -> bool {
    p == (a, b) || p == (b, a)
}

/// Those votes that join two items, in the order in which they stand.
pub open spec fn votes_between(votes: Seq<VoteModel>, a: Seq<char>, b: Seq<char>) -> Seq<VoteModel>
    decreases votes.len(),
{
    if votes.len() == 0 {
        Seq::empty()
    } else {
        let v = votes.last();
        let front = votes_between(votes.drop_last(), a, b);
        if joins((v.a, v.b), a, b) {
            front.push(v)
        } else {
            front
        }
    }
}

/// The votes on the pair of two items.
pub open spec fn edge_votes(c: ContentState, a: Seq<char>, b: Seq<char>) -> Seq<VoteModel> {
    let e = edge_of(a, b);
    votes_between(state::rows(c.votes@), e.0, e.1)
}

/// The votes whose ends are the two items, in either order, as recorded.
pub fn edge_vote_entries_for_pair(content: &ContentState, a: &ItemId, b: &ItemId) -> (r: Vec<
    VoteData,
>)
    ensures
        state::rows(r@) == edge_votes(*content, a@, b@),
{
    let (lo, hi) = canonical_edge_items(a, b);
    let ghost all = state::rows(content.votes@);
    let mut r: Vec<VoteData> = Vec::new();
    let mut i: usize = 0;
    assert(state::rows(r@) =~= votes_between(all.take(0), lo@, hi@));
    while i < content.votes.len()
        invariant
            i <= content.votes.len(),
            all == state::rows(content.votes@),
            state::rows(r@) == votes_between(all.take(i as int), lo@, hi@),
        decreases content.votes.len() - i,
    {
        let v: &VoteData = &content.votes[i];
        assert(all.take(i + 1).drop_last() =~= all.take(i as int));
        assert(all.take(i + 1).last() == v@);
        if (v.a.same(&lo) && v.b.same(&hi)) || (v.a.same(&hi) && v.b.same(&lo)) {
            let copy: VoteData = v.copy();
            proof {
                state::lemma_rows_push(r@, copy);
            }
            r.push(copy);
        }
        i = i + 1;
    }
    assert(all.take(all.len() as int) =~= all);
    r
}

/// How many votes the pair of two items has.
pub fn edge_vote_count_for_pair(content: &ContentState, a: &ItemId, b: &ItemId) -> (r: usize)
    ensures
        r == edge_votes(*content, a@, b@).len(),
{
    let (lo, hi) = canonical_edge_items(a, b);
    let ghost all = state::rows(content.votes@);
    let mut n: usize = 0;
    let mut i: usize = 0;
    assert(votes_between(all.take(0), lo@, hi@).len() == 0);
    while i < content.votes.len()
        invariant
            i <= content.votes.len(),
            n <= i,
            all == state::rows(content.votes@),
            n == votes_between(all.take(i as int), lo@, hi@).len(),
        decreases content.votes.len() - i,
    {
        let v: &VoteData = &content.votes[i];
        assert(all.take(i + 1).drop_last() =~= all.take(i as int));
        assert(all.take(i + 1).last() == v@);
        if (v.a.same(&lo) && v.b.same(&hi)) || (v.a.same(&hi) && v.b.same(&lo)) {
            n = n + 1;
        }
        i = i + 1;
    }
    assert(all.take(all.len() as int) =~= all);
    n
}

/// The votes on a pair do not depend on the order in which its items are named.
pub proof fn law_edge_votes_are_symmetric(c: ContentState, a: Seq<char>, b: Seq<char>)
    ensures
        edge_votes(c, a, b) == edge_votes(c, b, a),
{
    law_edge_is_symmetric(a, b);
}

/// The ratio of a vote as seen from a page with an item on either side.
pub open spec fn page_ratio(v: VoteModel, left: Seq<char>, right: Seq<char>) -> (int, int) {
    if v.a == left && v.b == right {
        (v.ratio_left, v.ratio_right)
    } else if v.a == right && v.b == left {
        (v.ratio_right, v.ratio_left)
    } else {
        (v.ratio_left, v.ratio_right)
    }
}

/// The ratio of a vote as seen from a page with an item on either side.
pub fn ratios_for_compare_page(v: &VoteData, page_left: &ItemId, page_right: &ItemId) -> (r: (
    i32,
    i32,
))
    ensures
        (r.0 as int, r.1 as int) == page_ratio(v@, page_left@, page_right@),
{
    if v.a.same(page_left) && v.b.same(page_right) {
        (v.ratio_left, v.ratio_right)
    } else if v.a.same(page_right) && v.b.same(page_left) {
        (v.ratio_right, v.ratio_left)
    } else {
        (v.ratio_left, v.ratio_right)
    }
}

/// Seen from the other side, a vote on the pair has its ratio the other way round.
pub proof fn law_swapped_page_swaps_ratio(v: VoteModel, left: Seq<char>, right: Seq<char>)
    requires
        joins((v.a, v.b), left, right),
        left != right,
    ensures
        page_ratio(v, left, right).0 == page_ratio(v, right, left).1,
        page_ratio(v, left, right).1 == page_ratio(v, right, left).0,
{
}

// ---------------------------------------------------------------------------
// The share of the left item
// ---------------------------------------------------------------------------

/// Two to the power of fifty-two: a share is kept to fifty-three significant bits.
pub const SHARE_UNIT: u128 = 0x10_0000_0000_0000;

/// A quotient rounded to the nearest integer, to the even one half way.
pub open spec fn rounded_quotient(n: int, d: int) -> int {
    let q = n / d;
    let r = n % d;
    if 2 * r > d || (2 * r == d && q % 2 == 1) {
        q + 1
    } else {
        q
    }
}

/// A share `n / d` in binary: how often it was doubled, on top of `k`, until it had fifty-three
/// bits, and these bits as an integer.
pub open spec fn share_bits(n: int, d: int, k: int) -> (int, int)
    decreases 84 - k,
{
    if n >= d * SHARE_UNIT || k >= 84 {
        let q = rounded_quotient(n, d);
        if q == 2 * SHARE_UNIT {
            (k - 1, SHARE_UNIT as int)
        } else {
            (k, q)
        }
    } else {
        share_bits(2 * n, d, k + 1)
    }
}

/// The part of a ratio that falls to its left side, rounded to fifty-three significant bits: a
/// pair of an exponent (the larger, the smaller the share) and a significand. Sides below zero
/// count as zero, and an empty ratio is an even one.
pub open spec fn left_share(left: int, right: int) -> (int, int) {
    let l = if left > 0 {
        left
    } else {
        0
    };
    let r = if right > 0 {
        right
    } else {
        0
    };
    if l + r == 0 {
        share_bits(1, 2, 0)
    } else if l == 0 {
        (85, 0)
    } else {
        share_bits(l, l + r, 0)
    }
}

fn share_bits_of(n0: u128, d: u128) -> (r: (u128, u128))
    requires
        1 <= n0 <= d,
        d < 0x2_0000_0000,
    ensures
        (r.0 as int, r.1 as int) == share_bits(n0 as int, d as int, 0),
        r.0 <= 84,
        r.1 <= 2 * SHARE_UNIT,
{
    let mut n: u128 = n0;
    let mut k: u128 = 0;
    while n < d * SHARE_UNIT && k < 84
        invariant
            1 <= d < 0x2_0000_0000,
            1 <= n <= 2 * d * SHARE_UNIT,
            k == 0 ==> n <= d,
            k <= 84,
            share_bits(n0 as int, d as int, 0) == share_bits(n as int, d as int, k as int),
        decreases 84 - k,
    {
        n = 2 * n;
        k = k + 1;
    }
    let q: u128 = n / d;
    let rem: u128 = n % d;
    assert(q <= 2 * SHARE_UNIT) by (nonlinear_arith)
        requires
            q == n / d,
            n <= 2 * d * SHARE_UNIT,
            d >= 1,
    ;
    if q == 2 * SHARE_UNIT {
        assert(rem == 0) by (nonlinear_arith)
            requires
                q == 2 * SHARE_UNIT,
                q == n / d,
                rem == n % d,
                n <= 2 * d * SHARE_UNIT,
                d >= 1,
        ;
    }
    let rounded: u128 = if 2 * rem > d || (2 * rem == d && q % 2 == 1) {
        q + 1
    } else {
        q
    };
    if rounded == 2 * SHARE_UNIT {
        if k == 0 {
            assert(q <= 1) by (nonlinear_arith)
                requires
                    q == n / d,
                    n <= d,
                    d >= 1,
            ;
        }
        (k - 1, SHARE_UNIT)
    } else {
        (k, rounded)
    }
}

/// The part of a ratio that falls to its left side, in binary.
pub fn left_share_of(ratio_left: i32, ratio_right: i32) -> (r: (u128, u128))
    ensures
        (r.0 as int, r.1 as int) == left_share(ratio_left as int, ratio_right as int),
        r.0 <= 85,
        r.1 <= 2 * SHARE_UNIT,
{
    let l: u128 = if ratio_left > 0 {
        ratio_left as u128
    } else {
        0
    };
    let r: u128 = if ratio_right > 0 {
        ratio_right as u128
    } else {
        0
    };
    if l + r == 0 {
        share_bits_of(1, 2)
    } else if l == 0 {
        (85, 0)
    } else {
        share_bits_of(l, l + r)
    }
}

/// What votes are ordered by on a page: the larger share of the left item first, then the newer
/// vote.
pub open spec fn display_key(v: VoteModel, left: Seq<char>, right: Seq<char>) -> Key {
    let ratio = page_ratio(v, left, right);
    let share = left_share(ratio.0, ratio.1);
    Key {
        major: share.0,
        minor: -(share.1 * 0x1_0000_0000_0000_0000 + v.ts),
        text: Seq::empty(),
    }
}

/// The keys of votes on a page.
pub open spec fn display_keys(votes: Seq<VoteModel>, left: Seq<char>, right: Seq<char>) -> Seq<Key> {
    Seq::new(votes.len(), |i: int| display_key(votes[i], left, right))
}

/// Votes as a page lists them: the stronger preference for the left item first, then the newer.
pub open spec fn display_order(votes: Seq<VoteModel>, left: Seq<char>, right: Seq<char>) -> Seq<
    VoteModel,
> {
    sort::pick(votes, sort::stable_order(display_keys(votes, left, right)))
}

/// Orders votes for a page: the stronger preference for `page_left` first, then the newer vote.
pub fn sort_votes_for_compare_display(
    votes: Vec<VoteData>,
    page_left: &ItemId,
    page_right: &ItemId,
) -> (r: Vec<VoteData>)
    ensures
        state::rows(r@) == display_order(state::rows(votes@), page_left@, page_right@),
{
    let ghost rows = state::rows(votes@);
    let ghost want = display_keys(rows, page_left@, page_right@);
    let mut keys: Vec<SortKey> = Vec::new();
    let mut i: usize = 0;
    while i < votes.len()
        invariant
            i <= votes.len(),
            keys.len() == i,
            rows == state::rows(votes@),
            want == display_keys(rows, page_left@, page_right@),
            forall|j: int| 0 <= j < i ==> (#[trigger] keys@[j])@ == want[j],
        decreases votes.len() - i,
    {
        let (rl, rr) = ratios_for_compare_page(&votes[i], page_left, page_right);
        let (k, q) = left_share_of(rl, rr);
        let key = SortKey {
            major: k as i128,
            minor: -((q as i128) * 0x1_0000_0000_0000_0000 + votes[i].ts as i128),
            text: String::new(),
        };
        assert(key@.text =~= Seq::empty());
        assert(want[i as int] == display_key(votes@[i as int]@, page_left@, page_right@));
        keys.push(key);
        i = i + 1;
    }
    assert(sort::key_views(keys@) =~= want);
    let order: Vec<usize> = sort::order_by(&keys);
    let mut r: Vec<VoteData> = Vec::new();
    let mut k: usize = 0;
    while k < order.len()
        invariant
            k <= order.len(),
            r.len() == k,
            forall|j: int| 0 <= j < order@.len() ==> (#[trigger] order@[j]) < votes@.len(),
            forall|j: int| 0 <= j < k ==> (#[trigger] r@[j])@ == votes@[order@[j] as int]@,
        decreases order.len() - k,
    {
        r.push(votes[order[k]].copy());
        k = k + 1;
    }
    proof {
        let o = sort::ints(order@);
        assert forall|j: int| 0 <= j < r@.len() implies #[trigger] state::rows(r@)[j]
            == sort::pick(rows, o)[j] by {
            assert(r@[j]@ == votes@[order@[j] as int]@);
            assert(o[j] == order@[j] as int);
        }
        assert(state::rows(r@) =~= sort::pick(rows, o));
    }
    r
}

/// On a page, a vote with the larger share for the left item never stands behind one with a
/// smaller share, and of two votes with the same share the newer stands first.
pub proof fn law_display_order(votes: Seq<VoteModel>, left: Seq<char>, right: Seq<char>, i: int, j: int)
    requires
        0 <= i < j < display_order(votes, left, right).len(),
        forall|k: int|
            0 <= k < votes.len() ==> i64::MIN <= (#[trigger] votes[k]).ts <= i64::MAX,
    ensures
        ({
            let va = display_order(votes, left, right)[i];
            let vb = display_order(votes, left, right)[j];
            let sa = left_share(page_ratio(va, left, right).0, page_ratio(va, left, right).1);
            let sb = left_share(page_ratio(vb, left, right).0, page_ratio(vb, left, right).1);
            sa.0 < sb.0 || (sa.0 == sb.0 && (sa.1 > sb.1 || (sa.1 == sb.1 && va.ts >= vb.ts)))
        }),
{
    let keys = display_keys(votes, left, right);
    let order = sort::stable_order(keys);
    sort::lemma_stable_order(keys);
    assert(0 <= order[i] < votes.len() && 0 <= order[j] < votes.len());
    let ka = keys[order[i]];
    let kb = keys[order[j]];
    text::lemma_text_order(ka.text, kb.text);
    assert(sort::key_lt(ka, kb) || !sort::key_lt(kb, ka));
    let va = votes[order[i]];
    let vb = votes[order[j]];
    assert(display_order(votes, left, right)[i] == va);
    assert(display_order(votes, left, right)[j] == vb);
    assert(ka == display_key(va, left, right));
    assert(kb == display_key(vb, left, right));
}

// ---------------------------------------------------------------------------
// Threads of a pair
// ---------------------------------------------------------------------------

/// The threads that mention either item, each once, in order.
pub open spec fn pair_threads(c: ContentState, a: Seq<char>, b: Seq<char>) -> Seq<Seq<char>> {
    sort::sorted_set(state::threads_of(c, a) + state::threads_of(c, b))
}

fn threads_of_pair(content: &ContentState, a: &ItemId, b: &ItemId) -> (r: Vec<String>)
    ensures
        text::views(r@) == pair_threads(*content, a@, b@),
{
    let mut all: Vec<String> = content.threads(a);
    let more: Vec<String> = content.threads(b);
    let ghost first = text::views(all@);
    let ghost second = text::views(more@);
    let mut i: usize = 0;
    assert(text::views(all@) =~= first + second.take(0));
    while i < more.len()
        invariant
            i <= more.len(),
            second == text::views(more@),
            text::views(all@) == first + second.take(i as int),
        decreases more.len() - i,
    {
        let ghost before = text::views(all@);
        all.push(more[i].clone());
        assert(text::views(all@) =~= before.push(more@[i as int]@));
        assert(first + second.take(i + 1) =~= before.push(second[i as int]));
        i = i + 1;
    }
    assert(second.take(second.len() as int) =~= second);
    sort::sort_unique(&all)
}

/// The thread that a vote on a pair goes to by itself: the first that mentions either item, or
/// `vote`.
pub open spec fn auto_thread(c: ContentState, a: Seq<char>, b: Seq<char>) -> Seq<char> {
    let t = pair_threads(c, a, b);
    if t.len() == 0 {
        "vote"@
    } else {
        nav::canonical_tag(t[0])
    }
}

/// The thread that a vote on a pair goes to by itself.
pub fn pick_autothread_for_vote_pair(content: &ContentState, a: &ItemId, b: &ItemId) -> (r: String)
    ensures
        r@ == auto_thread(*content, a@, b@),
{
    let t: Vec<String> = threads_of_pair(content, a, b);
    assert(text::views(t@).len() == t@.len());
    if t.len() == 0 {
        "vote".to_owned()
    } else {
        assert(text::views(t@)[0] == t@[0]@);
        nav::canonicalize_tag(t[0].as_str())
    }
}

/// The tags of a list as they are stored.
pub open spec fn canonical_tags(v: Seq<Seq<char>>) -> Seq<Seq<char>> {
    Seq::new(v.len(), |i: int| nav::canonical_tag(v[i]))
}

/// The threads that a vote on a pair may go to.
pub fn vote_thread_tags_for_pair(content: &ContentState, a: &ItemId, b: &ItemId) -> (r: Vec<String>)
    ensures
        text::views(r@) == canonical_tags(pair_threads(*content, a@, b@)),
{
    let t: Vec<String> = threads_of_pair(content, a, b);
    let ghost tv = text::views(t@);
    let mut r: Vec<String> = Vec::new();
    let mut i: usize = 0;
    while i < t.len()
        invariant
            i <= t.len(),
            r.len() == i,
            tv == text::views(t@),
            forall|j: int| 0 <= j < i ==> (#[trigger] r@[j])@ == nav::canonical_tag(tv[j]),
        decreases t.len() - i,
    {
        assert(tv[i as int] == t@[i as int]@);
        r.push(nav::canonicalize_tag(t[i].as_str()));
        i = i + 1;
    }
    assert(text::views(r@) =~= canonical_tags(tv));
    r
}

// ---------------------------------------------------------------------------
// URLs
// ---------------------------------------------------------------------------

/// A parameter of a query, where it is there and not empty.
pub open spec fn optional_param(name: Seq<char>, value: Option<Seq<char>>) -> Seq<char> {
    match value {
        Some(v) => if v.len() > 0 {
            name + outside::percent(v)
        } else {
            Seq::empty()
        },
        None => Seq::empty(),
    }
}

/// The parameter that names the pool.
pub open spec fn pool_param(pool: Option<Seq<char>>) -> Seq<char> {
    match pool {
        Some(p) => "&pool="@ + outside::percent(paths::display(p)),
        None => Seq::empty(),
    }
}

/// The URL of the page that compares two items.
pub open spec fn compare_href(
    nav: NavModel,
    left: Seq<char>,
    right: Seq<char>,
    thread: Option<Seq<char>>,
    pool: Option<Seq<char>>,
    aspect: Option<Seq<char>>,
) -> Seq<char> {
    nav::vote_prefix(nav) + "/vote?left="@ + outside::percent(paths::display(left)) + "&right="@
        + outside::percent(paths::display(right)) + optional_param("&thread="@, thread)
        + pool_param(pool) + optional_param("&aspect="@, aspect)
}

/// The view of an optional item.
pub open spec fn opt_key(o: Option<&ItemId>) -> Option<Seq<char>> {
    match o {
        Some(i) => Some(i@),
        None => None,
    }
}

fn append_param(base: &mut String, name: &str, value: Option<&str>)
    ensures
        final(base)@ == old(base)@ + optional_param(name@, text::opt_str(value)),
{
    let ghost before = base@;
    match value {
        Some(v) => {
            if !v.is_empty() {
                let q: String = outside::url_encode(v);
                base.append(name);
                base.append(q.as_str());
                assert(base@ =~= before + (name@ + outside::percent(v@)));
            } else {
                assert(base@ =~= before + Seq::empty());
            }
        },
        None => {
            assert(base@ =~= before + Seq::empty());
        },
    }
}

/// The URL of the page that compares two items.
pub fn vote_compare_href(
    nav: &ThreadNav,
    left: &ItemId,
    right: &ItemId,
    thread_override: Option<&str>,
    pool: Option<&ItemId>,
    aspect: Option<&str>,
) -> (r: String)
    ensures
        r@ == compare_href(
            nav@,
            left@,
            right@,
            text::opt_str(thread_override),
            opt_key(pool),
            text::opt_str(aspect),
        ),
{
    let left_dp: String = left.display_path();
    let right_dp: String = right.display_path();
    let left_q: String = outside::url_encode(left_dp.as_str());
    let right_q: String = outside::url_encode(right_dp.as_str());
    let prefix: String = nav.room_path_prefix_for_vote_compare();
    let mut base: String = text::cat5(
        prefix.as_str(),
        "/vote?left=",
        left_q.as_str(),
        "&right=",
        right_q.as_str(),
    );
    append_param(&mut base, "&thread=", thread_override);
    match pool {
        Some(p) => {
            let dp: String = p.display_path();
            let q: String = outside::url_encode(dp.as_str());
            let ghost before = base@;
            base.append("&pool=");
            base.append(q.as_str());
            assert(base@ =~= before + pool_param(opt_key(pool)));
        },
        None => {
            assert(base@ =~= base@ + pool_param(opt_key(pool)));
        },
    }
    append_param(&mut base, "&aspect=", aspect);
    base
}

/// The URL of the page that deals pairs of a pool.
pub open spec fn pool_href(nav: NavModel, pool: Seq<char>) -> Seq<char> {
    nav::vote_prefix(nav) + "/vote?pool="@ + outside::percent(
        match paths::item_key(pool) {
            Some(k) => paths::display(k),
            None => pool,
        },
    )
}

/// The URL of the page that deals pairs of a pool.
pub fn vote_pool_href(nav: &ThreadNav, pool_item_str: &str) -> (r: String)
    ensures
        r@ == pool_href(nav@, pool_item_str@),
{
    let shown: String = match ItemId::parse(pool_item_str) {
        Some(i) => i.display_path(),
        None => pool_item_str.to_owned(),
    };
    let q: String = outside::url_encode(shown.as_str());
    let prefix: String = nav.room_path_prefix_for_vote_compare();
    text::cat3(prefix.as_str(), "/vote?pool=", q.as_str())
}

/// The URL of the list of skipped pairs.
pub fn vote_skipped_href(nav: &ThreadNav) -> (r: String)
    ensures
        r@ == nav::vote_prefix(nav@) + "/vote/skipped"@,
{
    let prefix: String = nav.room_path_prefix_for_vote_compare();
    text::cat(prefix.as_str(), "/vote/skipped")
}

// ---------------------------------------------------------------------------
// The next pair
// ---------------------------------------------------------------------------

/// Whether a list of pairs holds a pair, in either direction.
pub open spec fn holds_pair(v: Seq<ItemPair>, a: Seq<char>, b: Seq<char>) -> bool {
    exists|i: int| 0 <= i < v.len() && joins((#[trigger] v[i])@, a, b)
}

/// Whether a list of pairs holds a pair, in either direction.
pub fn pair_in(v: &Vec<ItemPair>, a: &ItemId, b: &ItemId) -> (r: bool)
    ensures
        r == holds_pair(v@, a@, b@),
{
    let mut i: usize = 0;
    while i < v.len()
        invariant
            i <= v.len(),
            forall|j: int| 0 <= j < i ==> !joins((#[trigger] v@[j])@, a@, b@),
        decreases v.len() - i,
    {
        let p: &ItemPair = &v[i];
        if (p.a.same(a) && p.b.same(b)) || (p.a.same(b) && p.b.same(a)) {
            return true;
        }
        i = i + 1;
    }
    false
}

/// Whether a pair may be put up next: nobody has judged it in the group, it is not the current
/// pair, and it is not excluded.
pub open spec fn is_open_pair(
    group: GroupState,
    current: Option<(Seq<char>, Seq<char>)>,
    excluded: Seq<ItemPair>,
    a: Seq<char>,
    b: Seq<char>,
) -> bool {
    &&& !holds_pair(group.voted_pairs@, a, b)
    &&& !holds_pair(excluded, a, b)
    &&& match current {
        Some(c) => !joins(c, a, b),
        None => true,
    }
}

/// The first partner for item `i` of a pool, from place `j` on.
pub open spec fn next_partner(
    group: GroupState,
    pool: Seq<Seq<char>>,
    current: Option<(Seq<char>, Seq<char>)>,
    excluded: Seq<ItemPair>,
    i: int,
    j: int,
) -> Option<int>
    decreases pool.len() - j,
{
    if j < 0 || j >= pool.len() {
        None
    } else if is_open_pair(group, current, excluded, pool[i], pool[j]) {
        Some(j)
    } else {
        next_partner(group, pool, current, excluded, i, j + 1)
    }
}

/// The first open pair of a pool whose first item stands at `i` or behind.
pub open spec fn next_pair_from(
    group: GroupState,
    pool: Seq<Seq<char>>,
    current: Option<(Seq<char>, Seq<char>)>,
    excluded: Seq<ItemPair>,
    i: int,
) -> Option<(Seq<char>, Seq<char>)>
    decreases pool.len() - i,
{
    if i < 0 || i >= pool.len() {
        None
    } else {
        match next_partner(group, pool, current, excluded, i, i + 1) {
            Some(j) => Some((pool[i], pool[j])),
            None => next_pair_from(group, pool, current, excluded, i + 1),
        }
    }
}

/// The first open pair of a pool.
pub open spec fn next_pair(
    group: GroupState,
    pool: Seq<Seq<char>>,
    current: Option<(Seq<char>, Seq<char>)>,
    excluded: Seq<ItemPair>,
) -> Option<(Seq<char>, Seq<char>)> {
    next_pair_from(group, pool, current, excluded, 0)
}

/// The view of an optional pair.
pub open spec fn opt_pair(o: Option<ItemPair>) -> Option<(Seq<char>, Seq<char>)> {
    match o {
        Some(p) => Some(p@),
        None => None,
    }
}

fn open_pair(
    group: &GroupState,
    current: Option<(&ItemId, &ItemId)>,
    excluded: &Vec<ItemPair>,
    a: &ItemId,
    b: &ItemId,
) -> (r: bool)
    ensures
        r == is_open_pair(*group, opt_ends(current), excluded@, a@, b@),
{
    if pair_in(&group.voted_pairs, a, b) || pair_in(excluded, a, b) {
        return false;
    }
    match current {
        Some((l, r)) => !((l.same(a) && r.same(b)) || (l.same(b) && r.same(a))),
        None => true,
    }
}

/// The view of the two items of a page.
pub open spec fn opt_ends(o: Option<(&ItemId, &ItemId)>) -> Option<(Seq<char>, Seq<char>)> {
    match o {
        Some(p) => Some((p.0@, p.1@)),
        None => None,
    }
}

/// The first open pair of a pool: a pair that nobody has judged in the group, that is neither
/// the current one nor excluded.
pub fn suggest_next_pair_in_pool_excluding(
    group: &GroupState,
    pool: &Vec<ItemId>,
    current: Option<(&ItemId, &ItemId)>,
    excluded: &Vec<ItemPair>,
) -> (r: Option<ItemPair>)
    ensures
        opt_pair(r) == next_pair(*group, paths::keys(pool@), opt_ends(current), excluded@),
{
    let ghost keys = paths::keys(pool@);
    let ghost cur = opt_ends(current);
    let mut i: usize = 0;
    while i < pool.len()
        invariant
            i <= pool.len(),
            keys == paths::keys(pool@),
            cur == opt_ends(current),
            next_pair(*group, keys, cur, excluded@) == next_pair_from(
                *group,
                keys,
                cur,
                excluded@,
                i as int,
            ),
        decreases pool.len() - i,
    {
        let mut j: usize = i + 1;
        while j < pool.len()
            invariant
                i < j <= pool.len(),
                keys == paths::keys(pool@),
                cur == opt_ends(current),
                next_pair(*group, keys, cur, excluded@) == next_pair_from(
                    *group,
                    keys,
                    cur,
                    excluded@,
                    i as int,
                ),
                next_partner(*group, keys, cur, excluded@, i as int, i + 1) == next_partner(
                    *group,
                    keys,
                    cur,
                    excluded@,
                    i as int,
                    j as int,
                ),
            decreases pool.len() - j,
        {
            assert(keys[i as int] == pool@[i as int]@ && keys[j as int] == pool@[j as int]@);
            if open_pair(group, current, excluded, &pool[i], &pool[j]) {
                return Some(ItemPair { a: pool[i].copy(), b: pool[j].copy() });
            }
            j = j + 1;
        }
        i = i + 1;
    }
    None
}

proof fn lemma_next_partner(
    group: GroupState,
    pool: Seq<Seq<char>>,
    current: Option<(Seq<char>, Seq<char>)>,
    excluded: Seq<ItemPair>,
    i: int,
    j: int,
)
    requires
        0 <= j,
    ensures
        match next_partner(group, pool, current, excluded, i, j) {
            Some(k) => j <= k < pool.len() && is_open_pair(
                group,
                current,
                excluded,
                pool[i],
                pool[k],
            ),
            None => forall|k: int|
                j <= k < pool.len() ==> !is_open_pair(
                    group,
                    current,
                    excluded,
                    pool[i],
                    #[trigger] pool[k],
                ),
        },
    decreases pool.len() - j,
{
    if j < pool.len() && !is_open_pair(group, current, excluded, pool[i], pool[j]) {
        lemma_next_partner(group, pool, current, excluded, i, j + 1);
    }
}

/// Whether two places of a pool hold an open pair.
pub open spec fn open_at(
    group: GroupState,
    pool: Seq<Seq<char>>,
    current: Option<(Seq<char>, Seq<char>)>,
    excluded: Seq<ItemPair>,
    i: int,
    j: int,
) -> bool {
    is_open_pair(group, current, excluded, pool[i], pool[j])
}

proof fn lemma_next_pair_from(
    group: GroupState,
    pool: Seq<Seq<char>>,
    current: Option<(Seq<char>, Seq<char>)>,
    excluded: Seq<ItemPair>,
    n: int,
)
    requires
        0 <= n,
    ensures
        match next_pair_from(group, pool, current, excluded, n) {
            Some(p) => exists|i: int, j: int|
                n <= i < j < pool.len() && p == (pool[i], pool[j]) && #[trigger] open_at(
                    group,
                    pool,
                    current,
                    excluded,
                    i,
                    j,
                ),
            None => forall|i: int, j: int|
                n <= i < j < pool.len() ==> !#[trigger] open_at(
                    group,
                    pool,
                    current,
                    excluded,
                    i,
                    j,
                ),
        },
    decreases pool.len() - n,
{
    if n < pool.len() {
        lemma_next_partner(group, pool, current, excluded, n, n + 1);
        match next_partner(group, pool, current, excluded, n, n + 1) {
            Some(j) => {
                assert(open_at(group, pool, current, excluded, n, j));
            },
            None => {
                lemma_next_pair_from(group, pool, current, excluded, n + 1);
                assert forall|i: int, j: int|
                    n <= i < j < pool.len()
                        && next_pair_from(group, pool, current, excluded, n) is None implies !#[trigger] open_at(
                    group,
                    pool,
                    current,
                    excluded,
                    i,
                    j,
                ) by {
                    if i == n {
                        assert(!is_open_pair(group, current, excluded, pool[i], pool[j]));
                    }
                }
            },
        }
    }
}

/// The next pair is made of two members of the pool, has not been judged, and is neither the
/// current pair nor one of those excluded; and there is a next pair as long as the pool holds
/// such a pair.
pub proof fn law_next_pair_is_open(
    group: GroupState,
    pool: Seq<Seq<char>>,
    current: Option<(Seq<char>, Seq<char>)>,
    excluded: Seq<ItemPair>,
)
    ensures
        match next_pair(group, pool, current, excluded) {
            Some(p) => exists|i: int, j: int|
                0 <= i < j < pool.len() && p == (pool[i], pool[j]) && #[trigger] open_at(
                    group,
                    pool,
                    current,
                    excluded,
                    i,
                    j,
                ),
            None => forall|i: int, j: int|
                0 <= i < j < pool.len() ==> !#[trigger] open_at(
                    group,
                    pool,
                    current,
                    excluded,
                    i,
                    j,
                ),
        },
{
    lemma_next_pair_from(group, pool, current, excluded, 0);
}

/// The vote graph that a page compares in: that of an aspect of the pool where both are given
/// and it exists, else the canonical one.
pub open spec fn group_for(c: ContentState, pool: Option<Seq<char>>, aspect: Option<Seq<char>>) -> GroupState {
    match (pool, aspect) {
        (Some(scope), Some(slug)) => match state::aspect_index(c, scope, slug) {
            Some(i) => c.aspect_groups@[i].group,
            None => c.ranking_group,
        },
        _ => c.ranking_group,
    }
}

/// The vote graph that a page compares in.
pub fn vote_ranking_group<'a>(
    content: &'a ContentState,
    pool: Option<&ItemId>,
    aspect: Option<&str>,
) -> (r: &'a GroupState)
    ensures
        *r == group_for(*content, opt_key(pool), text::opt_str(aspect)),
{
    match (pool, aspect) {
        (Some(scope), Some(slug)) => match content.aspect_group(scope, slug) {
            Some(i) => &content.aspect_groups[i].group,
            None => &content.ranking_group,
        },
        _ => &content.ranking_group,
    }
}

/// The first place at which one of some keys stands in a list.
pub open spec fn first_shared(a: Seq<Seq<char>>, b: Seq<Seq<char>>, i: int) -> Option<Seq<char>>
    decreases a.len() - i,
{
    if i < 0 || i >= a.len() {
        None
    } else if b.contains(a[i]) {
        Some(a[i])
    } else {
        first_shared(a, b, i + 1)
    }
}

/// The first scope of which both items are members.
pub open spec fn shared_scope(c: ContentState, a: Seq<char>, b: Seq<char>) -> Option<Seq<char>> {
    first_shared(state::scopes_of(c, a), state::scopes_of(c, b), 0)
}

/// The first scope of which both items are members.
pub fn first_shared_scope(content: &ContentState, a: &ItemId, b: &ItemId) -> (r: Option<ItemId>)
    ensures
        match r {
            Some(s) => shared_scope(*content, a@, b@) == Some(s@),
            None => shared_scope(*content, a@, b@) is None,
        },
{
    let sa: Vec<ItemId> = content.scopes_of(a);
    let sb: Vec<ItemId> = content.scopes_of(b);
    let ghost ka = paths::keys(sa@);
    let ghost kb = paths::keys(sb@);
    let mut i: usize = 0;
    while i < sa.len()
        invariant
            i <= sa.len(),
            ka == paths::keys(sa@),
            kb == paths::keys(sb@),
            ka == state::scopes_of(*content, a@),
            kb == state::scopes_of(*content, b@),
            shared_scope(*content, a@, b@) == first_shared(ka, kb, i as int),
        decreases sa.len() - i,
    {
        assert(ka[i as int] == sa@[i as int]@);
        if paths::holds_item(&sb, &sa[i]) {
            return Some(sa[i].copy());
        }
        i = i + 1;
    }
    None
}

/// The items that can be compared with the two on a page: those of the pool, or those of the
/// first scope that the two share.
pub open spec fn compare_pool(
    c: ContentState,
    left: Seq<char>,
    right: Seq<char>,
    pool: Option<Seq<char>>,
) -> Seq<Seq<char>> {
    state::comparable_of(
        c,
        match pool {
            Some(p) => state::members_of(c, paths::leaf_key(p)),
            None => match shared_scope(c, paths::leaf_key(left), paths::leaf_key(right)) {
                Some(s) => state::members_of(c, s),
                None => Seq::empty(),
            },
        },
    )
}

/// The pair to judge after the current one.
pub open spec fn pair_after(
    c: ContentState,
    left: Seq<char>,
    right: Seq<char>,
    pool: Option<Seq<char>>,
    group: GroupState,
    excluded: Seq<ItemPair>,
) -> Option<(Seq<char>, Seq<char>)> {
    let candidates = compare_pool(c, left, right, pool);
    if candidates.len() < 2 {
        None
    } else {
        next_pair(group, candidates, Some((left, right)), excluded)
    }
}

/// The pair to judge after the current one.
pub fn suggest_next_vote_pair(
    content: &ContentState,
    current_left: &ItemId,
    current_right: &ItemId,
    pool_parent: Option<&ItemId>,
    group: &GroupState,
    excluded: &Vec<ItemPair>,
) -> (r: Option<ItemPair>)
    ensures
        opt_pair(r) == pair_after(
            *content,
            current_left@,
            current_right@,
            opt_key(pool_parent),
            *group,
            excluded@,
        ),
{
    let members: Vec<ItemId> = match pool_parent {
        Some(parent) => content.members_of(&parent.ontology_leaf()),
        None => match first_shared_scope(
            content,
            &current_left.ontology_leaf(),
            &current_right.ontology_leaf(),
        ) {
            Some(scope) => content.members_of(&scope),
            None => {
                let none: Vec<ItemId> = Vec::new();
                assert(paths::keys(none@) =~= Seq::empty());
                none
            },
        },
    };
    let pool: Vec<ItemId> = content.comparable_items(&members);
    assert(paths::keys(pool@).len() == pool@.len());
    if pool.len() < 2 {
        return None;
    }
    suggest_next_pair_in_pool_excluding(group, &pool, Some((current_left, current_right)), excluded)
}

/// The place in a filtered sequence of what stands at place `i` of the whole.
pub open spec fn place_among(v: Seq<Seq<char>>, p: spec_fn(Seq<char>) -> bool, i: int) -> int {
    v.take(i).filter(p).len() as int
}

proof fn lemma_filter_split(v: Seq<Seq<char>>, p: spec_fn(Seq<char>) -> bool, i: int)
    requires
        0 <= i < v.len(),
    ensures
        v.filter(p) == v.take(i).filter(p) + v.skip(i).filter(p),
        v.take(i + 1).filter(p) == if p(v[i]) {
            v.take(i).filter(p).push(v[i])
        } else {
            v.take(i).filter(p)
        },
{
    reveal(Seq::filter);
    assert(v =~= v.take(i) + v.skip(i));
    Seq::filter_distributes_over_add(v.take(i), v.skip(i), p);
    assert(v.take(i + 1).drop_last() =~= v.take(i));
}

/// What passes a filter stands in the filtered sequence, in the order of the whole.
proof fn lemma_filter_place(v: Seq<Seq<char>>, p: spec_fn(Seq<char>) -> bool, i: int)
    requires
        0 <= i < v.len(),
        p(v[i]),
    ensures
        0 <= place_among(v, p, i) < v.filter(p).len(),
        v.filter(p)[place_among(v, p, i)] == v[i],
        forall|j: int| i < j < v.len() ==> place_among(v, p, i) < #[trigger] place_among(v, p, j),
{
    lemma_filter_split(v, p, i);
    let n = place_among(v, p, i);
    assert forall|j: int| i < j <= v.len() implies n < #[trigger] place_among(v, p, j)
        && v.take(j).filter(p)[n] == v[i] by {
        lemma_filter_grows(v, p, i + 1, j);
    }
    assert(v.take(v.len() as int) =~= v);
    assert(n < place_among(v, p, v.len() as int));
}

proof fn lemma_filter_grows(v: Seq<Seq<char>>, p: spec_fn(Seq<char>) -> bool, i: int, j: int)
    requires
        0 <= i <= j <= v.len(),
    ensures
        place_among(v, p, i) <= place_among(v, p, j),
        forall|k: int|
            0 <= k < place_among(v, p, i) ==> v.take(i).filter(p)[k] == v.take(j).filter(p)[k],
    decreases j - i,
{
    if i < j {
        lemma_filter_grows(v, p, i, j - 1);
        lemma_filter_split(v, p, j - 1);
    }
}

proof fn lemma_filter_source(v: Seq<Seq<char>>, p: spec_fn(Seq<char>) -> bool, k: int, n: int) -> (i:
    int)
    requires
        0 <= n <= v.len(),
        0 <= k < v.take(n).filter(p).len(),
    ensures
        0 <= i < n,
        p(v[i]),
        place_among(v, p, i) == k,
        v.take(n).filter(p)[k] == v[i],
    decreases n,
{
    if n == 0 {
        reveal(Seq::filter);
        assert(false);
        0
    } else {
        lemma_filter_split(v, p, n - 1);
        if k < v.take(n - 1).filter(p).len() {
            lemma_filter_source(v, p, k, n - 1)
        } else {
            n - 1
        }
    }
}

/// The members that are put up for comparison: of the row of the pool's members, or of the first
/// row that has both items of the page.
pub open spec fn is_dealt_row(
    c: ContentState,
    left: Seq<char>,
    right: Seq<char>,
    pool: Option<Seq<char>>,
    m: int,
) -> bool {
    &&& 0 <= m < c.members_by_scope@.len()
    &&& match pool {
        Some(p) => c.members_by_scope@[m].scope@ == paths::leaf_key(p),
        None => {
            &&& paths::keys(c.members_by_scope@[m].members@).contains(paths::leaf_key(left))
            &&& paths::keys(c.members_by_scope@[m].members@).contains(paths::leaf_key(right))
            &&& forall|n: int|
                0 <= n < m ==> !(paths::keys(
                    (#[trigger] c.members_by_scope@[n]).members@,
                ).contains(paths::leaf_key(left)) && paths::keys(
                    c.members_by_scope@[n].members@,
                ).contains(paths::leaf_key(right)))
        },
    }
}

proof fn lemma_scopes_upto(c: ContentState, item: Seq<char>, n: nat, k: int) -> (m: int)
    requires
        n <= c.members_by_scope@.len(),
        0 <= k < state::scopes_of_upto(c, item, n).len(),
    ensures
        0 <= m < n,
        c.members_by_scope@[m].scope@ == state::scopes_of_upto(c, item, n)[k],
        paths::keys(c.members_by_scope@[m].members@).contains(item),
        state::scopes_of_upto(c, item, m as nat).len() == k,
    decreases n,
{
    let front = state::scopes_of_upto(c, item, (n - 1) as nat);
    if k < front.len() {
        lemma_scopes_upto(c, item, (n - 1) as nat, k)
    } else {
        n - 1
    }
}

proof fn lemma_scope_listed(c: ContentState, item: Seq<char>, n: nat, m: int)
    requires
        0 <= m < n <= c.members_by_scope@.len(),
        paths::keys(c.members_by_scope@[m].members@).contains(item),
    ensures
        state::scopes_of_upto(c, item, m as nat).len() < state::scopes_of_upto(c, item, n).len(),
        state::scopes_of_upto(c, item, n)[state::scopes_of_upto(c, item, m as nat).len() as int]
            == c.members_by_scope@[m].scope@,
    decreases n,
{
    if m < n - 1 {
        lemma_scope_listed(c, item, (n - 1) as nat, m);
    }
}

proof fn lemma_first_shared(a: Seq<Seq<char>>, b: Seq<Seq<char>>, i: int)
    requires
        0 <= i,
    ensures
        match first_shared(a, b, i) {
            Some(x) => exists|k: int|
                i <= k < a.len() && a[k] == x && b.contains(x) && (forall|j: int|
                    i <= j < k ==> !b.contains(#[trigger] a[j])),
            None => forall|j: int| i <= j < a.len() ==> !b.contains(#[trigger] a[j]),
        },
    decreases a.len() - i,
{
    if i < a.len() && !b.contains(a[i]) {
        lemma_first_shared(a, b, i + 1);
        match first_shared(a, b, i) {
            Some(x) => {
                let k = choose|k: int|
                    i + 1 <= k < a.len() && a[k] == x && b.contains(x) && (forall|j: int|
                        i + 1 <= j < k ==> !b.contains(#[trigger] a[j]));
                assert forall|j: int| i <= j < k implies !b.contains(#[trigger] a[j]) by {}
                assert(i <= k < a.len());
            },
            None => {
                assert forall|j: int| i <= j < a.len() implies !b.contains(#[trigger] a[j]) by {}
            },
        }
    }
}

/// The candidates are the members of the dealt row that can be compared; without such a row
/// there are none.
#[verifier::rlimit(50)]
proof fn lemma_candidates(
    c: ContentState,
    left: Seq<char>,
    right: Seq<char>,
    pool: Option<Seq<char>>,
)
    requires
        c.wf(),
    ensures
        forall|m: int|
            #[trigger] is_dealt_row(c, left, right, pool, m) ==> compare_pool(c, left, right, pool)
                == state::comparable_of(c, paths::keys(c.members_by_scope@[m].members@)),
        (exists|m: int| #[trigger] is_dealt_row(c, left, right, pool, m)) || compare_pool(
            c,
            left,
            right,
            pool,
        ).len() == 0,
{
    let keys = state::scope_keys(c);
    reveal(Seq::filter);
    match pool {
        Some(p) => {
            let scope = paths::leaf_key(p);
            text::lemma_position(keys, scope);
            assert forall|m: int| #[trigger] is_dealt_row(c, left, right, pool, m) implies compare_pool(
                c,
                left,
                right,
                pool,
            ) == state::comparable_of(c, paths::keys(c.members_by_scope@[m].members@)) by {
                assert(keys[m] == scope);
            }
            match text::position(keys, scope) {
                Some(i) => {
                    assert(keys[i] == scope);
                    assert(is_dealt_row(c, left, right, pool, i));
                },
                None => {},
            }
        },
        None => {
            let l = paths::leaf_key(left);
            let r = paths::leaf_key(right);
            let n = c.members_by_scope@.len();
            let sl = state::scopes_of(c, l);
            let sr = state::scopes_of(c, r);
            lemma_first_shared(sl, sr, 0);
            match first_shared(sl, sr, 0) {
                Some(x) => {
                    let k = choose|k: int|
                        0 <= k < sl.len() && sl[k] == x && sr.contains(x) && (forall|j: int|
                            0 <= j < k ==> !sr.contains(#[trigger] sl[j]));
                    let m = lemma_scopes_upto(c, l, n, k);
                    let q = choose|q: int| 0 <= q < sr.len() && sr[q] == x;
                    let m2 = lemma_scopes_upto(c, r, n, q);
                    assert(keys[m] == x && keys[m2] == x);
                    assert(m == m2);
                    assert forall|j: int| 0 <= j < m implies !(paths::keys(
                        (#[trigger] c.members_by_scope@[j]).members@,
                    ).contains(l) && paths::keys(c.members_by_scope@[j].members@).contains(r)) by {
                        if paths::keys(c.members_by_scope@[j].members@).contains(l) && paths::keys(
                            c.members_by_scope@[j].members@,
                        ).contains(r) {
                            lemma_scope_listed(c, l, n, j);
                            lemma_scope_listed(c, r, n, j);
                            lemma_scope_listed(c, l, m as nat, j);
                            let at = state::scopes_of_upto(c, l, j as nat).len() as int;
                            assert(at < k);
                            assert(sl[at] == c.members_by_scope@[j].scope@);
                            assert(sr.contains(sl[at]));
                        }
                    }
                    assert(is_dealt_row(c, left, right, pool, m));
                    text::lemma_position(keys, x);
                    assert(text::position(keys, x) == Some(m));
                    assert forall|j: int| #[trigger] is_dealt_row(c, left, right, pool, j) implies j
                        == m by {
                        if j < m {
                            assert(!(paths::keys(c.members_by_scope@[j].members@).contains(l)
                                && paths::keys(c.members_by_scope@[j].members@).contains(r)));
                        }
                        if m < j {
                            assert(!(paths::keys(c.members_by_scope@[m].members@).contains(l)
                                && paths::keys(c.members_by_scope@[m].members@).contains(r)));
                        }
                    }
                },
                None => {
                    assert forall|m: int| !#[trigger] is_dealt_row(c, left, right, pool, m) by {
                        if is_dealt_row(c, left, right, pool, m) {
                            lemma_scope_listed(c, l, n, m);
                            lemma_scope_listed(c, r, n, m);
                            let at = state::scopes_of_upto(c, l, m as nat).len() as int;
                            assert(sr.contains(sl[at]));
                        }
                    }
                },
            }
        },
    }
}

/// Whether the members at two places of a row can be put up next: both can be compared, nobody
/// has judged the two, they are not skipped, and they are not the pair on the page, whichever of
/// the two is named first.
pub open spec fn can_be_dealt(
    c: ContentState,
    left: Seq<char>,
    right: Seq<char>,
    group: GroupState,
    excluded: Seq<ItemPair>,
    m: int,
    i: int,
    j: int,
) -> bool {
    let a = c.members_by_scope@[m].members@[i]@;
    let b = c.members_by_scope@[m].members@[j]@;
    &&& 0 <= i < j < c.members_by_scope@[m].members@.len()
    &&& exists|k: int| 0 <= k < c.comparable@.len() && (#[trigger] c.comparable@[k])@ == a
    &&& exists|k: int| 0 <= k < c.comparable@.len() && (#[trigger] c.comparable@[k])@ == b
    &&& !(a == left && b == right)
    &&& !(a == right && b == left)
    &&& forall|k: int|
        0 <= k < group.voted_pairs@.len() ==> {
            let v = #[trigger] group.voted_pairs@[k];
            !(v.a@ == a && v.b@ == b) && !(v.a@ == b && v.b@ == a)
        }
    &&& forall|k: int|
        0 <= k < excluded.len() ==> {
            let v = #[trigger] excluded[k];
            !(v.a@ == a && v.b@ == b) && !(v.a@ == b && v.b@ == a)
        }
}

proof fn lemma_comparable(c: ContentState, x: Seq<char>)
    ensures
        paths::keys(c.comparable@).contains(x) <==> exists|k: int|
            0 <= k < c.comparable@.len() && (#[trigger] c.comparable@[k])@ == x,
{
    let ks = paths::keys(c.comparable@);
    if ks.contains(x) {
        let k = choose|k: int| 0 <= k < ks.len() && ks[k] == x;
        assert(c.comparable@[k]@ == x);
    }
    if exists|k: int| 0 <= k < c.comparable@.len() && (#[trigger] c.comparable@[k])@ == x {
        let k = choose|k: int| 0 <= k < c.comparable@.len() && (#[trigger] c.comparable@[k])@ == x;
        assert(ks[k] == x);
    }
}

proof fn lemma_first_partner(
    group: GroupState,
    pool: Seq<Seq<char>>,
    current: Option<(Seq<char>, Seq<char>)>,
    excluded: Seq<ItemPair>,
    i: int,
    j: int,
)
    requires
        0 <= j,
    ensures
        match next_partner(group, pool, current, excluded, i, j) {
            Some(k) => forall|x: int|
                j <= x < k ==> !#[trigger] open_at(group, pool, current, excluded, i, x),
            None => true,
        },
    decreases pool.len() - j,
{
    if j < pool.len() && !is_open_pair(group, current, excluded, pool[i], pool[j]) {
        lemma_first_partner(group, pool, current, excluded, i, j + 1);
    }
}

/// Whether a place of a pair comes before another, by its first item and then by its second.
pub open spec fn comes_first(i: int, j: int, x: int, y: int) -> bool {
    i < x || (i == x && j <= y)
}

proof fn lemma_first_pair(
    group: GroupState,
    pool: Seq<Seq<char>>,
    current: Option<(Seq<char>, Seq<char>)>,
    excluded: Seq<ItemPair>,
    n: int,
) -> (r: (int, int))
    requires
        0 <= n,
        next_pair_from(group, pool, current, excluded, n) is Some,
    ensures
        n <= r.0 < r.1 < pool.len(),
        next_pair_from(group, pool, current, excluded, n) == Some((pool[r.0], pool[r.1])),
        open_at(group, pool, current, excluded, r.0, r.1),
        forall|x: int, y: int|
            n <= x < y < pool.len() && #[trigger] open_at(group, pool, current, excluded, x, y)
                ==> comes_first(r.0, r.1, x, y),
    decreases pool.len() - n,
{
    lemma_next_partner(group, pool, current, excluded, n, n + 1);
    lemma_first_partner(group, pool, current, excluded, n, n + 1);
    match next_partner(group, pool, current, excluded, n, n + 1) {
        Some(j) => {
            assert(open_at(group, pool, current, excluded, n, j));
            (n, j)
        },
        None => {
            let r = lemma_first_pair(group, pool, current, excluded, n + 1);
            assert forall|x: int, y: int|
                n <= x < y < pool.len() && #[trigger] open_at(
                    group,
                    pool,
                    current,
                    excluded,
                    x,
                    y,
                ) implies comes_first(r.0, r.1, x, y) by {
                if x == n {
                    assert(!is_open_pair(group, current, excluded, pool[n], pool[y]));
                }
            }
            r
        },
    }
}

/// The pair to judge after the one on the page is made of two members of the collection that is
/// dealt from, both of which can be compared; nobody has judged it in the group, it is not among
/// the excluded pairs, and it is not the pair on the page, in either order. Of the pairs of which
/// this is true it is the first, by the places of its two members; and there is a next pair
/// exactly where there is one of which it is true.
#[verifier::rlimit(50)]
pub proof fn law_next_vote_pair(
    c: ContentState,
    left: Seq<char>,
    right: Seq<char>,
    pool: Option<Seq<char>>,
    group: GroupState,
    excluded: Seq<ItemPair>,
)
    requires
        c.wf(),
    ensures
        match pair_after(c, left, right, pool, group, excluded) {
            Some(p) => {
                &&& p != (left, right)
                &&& p != (right, left)
                &&& forall|k: int|
                    0 <= k < group.voted_pairs@.len() ==> {
                        let v = #[trigger] group.voted_pairs@[k];
                        !(v.a@ == p.0 && v.b@ == p.1) && !(v.a@ == p.1 && v.b@ == p.0)
                    }
                &&& forall|k: int|
                    0 <= k < excluded.len() ==> {
                        let v = #[trigger] excluded[k];
                        !(v.a@ == p.0 && v.b@ == p.1) && !(v.a@ == p.1 && v.b@ == p.0)
                    }
                &&& exists|m: int, i: int, j: int|
                    #![trigger can_be_dealt(c, left, right, group, excluded, m, i, j)]
                    is_dealt_row(c, left, right, pool, m) && can_be_dealt(
                        c,
                        left,
                        right,
                        group,
                        excluded,
                        m,
                        i,
                        j,
                    ) && p == (
                        c.members_by_scope@[m].members@[i]@,
                        c.members_by_scope@[m].members@[j]@,
                    ) && (forall|x: int, y: int|
                        #[trigger] can_be_dealt(c, left, right, group, excluded, m, x, y)
                            ==> i < x || (i == x && j <= y))
            },
            None => forall|m: int, i: int, j: int|
                is_dealt_row(c, left, right, pool, m) ==> !#[trigger] can_be_dealt(
                    c,
                    left,
                    right,
                    group,
                    excluded,
                    m,
                    i,
                    j,
                ),
        },
{
    lemma_candidates(c, left, right, pool);
    let cand = compare_pool(c, left, right, pool);
    let cur = Some((left, right));
    let f = |k: Seq<char>| paths::keys(c.comparable@).contains(k);
    if exists|m: int| #[trigger] is_dealt_row(c, left, right, pool, m) {
        let m = choose|m: int| #[trigger] is_dealt_row(c, left, right, pool, m);
        let ms = paths::keys(c.members_by_scope@[m].members@);
        assert(cand == ms.filter(f));
        assert forall|n: int| #[trigger] is_dealt_row(c, left, right, pool, n) implies n == m by {
            if pool is Some {
                assert(state::scope_keys(c)[n] == state::scope_keys(c)[m]);
            } else if n < m {
                assert(paths::keys(c.members_by_scope@[n].members@).contains(paths::leaf_key(left)));
            } else if m < n {
                assert(paths::keys(c.members_by_scope@[m].members@).contains(paths::leaf_key(left)));
            }
        }
        assert forall|i: int, j: int| 0 <= i < j < ms.len() && f(ms[i]) && f(ms[j]) implies (
        #[trigger] can_be_dealt(c, left, right, group, excluded, m, i, j) <==> open_at(
            group,
            cand,
            cur,
            excluded,
            place_among(ms, f, i),
            place_among(ms, f, j),
        )) && place_among(ms, f, i) < place_among(ms, f, j) < cand.len() by {
            lemma_filter_place(ms, f, i);
            lemma_filter_place(ms, f, j);
            let a = ms[i];
            let b = ms[j];
            lemma_comparable(c, a);
            lemma_comparable(c, b);
            assert(cand[place_among(ms, f, i)] == a && cand[place_among(ms, f, j)] == b);
            assert(joins((left, right), a, b) <==> (a == left && b == right) || (a == right && b
                == left));
            lemma_holds_pair(group.voted_pairs@, a, b);
            lemma_holds_pair(excluded, a, b);
        }
        assert forall|i: int, j: int|
            #[trigger] can_be_dealt(c, left, right, group, excluded, m, i, j) implies f(ms[i])
            && f(ms[j]) && 0 <= i < j < ms.len() by {
            lemma_comparable(c, ms[i]);
            lemma_comparable(c, ms[j]);
        }
        match pair_after(c, left, right, pool, group, excluded) {
            Some(p) => {
                let (u, w) = lemma_first_pair(group, cand, cur, excluded, 0);
                assert(ms.take(ms.len() as int) =~= ms);
                let i = lemma_filter_source(ms, f, u, ms.len() as int);
                let j = lemma_filter_source(ms, f, w, ms.len() as int);
                if j < i {
                    lemma_filter_place(ms, f, j);
                }
                assert(i < j);
                assert(can_be_dealt(c, left, right, group, excluded, m, i, j));
                assert(p == (ms[i], ms[j]));
                assert forall|x: int, y: int|
                    #[trigger] can_be_dealt(c, left, right, group, excluded, m, x, y) implies i < x
                    || (i == x && j <= y) by {
                    assert(f(ms[x]) && f(ms[y]));
                    let px = place_among(ms, f, x);
                    let py = place_among(ms, f, y);
                    assert(open_at(group, cand, cur, excluded, px, py));
                    assert(comes_first(u, w, px, py));
                    lemma_filter_place(ms, f, i);
                    lemma_filter_place(ms, f, j);
                    lemma_filter_place(ms, f, x);
                    lemma_filter_place(ms, f, y);
                }
            },
            None => {
                lemma_next_pair_from(group, cand, cur, excluded, 0);
                assert forall|n: int, i: int, j: int|
                    is_dealt_row(c, left, right, pool, n) implies !#[trigger] can_be_dealt(
                    c,
                    left,
                    right,
                    group,
                    excluded,
                    n,
                    i,
                    j,
                ) by {
                    if can_be_dealt(c, left, right, group, excluded, n, i, j) {
                        assert(n == m);
                        assert(f(ms[i]) && f(ms[j]));
                        assert(open_at(
                            group,
                            cand,
                            cur,
                            excluded,
                            place_among(ms, f, i),
                            place_among(ms, f, j),
                        ));
                    }
                }
            },
        }
    }
}

/// A list holds a pair where one of its pairs has the two items for its ends, in either order.
pub proof fn lemma_holds_pair(v: Seq<ItemPair>, a: Seq<char>, b: Seq<char>)
    ensures
        !holds_pair(v, a, b) <==> forall|k: int|
            0 <= k < v.len() ==> {
                let p = #[trigger] v[k];
                !(p.a@ == a && p.b@ == b) && !(p.a@ == b && p.b@ == a)
            },
{
    if !holds_pair(v, a, b) {
        assert forall|k: int| 0 <= k < v.len() implies {
            let p = #[trigger] v[k];
            !(p.a@ == a && p.b@ == b) && !(p.a@ == b && p.b@ == a)
        } by {
            assert(!joins(v[k]@, a, b));
        }
    }
    if forall|k: int|
        0 <= k < v.len() ==> {
            let p = #[trigger] v[k];
            !(p.a@ == a && p.b@ == b) && !(p.a@ == b && p.b@ == a)
        } {
        if holds_pair(v, a, b) {
            let i = choose|i: int| 0 <= i < v.len() && joins((#[trigger] v[i])@, a, b);
            assert(false);
        }
    }
}

// ---------------------------------------------------------------------------
// Skipped pairs
// ---------------------------------------------------------------------------

/// A pair that a reader has skipped.
pub struct VoteSkipEntry {
    pub lo: ItemId,
    pub hi: ItemId,
    pub pool: Option<ItemId>,
    pub aspect: Option<String>,
    pub ts: i64,
}

/// The pairs skipped under an aspect, or under none.
pub open spec fn skipped_upto(entries: Seq<VoteSkipEntry>, aspect: Option<Seq<char>>, n: int) -> Seq<
    (Seq<char>, Seq<char>),
>
    decreases n,
{
    if n <= 0 {
        Seq::empty()
    } else {
        let e = entries[n - 1];
        let front = skipped_upto(entries, aspect, n - 1);
        if text::opt_view(e.aspect) == aspect {
            front.push((e.lo@, e.hi@))
        } else {
            front
        }
    }
}

/// The pairs that a reader has skipped under an aspect, or under none.
pub fn skipped_pairs(entries: &Vec<VoteSkipEntry>, aspect: Option<&str>) -> (r: Vec<ItemPair>)
    ensures
        state::rows(r@) == skipped_upto(entries@, text::opt_str(aspect), entries@.len() as int),
{
    let ghost want = text::opt_str(aspect);
    let mut r: Vec<ItemPair> = Vec::new();
    let mut i: usize = 0;
    assert(state::rows(r@) =~= skipped_upto(entries@, want, 0));
    while i < entries.len()
        invariant
            i <= entries.len(),
            want == text::opt_str(aspect),
            state::rows(r@) == skipped_upto(entries@, want, i as int),
        decreases entries.len() - i,
    {
        let e: &VoteSkipEntry = &entries[i];
        let hit: bool = match (&e.aspect, aspect) {
            (Some(a), Some(b)) => text::same(a.as_str(), b),
            (None, None) => true,
            _ => false,
        };
        if hit {
            let p = ItemPair { a: e.lo.copy(), b: e.hi.copy() };
            proof {
                state::lemma_rows_push(r@, p);
            }
            r.push(p);
        }
        i = i + 1;
    }
    r
}

/// Whether a reader has skipped a pair under an aspect.
pub open spec fn has_skipped(
    entries: Seq<VoteSkipEntry>,
    aspect: Option<Seq<char>>,
    a: Seq<char>,
    b: Seq<char>,
) -> bool {
    exists|i: int|
        0 <= i < entries.len() && text::opt_view((#[trigger] entries[i]).aspect) == aspect && joins(
            (entries[i].lo@, entries[i].hi@),
            a,
            b,
        )
}

/// Whether some of the pairs skipped so far is the pair of two items.
pub open spec fn holds_ends(v: Seq<(Seq<char>, Seq<char>)>, a: Seq<char>, b: Seq<char>) -> bool {
    exists|i: int| 0 <= i < v.len() && joins(#[trigger] v[i], a, b)
}

proof fn lemma_skipped(entries: Seq<VoteSkipEntry>, aspect: Option<Seq<char>>, n: int, k: int)
    requires
        0 <= k < n <= entries.len(),
        text::opt_view(entries[k].aspect) == aspect,
    ensures
        skipped_upto(entries, aspect, n).contains((entries[k].lo@, entries[k].hi@)),
    decreases n,
{
    let e = (entries[k].lo@, entries[k].hi@);
    let all = skipped_upto(entries, aspect, n);
    let front = skipped_upto(entries, aspect, n - 1);
    if k == n - 1 {
        assert(all.last() == e);
    } else {
        lemma_skipped(entries, aspect, n - 1, k);
        let i = choose|i: int| 0 <= i < front.len() && front[i] == e;
        assert(all[i] == e);
    }
}

/// The pair put up next is never one that the reader has skipped under the same aspect.
pub proof fn law_skipped_pairs_are_not_dealt(
    group: GroupState,
    pool: Seq<Seq<char>>,
    current: Option<(Seq<char>, Seq<char>)>,
    entries: Seq<VoteSkipEntry>,
    aspect: Option<Seq<char>>,
    excluded: Seq<ItemPair>,
)
    requires
        state::rows(excluded) == skipped_upto(entries, aspect, entries.len() as int),
    ensures
        match next_pair(group, pool, current, excluded) {
            Some(p) => !has_skipped(entries, aspect, p.0, p.1),
            None => true,
        },
{
    law_next_pair_is_open(group, pool, current, excluded);
    match next_pair(group, pool, current, excluded) {
        Some(p) => {
            assert(!holds_pair(excluded, p.0, p.1));
            if has_skipped(entries, aspect, p.0, p.1) {
                let k = choose|k: int|
                    0 <= k < entries.len() && text::opt_view((#[trigger] entries[k]).aspect)
                        == aspect && joins((entries[k].lo@, entries[k].hi@), p.0, p.1);
                lemma_skipped(entries, aspect, entries.len() as int, k);
                let all = state::rows(excluded);
                let i = choose|i: int|
                    0 <= i < all.len() && all[i] == (entries[k].lo@, entries[k].hi@);
                assert(joins(excluded[i]@, p.0, p.1));
                assert(false);
            }
        },
        None => {},
    }
}

/// Where a reader goes after skipping a pair: to the next open pair, or to the landing page.
pub open spec fn skip_target(
    nav: NavModel,
    c: ContentState,
    left: Seq<char>,
    right: Seq<char>,
    pool: Option<Seq<char>>,
    aspect: Option<Seq<char>>,
    excluded: Seq<ItemPair>,
) -> Seq<char> {
    match pair_after(c, left, right, pool, group_for(c, pool, aspect), excluded) {
        Some(p) => compare_href(nav, p.0, p.1, None, pool, aspect),
        None => nav::vote_prefix(nav) + "/vote"@,
    }
}

/// Where a reader goes after skipping a pair.
pub fn vote_skip_redirect_href(
    nav: &ThreadNav,
    content: &ContentState,
    left: &ItemId,
    right: &ItemId,
    pool: Option<&ItemId>,
    aspect: Option<&str>,
    excluded: &Vec<ItemPair>,
) -> (r: String)
    ensures
        r@ == skip_target(
            nav@,
            *content,
            left@,
            right@,
            opt_key(pool),
            text::opt_str(aspect),
            excluded@,
        ),
{
    let group: &GroupState = vote_ranking_group(content, pool, aspect);
    match suggest_next_vote_pair(content, left, right, pool, group, excluded) {
        Some(p) => vote_compare_href(nav, &p.a, &p.b, None, pool, aspect),
        None => {
            let prefix: String = nav.room_path_prefix_for_vote_compare();
            text::cat(prefix.as_str(), "/vote")
        },
    }
}

/// What stands behind a skipped pair: its aspect and its pool.
pub open spec fn skip_note(aspect: Option<Seq<char>>, pool: Option<Seq<char>>) -> Seq<char> {
    match (aspect, pool) {
        (Some(a), Some(p)) => ":"@ + a + " in "@ + garden::shown_path(p),
        (Some(a), None) => ":"@ + a,
        (None, Some(p)) => garden::shown_path(p),
        (None, None) => Seq::empty(),
    }
}

/// A row of the list of skipped pairs.
pub struct SkippedRow {
    pub href: String,
    pub left: String,
    pub right: String,
    pub note: String,
}

/// The view of an optional owned item.
pub open spec fn opt_item(o: Option<ItemId>) -> Option<Seq<char>> {
    match o {
        Some(i) => Some(i@),
        None => None,
    }
}

/// The row of a skipped pair.
pub fn skipped_row(nav: &ThreadNav, e: &VoteSkipEntry) -> (r: SkippedRow)
    ensures
        r.href@ == compare_href(
            nav@,
            e.lo@,
            e.hi@,
            None,
            opt_item(e.pool),
            text::opt_view(e.aspect),
        ),
        r.left@ == garden::shown_path(e.lo@),
        r.right@ == garden::shown_path(e.hi@),
        r.note@ == skip_note(text::opt_view(e.aspect), opt_item(e.pool)),
{
    let pool: Option<&ItemId> = match &e.pool {
        Some(p) => Some(p),
        None => None,
    };
    let aspect: Option<&str> = match &e.aspect {
        Some(a) => Some(a.as_str()),
        None => None,
    };
    let note: String = match (&e.aspect, &e.pool) {
        (Some(a), Some(p)) => {
            let shown: String = garden::item_display_path(p.as_str());
            text::cat4(":", a.as_str(), " in ", shown.as_str())
        },
        (Some(a), None) => text::cat(":", a.as_str()),
        (None, Some(p)) => garden::item_display_path(p.as_str()),
        (None, None) => {
            let none: String = String::new();
            assert(none@ =~= Seq::empty());
            none
        },
    };
    SkippedRow {
        href: vote_compare_href(nav, &e.lo, &e.hi, None, pool, aspect),
        left: garden::item_display_path(e.lo.as_str()),
        right: garden::item_display_path(e.hi.as_str()),
        note,
    }
}

/// The votes on a pair are those of the recorded votes whose ends are the two items, whichever
/// of them the vote names first, in the order in which they were recorded.
pub proof fn law_votes_on_a_pair(c: ContentState, a: Seq<char>, b: Seq<char>)
    ensures
        edge_votes(c, a, b) == state::rows(c.votes@).filter(
            |v: VoteModel|
                (v.a == paths::normal_key(a) && v.b == paths::normal_key(b)) || (v.a
                    == paths::normal_key(b) && v.b == paths::normal_key(a)),
        ),
{
    let all = state::rows(c.votes@);
    let e = edge_of(a, b);
    lemma_votes_between(all, e.0, e.1);
    let f = |v: VoteModel| (v.a == e.0 && v.b == e.1) || (v.a == e.1 && v.b == e.0);
    let g = |v: VoteModel|
        (v.a == paths::normal_key(a) && v.b == paths::normal_key(b)) || (v.a == paths::normal_key(b)
            && v.b == paths::normal_key(a));
    lemma_same_filter(all, f, g);
}

proof fn lemma_same_filter(
    v: Seq<VoteModel>,
    f: spec_fn(VoteModel) -> bool,
    g: spec_fn(VoteModel) -> bool,
)
    requires
        forall|x: VoteModel| #[trigger] f(x) == g(x),
    ensures
        v.filter(f) == v.filter(g),
    decreases v.len(),
{
    reveal(Seq::filter);
    if v.len() > 0 {
        lemma_same_filter(v.drop_last(), f, g);
        assert(f(v.last()) == g(v.last()));
    }
}

proof fn lemma_votes_between(votes: Seq<VoteModel>, a: Seq<char>, b: Seq<char>)
    ensures
        votes_between(votes, a, b) == votes.filter(
            |v: VoteModel| (v.a == a && v.b == b) || (v.a == b && v.b == a),
        ),
    decreases votes.len(),
{
    reveal(Seq::filter);
    if votes.len() > 0 {
        lemma_votes_between(votes.drop_last(), a, b);
    }
    assert(votes_between(votes, a, b) =~= votes.filter(
        |v: VoteModel| (v.a == a && v.b == b) || (v.a == b && v.b == a),
    ));
}

/// A vote that names the left item of a page first shows its ratio as it was given, and one that
/// names the right item first shows it turned round.
pub proof fn law_ratio_on_a_page(v: VoteModel, left: Seq<char>, right: Seq<char>)
    requires
        left != right,
    ensures
        v.a == left && v.b == right ==> page_ratio(v, left, right) == (v.ratio_left, v.ratio_right),
        v.a == right && v.b == left ==> page_ratio(v, left, right) == (v.ratio_right, v.ratio_left),
{
}

/// A page lists every vote that it was given, and no other.
pub proof fn law_display_keeps_the_votes(
    votes: Seq<VoteModel>,
    left: Seq<char>,
    right: Seq<char>,
    v: VoteModel,
)
    ensures
        display_order(votes, left, right).len() == votes.len(),
        display_order(votes, left, right).contains(v) <==> votes.contains(v),
{
    sort::lemma_sorted_rows(votes, display_keys(votes, left, right));
}

/// The threads of a pair are those that mention either item, each once and in order; a vote goes
/// by itself to the first of them, or to `vote` where there is none.
pub proof fn law_threads_of_a_pair(c: ContentState, a: Seq<char>, b: Seq<char>, t: Seq<char>)
    ensures
        pair_threads(c, a, b).contains(t) <==> state::threads_of(c, a).contains(t)
            || state::threads_of(c, b).contains(t),
        forall|i: int, j: int|
            0 <= i < j < pair_threads(c, a, b).len() ==> text::text_lt(
                #[trigger] pair_threads(c, a, b)[i],
                #[trigger] pair_threads(c, a, b)[j],
            ),
        state::threads_of(c, a).len() == 0 && state::threads_of(c, b).len() == 0 ==> auto_thread(
            c,
            a,
            b,
        ) == "vote"@,
        state::threads_of(c, a).contains(t) || state::threads_of(c, b).contains(t) ==> exists|u: Seq<
            char,
        >|
            (state::threads_of(c, a).contains(u) || state::threads_of(c, b).contains(u))
                && #[trigger] nav::canonical_tag(u) == auto_thread(c, a, b) && !text::text_lt(t, u),
{
    let x = state::threads_of(c, a);
    let y = state::threads_of(c, b);
    let all = x + y;
    let set = pair_threads(c, a, b);
    sort::law_sorted_set(all);
    assert forall|z: Seq<char>| #[trigger] all.contains(z) <==> x.contains(z) || y.contains(z) by {
        if all.contains(z) {
            let k = choose|k: int| 0 <= k < all.len() && all[k] == z;
            if k < x.len() {
                assert(x[k] == z);
            } else {
                assert(y[k - x.len()] == z);
            }
        }
        if x.contains(z) {
            let k = choose|k: int| 0 <= k < x.len() && x[k] == z;
            assert(all[k] == z);
        }
        if y.contains(z) {
            let k = choose|k: int| 0 <= k < y.len() && y[k] == z;
            assert(all[x.len() + k] == z);
        }
    }
    assert(set.contains(t) <==> all.contains(t));
    if x.len() == 0 && y.len() == 0 {
        if set.len() > 0 {
            assert(set.contains(set[0]));
            assert(all.contains(set[0]));
        }
    }
    if all.contains(t) {
        assert(set.contains(t));
        let k = choose|k: int| 0 <= k < set.len() && set[k] == t;
        let u = set[0];
        assert(set.contains(u));
        assert(all.contains(u));
        text::lemma_text_order(t, u);
        if k > 0 {
            assert(text::text_lt(set[0], set[k]));
        }
        assert(nav::canonical_tag(u) == auto_thread(c, a, b));
    }
}

/// The pairs that are left out for a reader are those skipped under the same aspect, in the
/// order in which they were skipped.
pub proof fn law_skips_go_by_aspect(
    entries: Seq<VoteSkipEntry>,
    aspect: Option<Seq<char>>,
    p: (Seq<char>, Seq<char>),
)
    ensures
        skipped_upto(entries, aspect, entries.len() as int).contains(p) <==> exists|i: int|
            0 <= i < entries.len() && (#[trigger] entries[i]).lo@ == p.0 && entries[i].hi@ == p.1
                && text::opt_view(entries[i].aspect) == aspect,
{
    lemma_skips(entries, aspect, entries.len() as int, p);
}

proof fn lemma_skips(
    entries: Seq<VoteSkipEntry>,
    aspect: Option<Seq<char>>,
    n: int,
    p: (Seq<char>, Seq<char>),
)
    requires
        0 <= n <= entries.len(),
    ensures
        skipped_upto(entries, aspect, n).contains(p) <==> exists|i: int|
            0 <= i < n && (#[trigger] entries[i]).lo@ == p.0 && entries[i].hi@ == p.1
                && text::opt_view(entries[i].aspect) == aspect,
    decreases n,
{
    if n > 0 {
        lemma_skips(entries, aspect, n - 1, p);
        let front = skipped_upto(entries, aspect, n - 1);
        let all = skipped_upto(entries, aspect, n);
        if all.contains(p) {
            let k = choose|k: int| 0 <= k < all.len() && all[k] == p;
            if k < front.len() {
                assert(front[k] == p);
                assert(front.contains(p));
            } else {
                assert(entries[n - 1].lo@ == p.0);
            }
        }
        if front.contains(p) {
            let k = choose|k: int| 0 <= k < front.len() && front[k] == p;
            assert(all[k] == p);
        }
        if text::opt_view(entries[n - 1].aspect) == aspect {
            assert(all[all.len() - 1] == (entries[n - 1].lo@, entries[n - 1].hi@));
        }
    }
}

/// A page compares in the vote graph of an aspect where it has a pool that votes under that
/// aspect, and in the canonical graph otherwise.
pub proof fn law_graph_of_a_page(c: ContentState, pool: Seq<char>, slug: Seq<char>, at: int)
    requires
        c.wf(),
        0 <= at < c.aspect_groups@.len(),
        c.aspect_groups@[at].scope@ == pool,
        c.aspect_groups@[at].slug@ == slug,
    ensures
        group_for(c, Some(pool), Some(slug)) == c.aspect_groups@[at].group,
        group_for(c, Some(pool), None) == c.ranking_group,
        group_for(c, None, Some(slug)) == c.ranking_group,
        group_for(c, None, None) == c.ranking_group,
{
    state::law_pairs_are_found_by_both_names(c, pool, slug, at);
}

/// After a skip a reader is led to a pair that is neither the one on the page nor excluded, with
/// the pool and the aspect kept; or to the landing page of the scope where there is none.
pub proof fn law_skip_leads_on(
    nav: NavModel,
    c: ContentState,
    left: Seq<char>,
    right: Seq<char>,
    pool: Option<Seq<char>>,
    aspect: Option<Seq<char>>,
    excluded: Seq<ItemPair>,
)
    requires
        c.wf(),
    ensures
        match pair_after(c, left, right, pool, group_for(c, pool, aspect), excluded) {
            Some(p) => p != (left, right) && p != (right, left) && skip_target(
                nav,
                c,
                left,
                right,
                pool,
                aspect,
                excluded,
            ) == compare_href(nav, p.0, p.1, None, pool, aspect),
            None => skip_target(nav, c, left, right, pool, aspect, excluded) == nav::vote_prefix(nav)
                + "/vote"@,
        },
{
    law_next_vote_pair(c, left, right, pool, group_for(c, pool, aspect), excluded);
}

/// The URL of a compare page names the left item, then the right one, and then what else is
/// given: the thread, the pool and the aspect.
pub proof fn law_compare_urls(
    nav: NavModel,
    l: Seq<char>,
    r: Seq<char>,
    t: Seq<char>,
    p: Seq<char>,
    a: Seq<char>,
)
    requires
        t.len() > 0,
        a.len() > 0,
    ensures
        compare_href(nav, l, r, None, None, None) == nav::vote_prefix(nav) + "/vote?left="@
            + outside::percent(paths::display(l)) + "&right="@ + outside::percent(paths::display(r)),
        compare_href(nav, l, r, Some(t), Some(p), Some(a)) == compare_href(nav, l, r, None, None, None)
            + "&thread="@ + outside::percent(t) + "&pool="@ + outside::percent(paths::display(p))
            + "&aspect="@ + outside::percent(a),
        compare_href(nav, l, r, None, Some(p), None) == compare_href(nav, l, r, None, None, None)
            + "&pool="@ + outside::percent(paths::display(p)),
{
    let none = Seq::<char>::empty();
    let base = nav::vote_prefix(nav) + "/vote?left="@ + outside::percent(paths::display(l))
        + "&right="@ + outside::percent(paths::display(r));
    assert(compare_href(nav, l, r, None, None, None) =~= base);
    assert(compare_href(nav, l, r, Some(t), Some(p), Some(a)) =~= base + "&thread="@
        + outside::percent(t) + "&pool="@ + outside::percent(paths::display(p)) + "&aspect="@
        + outside::percent(a));
    assert(compare_href(nav, l, r, None, Some(p), None) =~= base + "&pool="@ + outside::percent(
        paths::display(p),
    ));
}

/// The URL at which a pool deals pairs, and what stands behind a skipped pair.
pub proof fn law_pools_and_skips(nav: NavModel, t: Seq<char>, a: Seq<char>, p: Seq<char>)
    requires
        paths::is_bare(t),
    ensures
        pool_href(nav, "~/"@ + t) == nav::vote_prefix(nav) + "/vote?pool="@ + outside::percent(
            "~/"@ + t,
        ),
        skip_note(Some(a), Some(p)) == ":"@ + a + " in "@ + garden::shown_path(p),
        skip_note(Some(a), None) == ":"@ + a,
        skip_note(None, Some(p)) == garden::shown_path(p),
        skip_note(None, None).len() == 0,
{
    paths::law_ontology_items(t);
}

/// The threads of a pair are offered under their stored names, in their order.
pub proof fn law_canonical_tags(v: Seq<Seq<char>>, i: int)
    ensures
        canonical_tags(v).len() == v.len(),
        0 <= i < v.len() ==> canonical_tags(v)[i] == nav::canonical_tag(v[i]),
{
}

/// A quotient is rounded to a nearest integer.
pub proof fn law_rounding(n: int, d: int)
    requires
        0 <= n,
        0 < d,
    ensures
        2 * n - d <= 2 * (rounded_quotient(n, d) * d) <= 2 * n + d,
{
    let q = n / d;
    let r = n % d;
    assert(n == d * q + r && 0 <= r < d) by (nonlinear_arith)
        requires
            d > 0,
            q == n / d,
            r == n % d,
    ;
    assert(d * q == q * d) by (nonlinear_arith);
    assert((q + 1) * d == q * d + d) by (nonlinear_arith);
}

} // verus!
