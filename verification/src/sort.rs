//! A stable ordering of rows by a key.

use vstd::prelude::*;

use crate::text;

verus! {

/// What a row is ordered by: two numbers, then a text, each ascending.
pub struct SortKey {
    pub major: i128,
    pub minor: i128,
    pub text: String,
}

/// The mathematical value of a [`SortKey`].
pub struct Key {
    pub major: int,
    pub minor: int,
    pub text: Seq<char>,
}

impl View for SortKey {
    type V = Key;

    open spec fn view(&self) -> Key {
        Key { major: self.major as int, minor: self.minor as int, text: self.text@ }
    }
}

/// The keys of a list.
pub open spec fn key_views(v: Seq<SortKey>) -> Seq<Key> {
    Seq::new(v.len(), |i: int| v[i]@)
}

/// Strict lexicographic order of keys.
pub open spec fn key_lt(a: Key, b: Key) -> bool {
    a.major < b.major || (a.major == b.major && (a.minor < b.minor || (a.minor == b.minor
        && text::text_lt(a.text, b.text))))
}

impl SortKey {
    /// Whether this key comes strictly before another.
    pub fn before(&self, other: &SortKey) -> (r: bool)
        ensures
            r == key_lt(self@, other@),
    {
        if self.major != other.major {
            self.major < other.major
        } else if self.minor != other.minor {
            self.minor < other.minor
        } else {
            text::str_lt(self.text.as_str(), other.text.as_str())
        }
    }
}

/// The first place at or after `p` of `order` whose row comes strictly behind row `x`.
pub open spec fn slot(keys: Seq<Key>, order: Seq<int>, x: int, p: int) -> int
    decreases order.len() - p,
{
    if p < 0 || p >= order.len() {
        order.len() as int
    } else if key_lt(keys[x], keys[order[p]]) {
        p
    } else {
        slot(keys, order, x, p + 1)
    }
}

/// The row numbers of the first `n` rows in ascending order of their keys, equal keys in
/// the order of the rows: each row is put behind every earlier row that it does not precede.
pub open spec fn stable_order_upto(keys: Seq<Key>, n: nat) -> Seq<int>
    decreases n,
{
    if n == 0 {
        Seq::empty()
    } else {
        let front = stable_order_upto(keys, (n - 1) as nat);
        front.insert(slot(keys, front, n - 1, 0), n - 1)
    }
}

/// The row numbers in ascending order of their keys, equal keys in the order of the rows.
pub open spec fn stable_order(keys: Seq<Key>) -> Seq<int> {
    stable_order_upto(keys, keys.len())
}

/// The rows of `s` in the order that `order` gives.
pub open spec fn pick<T>(s: Seq<T>, order: Seq<int>) -> Seq<T> {
    Seq::new(order.len(), |i: int| s[order[i]])
}

/// Whether `order` lists the numbers below `n`, each once.
pub open spec fn is_permutation(order: Seq<int>, n: int) -> bool {
    &&& order.len() == n
    &&& forall|i: int| 0 <= i < n ==> 0 <= #[trigger] order[i] < n
    &&& forall|i: int, j: int|
        0 <= i < n && 0 <= j < n && i != j ==> #[trigger] order[i] != #[trigger] order[j]
}

/// Whether `order` ascends by key, and by row number where keys are equal.
pub open spec fn is_ascending(keys: Seq<Key>, order: Seq<int>) -> bool {
    forall|i: int, j: int|
        0 <= i < j < order.len() ==> (key_lt(keys[#[trigger] order[i]], keys[#[trigger] order[j]])
            || (!key_lt(keys[order[j]], keys[order[i]]) && order[i] < order[j]))
}

/// The order of keys is strict, total and transitive.
pub proof fn lemma_key_order(a: Key, b: Key, c: Key)
    ensures
        !(key_lt(a, b) && key_lt(b, a)),
        key_lt(a, b) && key_lt(b, c) ==> key_lt(a, c),
        !key_lt(a, b) && !key_lt(b, c) ==> !key_lt(a, c),
        key_lt(a, b) || key_lt(b, a) || a == b,
{
    text::lemma_text_order(a.text, b.text);
    text::lemma_text_order(b.text, c.text);
    text::lemma_text_order(a.text, c.text);
    if text::text_lt(a.text, b.text) && text::text_lt(b.text, c.text) {
        text::lemma_text_order_transitive(a.text, b.text, c.text);
    }
    if text::text_lt(b.text, a.text) && text::text_lt(a.text, c.text) {
        text::lemma_text_order_transitive(b.text, a.text, c.text);
    }
    if text::text_lt(c.text, b.text) && text::text_lt(b.text, a.text) {
        text::lemma_text_order_transitive(c.text, b.text, a.text);
    }
}

proof fn lemma_slot(keys: Seq<Key>, order: Seq<int>, x: int, p: int)
    requires
        0 <= p <= order.len(),
    ensures
        p <= slot(keys, order, x, p) <= order.len(),
        forall|i: int| p <= i < slot(keys, order, x, p) ==> !key_lt(keys[x], keys[#[trigger] order[i]]),
        slot(keys, order, x, p) < order.len() ==> key_lt(
            keys[x],
            keys[order[slot(keys, order, x, p)]],
        ),
    decreases order.len() - p,
{
    if p < order.len() && !key_lt(keys[x], keys[order[p]]) {
        lemma_slot(keys, order, x, p + 1);
    }
}

proof fn lemma_stable_order_upto(keys: Seq<Key>, n: nat)
    requires
        n <= keys.len(),
    ensures
        is_permutation(stable_order_upto(keys, n), n as int),
        is_ascending(keys, stable_order_upto(keys, n)),
    decreases n,
{
    if n > 0 {
        let front = stable_order_upto(keys, (n - 1) as nat);
        let x = n - 1;
        lemma_stable_order_upto(keys, (n - 1) as nat);
        let p = slot(keys, front, x, 0);
        lemma_slot(keys, front, x, 0);
        let all = front.insert(p, x);
        assert forall|i: int| 0 <= i < n implies 0 <= #[trigger] all[i] < n by {
            if i < p {
                assert(all[i] == front[i]);
            } else if i > p {
                assert(all[i] == front[i - 1]);
            }
        }
        assert forall|i: int, j: int| 0 <= i < n && 0 <= j < n && i != j implies #[trigger] all[i]
            != #[trigger] all[j] by {
            let a = if i < p {
                i
            } else {
                i - 1
            };
            let b = if j < p {
                j
            } else {
                j - 1
            };
            if i != p {
                assert(all[i] == front[a]);
            }
            if j != p {
                assert(all[j] == front[b]);
            }
        }
        assert forall|i: int, j: int| 0 <= i < j < all.len() implies (key_lt(
            keys[#[trigger] all[i]],
            keys[#[trigger] all[j]],
        ) || (!key_lt(keys[all[j]], keys[all[i]]) && all[i] < all[j])) by {
            if i != p && j != p {
                let a = if i < p {
                    i
                } else {
                    i - 1
                };
                let b = if j < p {
                    j
                } else {
                    j - 1
                };
                assert(all[i] == front[a] && all[j] == front[b]);
            } else if j == p {
                assert(all[i] == front[i]);
                lemma_key_order(keys[x], keys[front[i]], keys[x]);
            } else {
                // The row at `p` precedes the row after it, and hence every later one.
                assert(all[j] == front[j - 1]);
                if j - 1 > p {
                    assert(key_lt(keys[front[p]], keys[front[j - 1]]) || !key_lt(
                        keys[front[j - 1]],
                        keys[front[p]],
                    ));
                }
                lemma_key_order(keys[x], keys[front[p]], keys[front[j - 1]]);
                lemma_key_order(keys[front[j - 1]], keys[x], keys[front[p]]);
                lemma_key_order(keys[front[p]], keys[front[j - 1]], keys[x]);
                lemma_key_order(keys[x], keys[front[j - 1]], keys[front[p]]);
            }
        }
    }
}

/// The stable order lists every row once, ascends by key, and keeps rows with equal keys in
/// the order in which they stood.
pub proof fn lemma_stable_order(keys: Seq<Key>)
    ensures
        is_permutation(stable_order(keys), keys.len() as int),
        is_ascending(keys, stable_order(keys)),
{
    lemma_stable_order_upto(keys, keys.len());
}

/// Row numbers as mathematical integers.
pub open spec fn ints(v: Seq<usize>) -> Seq<int> {
    Seq::new(v.len(), |i: int| v[i] as int)
}

/// Orders rows by their keys.
pub fn order_by(keys: &Vec<SortKey>) -> (r: Vec<usize>)
    ensures
        ints(r@) == stable_order(key_views(keys@)),
        r@.len() == keys@.len(),
        forall|i: int| 0 <= i < r@.len() ==> (#[trigger] r@[i]) < keys@.len(),
{
    let ghost ks = key_views(keys@);
    let mut order: Vec<usize> = Vec::new();
    let mut n: usize = 0;
    assert(ints(order@) =~= stable_order_upto(ks, 0));
    while n < keys.len()
        invariant
            n <= keys.len(),
            ks == key_views(keys@),
            ints(order@) == stable_order_upto(ks, n as nat),
        decreases keys.len() - n,
    {
        let ghost front = ints(order@);
        proof {
            lemma_stable_order_upto(ks, n as nat);
        }
        let mut p: usize = 0;
        while p < order.len() && !keys[n].before(&keys[order[p]])
            invariant
                n < keys.len(),
                p <= order.len(),
                ks == key_views(keys@),
                front == ints(order@),
                is_permutation(front, n as int),
                slot(ks, front, n as int, 0) == slot(ks, front, n as int, p as int),
            decreases order.len() - p,
        {
            assert(front[p as int] == order@[p as int] as int);
            p = p + 1;
        }
        assert(p < order.len() ==> front[p as int] == order@[p as int] as int);
        order.insert(p, n);
        assert(ints(order@) =~= front.insert(p as int, n as int));
        n = n + 1;
    }
    proof {
        lemma_stable_order(ks);
        assert forall|i: int| 0 <= i < order@.len() implies (#[trigger] order@[i]) < keys@.len() by {
            assert(ints(order@)[i] == order@[i] as int);
        }
    }
    order
}

// ---------------------------------------------------------------------------
// Texts
// ---------------------------------------------------------------------------

/// The keys of texts that are ordered by themselves.
pub open spec fn text_keys(v: Seq<Seq<char>>) -> Seq<Key> {
    Seq::new(v.len(), |i: int| Key { major: 0, minor: 0, text: v[i] })
}

/// Texts in ascending order.
pub open spec fn sorted_texts(v: Seq<Seq<char>>) -> Seq<Seq<char>> {
    pick(v, stable_order(text_keys(v)))
}

/// A sequence without the elements that equal the one before them.
pub open spec fn dedup(v: Seq<Seq<char>>) -> Seq<Seq<char>>
    decreases v.len(),
{
    if v.len() == 0 {
        Seq::empty()
    } else {
        let front = dedup(v.drop_last());
        if front.len() > 0 && front.last() == v.last() {
            front
        } else {
            front.push(v.last())
        }
    }
}

/// The different texts of a sequence in ascending order.
pub open spec fn sorted_set(v: Seq<Seq<char>>) -> Seq<Seq<char>> {
    dedup(sorted_texts(v))
}

/// Sorts texts.
pub fn sort_texts(v: &Vec<String>) -> (r: Vec<String>)
    ensures
        text::views(r@) == sorted_texts(text::views(v@)),
{
    let mut ks: Vec<SortKey> = Vec::new();
    let mut i: usize = 0;
    while i < v.len()
        invariant
            i <= v.len(),
            ks.len() == i,
            forall|j: int|
                0 <= j < i ==> (#[trigger] ks@[j])@ == (Key { major: 0, minor: 0, text: v@[j]@ }),
        decreases v.len() - i,
    {
        ks.push(SortKey { major: 0, minor: 0, text: v[i].clone() });
        i = i + 1;
    }
    assert(key_views(ks@) =~= text_keys(text::views(v@)));
    let order: Vec<usize> = order_by(&ks);
    let mut r: Vec<String> = Vec::new();
    let mut k: usize = 0;
    while k < order.len()
        invariant
            k <= order.len(),
            r.len() == k,
            forall|j: int| 0 <= j < order@.len() ==> (#[trigger] order@[j]) < v@.len(),
            forall|j: int| 0 <= j < k ==> (#[trigger] r@[j])@ == v@[order@[j] as int]@,
        decreases order.len() - k,
    {
        r.push(v[order[k]].clone());
        k = k + 1;
    }
    proof {
        let o = ints(order@);
        assert forall|j: int| 0 <= j < r@.len() implies #[trigger] text::views(r@)[j] == pick(
            text::views(v@),
            o,
        )[j] by {
            assert(r@[j]@ == v@[order@[j] as int]@);
            assert(o[j] == order@[j] as int);
        }
        assert(text::views(r@) =~= pick(text::views(v@), o));
    }
    r
}

/// Drops texts that equal the one before them.
pub fn dedup_texts(v: &Vec<String>) -> (r: Vec<String>)
    ensures
        text::views(r@) == dedup(text::views(v@)),
{
    let ghost vs = text::views(v@);
    let mut r: Vec<String> = Vec::new();
    let mut i: usize = 0;
    assert(text::views(r@) =~= dedup(vs.take(0)));
    while i < v.len()
        invariant
            i <= v.len(),
            vs == text::views(v@),
            text::views(r@) == dedup(vs.take(i as int)),
        decreases v.len() - i,
    {
        assert(vs.take(i + 1).drop_last() =~= vs.take(i as int));
        assert(vs.take(i + 1).last() == v@[i as int]@);
        let n: usize = r.len();
        assert(text::views(r@).len() == n);
        let ghost front = text::views(r@);
        let keep: bool = if n > 0 {
            assert(front.last() == r@[n - 1]@);
            !text::same(r[n - 1].as_str(), v[i].as_str())
        } else {
            true
        };
        if keep {
            r.push(v[i].clone());
            assert(text::views(r@) =~= front.push(v@[i as int]@));
        }
        i = i + 1;
    }
    assert(vs.take(vs.len() as int) =~= vs);
    r
}

/// The different texts of a list in ascending order.
pub fn sort_unique(v: &Vec<String>) -> (r: Vec<String>)
    ensures
        text::views(r@) == sorted_set(text::views(v@)),
{
    dedup_texts(&sort_texts(v))
}

proof fn lemma_dedup(v: Seq<Seq<char>>)
    requires
        forall|i: int, j: int|
            0 <= i < j < v.len() ==> #[trigger] v[i] == #[trigger] v[j] || text::text_lt(v[i], v[j]),
    ensures
        forall|i: int, j: int|
            0 <= i < j < dedup(v).len() ==> text::text_lt(
                #[trigger] dedup(v)[i],
                #[trigger] dedup(v)[j],
            ),
        forall|x: Seq<char>| #[trigger] dedup(v).contains(x) <==> v.contains(x),
        v.len() > 0 ==> dedup(v).len() > 0 && dedup(v).last() == v.last(),
    decreases v.len(),
{
    if v.len() > 0 {
        let w = v.drop_last();
        assert forall|i: int, j: int| 0 <= i < j < w.len() implies #[trigger] w[i]
            == #[trigger] w[j] || text::text_lt(w[i], w[j]) by {
            assert(w[i] == v[i] && w[j] == v[j]);
        }
        lemma_dedup(w);
        let front = dedup(w);
        let all = dedup(v);
        let x = v.last();
        assert(v == w.push(x)) by {
            assert(v =~= w.push(x));
        }
        if w.len() > 0 {
            assert(v[v.len() - 2] == w.last());
            assert(w.last() == x || text::text_lt(w.last(), x));
        }
        assert forall|i: int, j: int| 0 <= i < j < all.len() implies text::text_lt(
            #[trigger] all[i],
            #[trigger] all[j],
        ) by {
            if j < front.len() {
                assert(all[i] == front[i] && all[j] == front[j]);
            } else {
                assert(all[i] == front[i]);
                if i < front.len() - 1 {
                    assert(text::text_lt(front[i], front[front.len() - 1]));
                    text::lemma_text_order_transitive(front[i], front.last(), x);
                }
            }
        }
        assert forall|y: Seq<char>| #[trigger] all.contains(y) <==> v.contains(y) by {
            assert(front.contains(y) <==> w.contains(y));
            if all.contains(y) {
                let k = choose|k: int| 0 <= k < all.len() && all[k] == y;
                if k < front.len() {
                    assert(front[k] == y);
                    assert(front.contains(y));
                    let m = choose|m: int| 0 <= m < w.len() && w[m] == y;
                    assert(v[m] == y);
                } else {
                    assert(v[v.len() - 1] == y);
                }
            }
            if v.contains(y) {
                let m = choose|m: int| 0 <= m < v.len() && v[m] == y;
                if m < w.len() {
                    assert(w[m] == y);
                    assert(w.contains(y));
                    let k = choose|k: int| 0 <= k < front.len() && front[k] == y;
                    assert(all[k] == y);
                } else {
                    assert(all[all.len() - 1] == y);
                }
            }
        }
    }
}

/// The different texts of a sequence ascend strictly, and they are the texts of the sequence.
pub proof fn law_sorted_set(v: Seq<Seq<char>>)
    ensures
        forall|i: int, j: int|
            0 <= i < j < sorted_set(v).len() ==> text::text_lt(
                #[trigger] sorted_set(v)[i],
                #[trigger] sorted_set(v)[j],
            ),
        forall|x: Seq<char>| #[trigger] sorted_set(v).contains(x) <==> v.contains(x),
{
    let ks = text_keys(v);
    let order = stable_order(ks);
    let sorted = sorted_texts(v);
    lemma_stable_order(ks);
    assert forall|i: int, j: int| 0 <= i < j < sorted.len() implies #[trigger] sorted[i]
        == #[trigger] sorted[j] || text::text_lt(sorted[i], sorted[j]) by {
        assert(sorted[i] == v[order[i]] && sorted[j] == v[order[j]]);
        assert(key_lt(ks[order[i]], ks[order[j]]) || !key_lt(ks[order[j]], ks[order[i]]));
        text::lemma_text_order(sorted[i], sorted[j]);
    }
    lemma_dedup(sorted);
    assert forall|x: Seq<char>| #[trigger] sorted_set(v).contains(x) <==> v.contains(x) by {
        lemma_pick_same_elements(v, order, x);
    }
}

/// Every number below `n` stands somewhere in a permutation of them.
pub proof fn lemma_permutation_covers(order: Seq<int>, n: int, x: int)
    requires
        is_permutation(order, n),
        0 <= x < n,
    ensures
        order.contains(x),
{
    if !order.contains(x) {
        let s = order.to_set();
        order.unique_seq_to_set();
        let all = vstd::set_lib::set_int_range(0, n);
        vstd::set_lib::lemma_int_range(0, n);
        assert(s.subset_of(all.remove(x))) by {
            assert forall|y: int| s.contains(y) implies all.remove(x).contains(y) by {
                let i = choose|i: int| 0 <= i < order.len() && order[i] == y;
                assert(0 <= order[i] < n);
            }
        }
        vstd::set_lib::lemma_len_subset(s, all.remove(x));
        assert(false);
    }
}

/// Rows that differ still differ in another order.
pub proof fn lemma_pick_differs<T>(v: Seq<T>, order: Seq<int>)
    requires
        v.no_duplicates(),
        is_permutation(order, v.len() as int),
    ensures
        pick(v, order).no_duplicates(),
{
    let w = pick(v, order);
    assert forall|i: int, j: int| 0 <= i < w.len() && 0 <= j < w.len() && i != j implies w[i]
        != w[j] by {
        assert(order[i] != order[j]);
    }
}

/// The sorted texts of a sequence are its texts.
pub proof fn lemma_sorted_texts_contain(v: Seq<Seq<char>>, x: Seq<char>)
    ensures
        sorted_texts(v).contains(x) <==> v.contains(x),
{
    lemma_stable_order(text_keys(v));
    lemma_pick_same_elements(v, stable_order(text_keys(v)), x);
}

/// Texts that differ still differ when they are sorted.
pub proof fn lemma_sorted_texts_differ(v: Seq<Seq<char>>)
    requires
        v.no_duplicates(),
    ensures
        sorted_texts(v).no_duplicates(),
        forall|x: Seq<char>| #[trigger] sorted_texts(v).contains(x) ==> v.contains(x),
{
    let ks = text_keys(v);
    lemma_stable_order(ks);
    lemma_pick_differs(v, stable_order(ks));
    let w = sorted_texts(v);
    assert forall|x: Seq<char>| #[trigger] w.contains(x) implies v.contains(x) by {
        let i = choose|i: int| 0 <= i < w.len() && w[i] == x;
        assert(v[stable_order(ks)[i]] == x);
    }
}

proof fn lemma_pick_same_elements(v: Seq<Seq<char>>, order: Seq<int>, x: Seq<char>)
    requires
        is_permutation(order, v.len() as int),
    ensures
        pick(v, order).contains(x) <==> v.contains(x),
{
    if pick(v, order).contains(x) {
        let i = choose|i: int| 0 <= i < pick(v, order).len() && pick(v, order)[i] == x;
        assert(0 <= order[i] < v.len());
        assert(v[order[i]] == x);
    }
    if v.contains(x) {
        let m = choose|m: int| 0 <= m < v.len() && v[m] == x;
        lemma_permutation_covers(order, v.len() as int, m);
        let i = choose|i: int| 0 <= i < order.len() && order[i] == m;
        assert(pick(v, order)[i] == x);
    }
}

/// Sorting rows keeps every row, and adds none.
pub proof fn lemma_sorted_rows<T>(rows: Seq<T>, keys: Seq<Key>)
    requires
        rows.len() == keys.len(),
    ensures
        pick(rows, stable_order(keys)).len() == rows.len(),
        forall|x: T| #[trigger] pick(rows, stable_order(keys)).contains(x) <==> rows.contains(x),
        forall|i: int|
            0 <= i < rows.len() ==> 0 <= #[trigger] stable_order(keys)[i] < rows.len(),
        forall|i: int, j: int|
            0 <= i < j < rows.len() ==> !key_lt(
                keys[#[trigger] stable_order(keys)[j]],
                keys[#[trigger] stable_order(keys)[i]],
            ),
{
    let o = stable_order(keys);
    let r = pick(rows, o);
    lemma_stable_order(keys);
    assert forall|x: T| #[trigger] r.contains(x) <==> rows.contains(x) by {
        if r.contains(x) {
            let i = choose|i: int| 0 <= i < r.len() && r[i] == x;
            assert(rows[o[i]] == x);
        }
        if rows.contains(x) {
            let m = choose|m: int| 0 <= m < rows.len() && rows[m] == x;
            lemma_permutation_covers(o, rows.len() as int, m);
            let i = choose|i: int| 0 <= i < o.len() && o[i] == m;
            assert(r[i] == x);
        }
    }
    assert forall|i: int, j: int| 0 <= i < j < rows.len() implies !key_lt(
        keys[#[trigger] o[j]],
        keys[#[trigger] o[i]],
    ) by {
        lemma_key_order(keys[o[i]], keys[o[j]], keys[o[i]]);
    }
}

/// Sorted texts ascend, and they are the texts that were given.
pub proof fn law_sorted_texts(v: Seq<Seq<char>>)
    ensures
        sorted_texts(v).len() == v.len(),
        forall|x: Seq<char>| #[trigger] sorted_texts(v).contains(x) <==> v.contains(x),
        forall|i: int, j: int|
            0 <= i < j < sorted_texts(v).len() ==> !text::text_lt(
                #[trigger] sorted_texts(v)[j],
                #[trigger] sorted_texts(v)[i],
            ),
{
    let keys = text_keys(v);
    lemma_sorted_rows(v, keys);
    let o = stable_order(keys);
    let r = sorted_texts(v);
    assert forall|i: int, j: int| 0 <= i < j < r.len() implies !text::text_lt(
        #[trigger] r[j],
        #[trigger] r[i],
    ) by {
        assert(!key_lt(keys[o[j]], keys[o[i]]));
    }
}

/// Rows with equal keys keep the order in which they stood.
pub proof fn law_sorting_is_stable(keys: Seq<Key>, i: int, j: int)
    requires
        0 <= i < j < stable_order(keys).len(),
        keys[stable_order(keys)[i]] == keys[stable_order(keys)[j]],
    ensures
        stable_order(keys)[i] < stable_order(keys)[j],
{
    lemma_stable_order(keys);
    let o = stable_order(keys);
    lemma_key_order(keys[o[i]], keys[o[j]], keys[o[i]]);
    assert(key_lt(keys[o[i]], keys[o[j]]) || (!key_lt(keys[o[j]], keys[o[i]]) && o[i] < o[j]));
}

/// Keys are compared by their first number, then by their second, then by their text.
pub proof fn law_key_order(a: Key, b: Key)
    ensures
        a.major < b.major ==> key_lt(a, b),
        a.major == b.major && a.minor < b.minor ==> key_lt(a, b),
        a.major == b.major && a.minor == b.minor ==> (key_lt(a, b) <==> text::text_lt(a.text, b.text)),
        a.major > b.major ==> !key_lt(a, b),
        a.major == b.major && a.minor > b.minor ==> !key_lt(a, b),
{
}

} // verus!
