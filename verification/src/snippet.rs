//! Search snippets: the part of a text around the first hit, with the hits marked.
//!
//! Lengths and places are counted in bytes of the UTF-8 encoding, and every cut falls between
//! two characters.

use vstd::prelude::*;
use vstd::utf8::{encode_utf8, is_char_boundary, is_continuation_byte, valid_utf8};

use crate::markup;
use crate::sort::{self, Key, SortKey};
use crate::text;
use crate::unicode;

verus! {

// ---------------------------------------------------------------------------
// Places in bytes
// ---------------------------------------------------------------------------

/// Whether place `i` of an encoded text lies between two characters.
pub open spec fn boundary(b: Seq<u8>, i: int) -> bool {
    i == 0 || i == b.len() || (0 < i < b.len() && !is_continuation_byte(b[i]))
}

/// The first boundary at or after a place.
pub open spec fn ceil_boundary(b: Seq<u8>, pos: int) -> int
    decreases b.len() - pos,
{
    if pos >= b.len() {
        b.len() as int
    } else if boundary(b, pos) {
        pos
    } else {
        ceil_boundary(b, pos + 1)
    }
}

/// The last boundary at or before a place.
pub open spec fn floor_boundary(b: Seq<u8>, pos: int) -> int
    decreases pos,
{
    if pos >= b.len() {
        b.len() as int
    } else if pos <= 0 || boundary(b, pos) {
        pos
    } else {
        floor_boundary(b, pos - 1)
    }
}

fn continuation(x: u8) -> (r: bool)
    ensures
        r == is_continuation_byte(x),
{
    0x80 <= x && x <= 0xbf
}

fn at_boundary(b: &Vec<u8>, i: usize) -> (r: bool)
    ensures
        r == boundary(b@, i as int),
{
    i == 0 || i == b.len() || (i < b.len() && !continuation(b[i]))
}

/// The first boundary at or after a place.
pub fn ceil_char_boundary(b: &Vec<u8>, pos: usize) -> (r: usize)
    ensures
        r == ceil_boundary(b@, pos as int),
        r <= b@.len(),
        boundary(b@, r as int),
        pos <= b@.len() ==> pos <= r,
{
    if pos >= b.len() {
        return b.len();
    }
    let mut i: usize = pos;
    while i < b.len() && !at_boundary(b, i)
        invariant
            pos <= i <= b.len(),
            ceil_boundary(b@, pos as int) == ceil_boundary(b@, i as int),
        decreases b.len() - i,
    {
        i = i + 1;
    }
    i
}

/// The last boundary at or before a place.
pub fn floor_char_boundary(b: &Vec<u8>, pos: usize) -> (r: usize)
    ensures
        r == floor_boundary(b@, pos as int),
        r <= b@.len(),
        boundary(b@, r as int),
        forall|k: int| 0 <= k <= pos && k <= b@.len() && boundary(b@, k) ==> k <= r,
{
    if pos >= b.len() {
        return b.len();
    }
    let mut i: usize = pos;
    while i > 0 && !at_boundary(b, i)
        invariant
            i <= pos < b.len(),
            floor_boundary(b@, pos as int) == floor_boundary(b@, i as int),
            forall|k: int| i < k <= pos ==> !boundary(b@, k),
        decreases i,
    {
        i = i - 1;
    }
    i
}

fn occurs(s: &Vec<u8>, pat: &Vec<u8>, i: usize) -> (r: bool)
    ensures
        r == text::occurs_at(s@, pat@, i as int),
{
    if i > s.len() || pat.len() > s.len() - i {
        return false;
    }
    let mut j: usize = 0;
    while j < pat.len()
        invariant
            i + pat.len() <= s.len(),
            j <= pat.len(),
            forall|k: int| 0 <= k < j ==> s@[i + k] == pat@[k],
        decreases pat.len() - j,
    {
        if s[i + j] != pat[j] {
            assert(s@.subrange(i as int, i + pat@.len())[j as int] != pat@[j as int]);
            return false;
        }
        j = j + 1;
    }
    assert(s@.subrange(i as int, i + pat@.len()) =~= pat@);
    true
}

fn find_bytes(s: &Vec<u8>, pat: &Vec<u8>, from: usize) -> (r: Option<usize>)
    ensures
        match r {
            Some(i) => text::find(s@, pat@, from as int) == Some(i as int) && from <= i && i
                + pat.len() <= s.len(),
            None => text::find(s@, pat@, from as int) is None,
        },
{
    if from > s.len() {
        return None;
    }
    let mut i: usize = from;
    while i <= s.len() && pat.len() <= s.len() - i
        invariant
            from <= i <= s.len() + 1,
            text::find(s@, pat@, from as int) == text::find(s@, pat@, i as int),
        decreases s.len() + 1 - i,
    {
        if occurs(s, pat, i) {
            return Some(i);
        }
        if i == s.len() {
            assert(text::find(s@, pat@, i + 1) is None);
            return None;
        }
        i = i + 1;
    }
    None
}

fn cut_bytes(v: &Vec<u8>, from: usize, to: usize) -> (r: Vec<u8>)
    requires
        from <= to <= v@.len(),
    ensures
        r@ == v@.subrange(from as int, to as int),
{
    let mut r: Vec<u8> = Vec::new();
    let mut i: usize = from;
    while i < to
        invariant
            from <= i <= to <= v@.len(),
            r@ == v@.subrange(from as int, i as int),
        decreases to - i,
    {
        r.push(v[i]);
        assert(v@.subrange(from as int, i + 1) =~= v@.subrange(from as int, i as int).push(
            v@[i as int],
        ));
        i = i + 1;
    }
    r
}

fn push_bytes(out: &mut Vec<u8>, more: &Vec<u8>)
    ensures
        final(out)@ == old(out)@ + more@,
{
    let ghost before = out@;
    let mut i: usize = 0;
    assert(before + more@.take(0) =~= before);
    while i < more.len()
        invariant
            i <= more.len(),
            out@ == before + more@.take(i as int),
        decreases more.len() - i,
    {
        out.push(more[i]);
        assert(before + more@.take(i + 1) =~= (before + more@.take(i as int)).push(
            more@[i as int],
        ));
        i = i + 1;
    }
    assert(more@.take(more.len() as int) =~= more@);
}

/// The part between two boundaries of an encoded text is an encoded text.
proof fn lemma_part_is_valid(b: Seq<u8>, from: int, to: int)
    requires
        valid_utf8(b),
        0 <= from <= to <= b.len(),
        boundary(b, from),
        boundary(b, to),
    ensures
        valid_utf8(b.subrange(from, to)),
{
    lemma_boundary_is_char_boundary(b, to);
    vstd::utf8::valid_utf8_split(b, to);
    let front = b.subrange(0, to);
    assert(valid_utf8(front));
    if from < to && from > 0 {
        assert(front[from] == b[from]);
    }
    lemma_boundary_is_char_boundary(front, from);
    vstd::utf8::valid_utf8_split(front, from);
    assert(front.subrange(from, front.len() as int) =~= b.subrange(from, to));
}

proof fn lemma_boundary_is_char_boundary(b: Seq<u8>, i: int)
    requires
        valid_utf8(b),
        boundary(b, i),
    ensures
        is_char_boundary(b, i),
{
    vstd::utf8::is_char_boundary_start_end_of_seq(b);
    if 0 < i < b.len() {
        vstd::utf8::is_char_boundary_iff_not_is_continuation_byte(b, i);
    }
}

// ---------------------------------------------------------------------------
// What a snippet shows
// ---------------------------------------------------------------------------

/// The smallest place at which one of the words stands.
pub open spec fn first_hit(lower: Seq<u8>, words: Seq<Seq<u8>>) -> Option<int>
    decreases words.len(),
{
    if words.len() == 0 {
        None
    } else {
        let front = first_hit(lower, words.drop_last());
        match text::find(lower, words.last(), 0) {
            None => front,
            Some(p) => match front {
                None => Some(p),
                Some(q) => if p < q {
                    Some(p)
                } else {
                    Some(q)
                },
            },
        }
    }
}

/// Where a snippet starts: a third of its length before the first hit, behind the next space.
pub open spec fn snippet_start(
    full: Seq<u8>,
    lower: Seq<u8>,
    words: Seq<Seq<u8>>,
    max_len: int,
) -> int {
    let hit = match first_hit(lower, words) {
        Some(p) => p,
        None => 0,
    };
    let raw = if hit > max_len / 3 {
        hit - max_len / 3
    } else {
        0
    };
    let start = if raw > 0 {
        let snapped = ceil_boundary(full, raw);
        match text::find(full, seq![0x20u8], snapped) {
            Some(j) => j + 1,
            None => snapped,
        }
    } else {
        0
    };
    ceil_boundary(full, start)
}

/// Where a snippet ends: at most `max_len` bytes behind its start.
pub open spec fn snippet_end(full: Seq<u8>, start: int, max_len: int) -> int {
    floor_boundary(
        full,
        if start + max_len <= full.len() {
            start + max_len
        } else {
            full.len() as int
        },
    )
}

/// The places at or after `from` where a word stands, each behind the one before it, that fall
/// between characters of the shown text.
pub open spec fn word_marks(
    lower: Seq<u8>,
    shown: Seq<u8>,
    word: Seq<u8>,
    from: int,
) -> Seq<(int, int)>
    decreases lower.len() - from,
{
    match text::find(lower, word, from) {
        Some(p) => if from <= p && p + word.len() <= lower.len() && word.len() > 0 {
            let end = p + word.len();
            let rest = word_marks(lower, shown, word, end);
            if boundary(shown, p) && boundary(shown, end) {
                seq![(p, end)] + rest
            } else {
                rest
            }
        } else {
            Seq::empty()
        },
        None => Seq::empty(),
    }
}

/// The marks of all words, word by word.
pub open spec fn all_marks(lower: Seq<u8>, shown: Seq<u8>, words: Seq<Seq<u8>>) -> Seq<(int, int)>
    decreases words.len(),
{
    if words.len() == 0 {
        Seq::empty()
    } else {
        all_marks(lower, shown, words.drop_last()) + word_marks(lower, shown, words.last(), 0)
    }
}

/// What marks are ordered by.
pub open spec fn mark_keys(marks: Seq<(int, int)>) -> Seq<Key> {
    Seq::new(
        marks.len(),
        |i: int| Key { major: marks[i].0, minor: 0, text: Seq::empty() },
    )
}

/// The marks in ascending order of their starts.
pub open spec fn sorted_marks(marks: Seq<(int, int)>) -> Seq<(int, int)> {
    sort::pick(marks, sort::stable_order(mark_keys(marks)))
}

/// Marks that touch or overlap as one.
pub open spec fn merge_marks(marks: Seq<(int, int)>) -> Seq<(int, int)>
    decreases marks.len(),
{
    if marks.len() == 0 {
        Seq::empty()
    } else {
        let front = merge_marks(marks.drop_last());
        let (s, e) = marks.last();
        if front.len() > 0 && s <= front.last().1 {
            let last = front.last();
            front.drop_last().push(
                (
                    last.0,
                    if last.1 >= e {
                        last.1
                    } else {
                        e
                    },
                ),
            )
        } else {
            front.push((s, e))
        }
    }
}

/// Where the text behind the first `n` marks starts.
pub open spec fn mark_cursor(marks: Seq<(int, int)>, n: int) -> int {
    if n == 0 {
        0
    } else {
        marks[n - 1].1
    }
}

/// The shown text up to the end of the first `n` marks, each mark in a `mark` element.
pub open spec fn render_marks(shown: Seq<u8>, marks: Seq<(int, int)>, n: int) -> Seq<u8>
    decreases n,
{
    if n <= 0 {
        Seq::empty()
    } else {
        render_marks(shown, marks, n - 1) + shown.subrange(
            mark_cursor(marks, n - 1),
            marks[n - 1].0,
        ) + encode_utf8("<mark>"@) + shown.subrange(marks[n - 1].0, marks[n - 1].1) + encode_utf8(
            "</mark>"@,
        )
    }
}

/// The marks that a snippet shows.
pub open spec fn shown_marks(
    shown: Seq<u8>,
    shown_lower: Seq<u8>,
    words: Seq<Seq<u8>>,
) -> Seq<(int, int)> {
    merge_marks(sorted_marks(all_marks(shown_lower, shown, words)))
}

/// A snippet: an ellipsis where text was cut off, and the shown text with its marks.
pub open spec fn highlighted(
    full: Seq<u8>,
    lower: Seq<u8>,
    words: Seq<Seq<u8>>,
    max_len: int,
) -> Seq<u8> {
    let start = snippet_start(full, lower, words, max_len);
    let end = snippet_end(full, start, max_len);
    let shown = full.subrange(start, end);
    let marks = shown_marks(shown, lower.subrange(start, end), words);
    let dots = encode_utf8("…"@);
    (if start > 0 {
        dots
    } else {
        Seq::empty()
    }) + render_marks(shown, marks, marks.len() as int) + shown.subrange(
        mark_cursor(marks, marks.len() as int),
        shown.len() as int,
    ) + (if end < full.len() {
        dots
    } else {
        Seq::empty()
    })
}

/// Whether the cuts of a snippet also fall between characters of the lowercase text.
pub open spec fn cuts_fit(
    full: Seq<u8>,
    lower: Seq<u8>,
    words: Seq<Seq<u8>>,
    max_len: int,
) -> bool {
    let start = snippet_start(full, lower, words, max_len);
    let end = snippet_end(full, start, max_len);
    end <= lower.len() && boundary(lower, start) && boundary(lower, end)
}

/// Whether marks are not empty, ascend, leave a gap between each other, and lie between characters
/// of a text.
pub open spec fn marks_fit(shown: Seq<u8>, marks: Seq<(int, int)>) -> bool {
    &&& forall|i: int|
        0 <= i < marks.len() ==> 0 <= (#[trigger] marks[i]).0 < marks[i].1 <= shown.len()
            && boundary(shown, marks[i].0) && boundary(shown, marks[i].1)
    &&& forall|i: int, j: int|
        0 <= i < j < marks.len() ==> (#[trigger] marks[i]).1 < (#[trigger] marks[j]).0
}

proof fn lemma_word_marks(lower: Seq<u8>, shown: Seq<u8>, word: Seq<u8>, from: int)
    requires
        lower.len() == shown.len(),
        0 <= from,
    ensures
        forall|i: int|
            0 <= i < word_marks(lower, shown, word, from).len() ==> {
                let m = #[trigger] word_marks(lower, shown, word, from)[i];
                0 <= m.0 < m.1 <= shown.len() && boundary(shown, m.0) && boundary(shown, m.1)
            },
    decreases lower.len() - from,
{
    text::lemma_find(lower, word, from);
    match text::find(lower, word, from) {
        Some(p) => {
            if word.len() > 0 {
                let end = p + word.len();
                lemma_word_marks(lower, shown, word, end);
                let rest = word_marks(lower, shown, word, end);
                let all = word_marks(lower, shown, word, from);
                assert forall|i: int| 0 <= i < all.len() implies {
                    let m = #[trigger] all[i];
                    0 <= m.0 < m.1 <= shown.len() && boundary(shown, m.0) && boundary(shown, m.1)
                } by {
                    if boundary(shown, p) && boundary(shown, end) {
                        if i > 0 {
                            assert(all[i] == rest[i - 1]);
                        }
                    } else {
                        assert(all[i] == rest[i]);
                    }
                }
            }
        },
        None => {},
    }
}

proof fn lemma_all_marks(lower: Seq<u8>, shown: Seq<u8>, words: Seq<Seq<u8>>)
    requires
        lower.len() == shown.len(),
    ensures
        forall|i: int|
            0 <= i < all_marks(lower, shown, words).len() ==> {
                let m = #[trigger] all_marks(lower, shown, words)[i];
                0 <= m.0 < m.1 <= shown.len() && boundary(shown, m.0) && boundary(shown, m.1)
            },
    decreases words.len(),
{
    if words.len() > 0 {
        lemma_all_marks(lower, shown, words.drop_last());
        lemma_word_marks(lower, shown, words.last(), 0);
        let a = all_marks(lower, shown, words.drop_last());
        let b = word_marks(lower, shown, words.last(), 0);
        assert forall|i: int| 0 <= i < (a + b).len() implies {
            let m = #[trigger] (a + b)[i];
            0 <= m.0 < m.1 <= shown.len() && boundary(shown, m.0) && boundary(shown, m.1)
        } by {
            if i < a.len() {
                assert((a + b)[i] == a[i]);
            } else {
                assert((a + b)[i] == b[i - a.len()]);
            }
        }
    }
}

proof fn lemma_merge(shown: Seq<u8>, marks: Seq<(int, int)>)
    requires
        forall|i: int|
            0 <= i < marks.len() ==> 0 <= (#[trigger] marks[i]).0 < marks[i].1 <= shown.len()
                && boundary(shown, marks[i].0) && boundary(shown, marks[i].1),
        forall|i: int, j: int|
            0 <= i < j < marks.len() ==> (#[trigger] marks[i]).0 <= (#[trigger] marks[j]).0,
    ensures
        marks_fit(shown, merge_marks(marks)),
        forall|i: int|
            0 <= i < merge_marks(marks).len() ==> marks.len() > 0 && (#[trigger] merge_marks(
                marks,
            )[i]).0 <= marks.last().0,
    decreases marks.len(),
{
    if marks.len() > 0 {
        let prev = marks.drop_last();
        assert forall|i: int, j: int| 0 <= i < j < prev.len() implies (#[trigger] prev[i]).0 <= (
        #[trigger] prev[j]).0 by {
            assert(prev[i] == marks[i] && prev[j] == marks[j]);
        }
        lemma_merge(shown, prev);
        let front = merge_marks(prev);
        let all = merge_marks(marks);
        let (s, e) = marks.last();
        assert(marks[marks.len() - 1] == (s, e));
        if prev.len() > 0 {
            assert(prev.last() == marks[marks.len() - 2]);
            assert(prev.last().0 <= s);
        }
        if front.len() > 0 && s <= front.last().1 {
            let last = front.last();
            assert(front[front.len() - 1] == last);
            assert forall|i: int, j: int| 0 <= i < j < all.len() implies (#[trigger] all[i]).1 < (
            #[trigger] all[j]).0 by {
                assert(all[i] == front[i]);
                assert(all[j].0 == front[j].0);
            }
            assert forall|i: int| 0 <= i < all.len() implies 0 <= (#[trigger] all[i]).0 < all[i].1
                <= shown.len() && boundary(shown, all[i].0) && boundary(shown, all[i].1)
                && all[i].0 <= s by {
                assert(front[i].0 <= prev.last().0);
                if i < front.len() - 1 {
                    assert(all[i] == front[i]);
                }
            }
        } else {
            assert forall|i: int, j: int| 0 <= i < j < all.len() implies (#[trigger] all[i]).1 < (
            #[trigger] all[j]).0 by {
                assert(all[i] == front[i]);
                if j < front.len() {
                    assert(all[j] == front[j]);
                } else if i < front.len() - 1 {
                    assert(front[i].1 < front[front.len() - 1].0);
                }
            }
            assert forall|i: int| 0 <= i < all.len() implies 0 <= (#[trigger] all[i]).0 < all[i].1
                <= shown.len() && boundary(shown, all[i].0) && boundary(shown, all[i].1)
                && all[i].0 <= s by {
                if i < front.len() {
                    assert(all[i] == front[i]);
                    assert(front[i].0 <= prev.last().0);
                }
            }
        }
    }
}

/// The marks of a snippet are not empty, ascend with gaps between them, and none splits a character.
pub proof fn law_marks_fit(shown: Seq<u8>, shown_lower: Seq<u8>, words: Seq<Seq<u8>>)
    requires
        shown_lower.len() == shown.len(),
    ensures
        marks_fit(shown, shown_marks(shown, shown_lower, words)),
{
    let marks = all_marks(shown_lower, shown, words);
    let ks = mark_keys(marks);
    let order = sort::stable_order(ks);
    lemma_all_marks(shown_lower, shown, words);
    sort::lemma_stable_order(ks);
    let sorted = sorted_marks(marks);
    assert forall|i: int| 0 <= i < sorted.len() implies 0 <= (#[trigger] sorted[i]).0
        < sorted[i].1 <= shown.len() && boundary(shown, sorted[i].0) && boundary(
        shown,
        sorted[i].1,
    ) by {
        assert(sorted[i] == marks[order[i]]);
    }
    assert forall|i: int, j: int| 0 <= i < j < sorted.len() implies (#[trigger] sorted[i]).0 <= (
    #[trigger] sorted[j]).0 by {
        assert(sorted[i] == marks[order[i]] && sorted[j] == marks[order[j]]);
        assert(ks[order[i]].major == sorted[i].0 && ks[order[j]].major == sorted[j].0);
    }
    lemma_merge(shown, sorted);
}

// ---------------------------------------------------------------------------
// Making a snippet
// ---------------------------------------------------------------------------

/// Places as mathematical integers.
spec fn places(v: Seq<(usize, usize)>) -> Seq<(int, int)> {
    Seq::new(v.len(), |i: int| (v[i].0 as int, v[i].1 as int))
}

spec fn byte_views(v: Seq<Vec<u8>>) -> Seq<Seq<u8>> {
    Seq::new(v.len(), |i: int| v[i]@)
}

fn hit_of(lower: &Vec<u8>, words: &Vec<Vec<u8>>) -> (r: usize)
    ensures
        r == match first_hit(lower@, byte_views(words@)) {
            Some(p) => p,
            None => 0,
        },
        r <= lower@.len(),
{
    let ghost ws = byte_views(words@);
    let mut best: Option<usize> = None;
    let mut i: usize = 0;
    while i < words.len()
        invariant
            i <= words.len(),
            ws == byte_views(words@),
            match best {
                Some(p) => first_hit(lower@, ws.take(i as int)) == Some(p as int) && p
                    <= lower@.len(),
                None => first_hit(lower@, ws.take(i as int)) is None,
            },
        decreases words.len() - i,
    {
        assert(ws.take(i + 1).drop_last() =~= ws.take(i as int));
        assert(ws.take(i + 1).last() == words@[i as int]@);
        match find_bytes(lower, &words[i], 0) {
            Some(p) => {
                best = match best {
                    None => Some(p),
                    Some(q) => if p < q {
                        Some(p)
                    } else {
                        Some(q)
                    },
                };
            },
            None => {},
        }
        i = i + 1;
    }
    assert(ws.take(ws.len() as int) =~= ws);
    match best {
        Some(p) => p,
        None => 0,
    }
}

fn start_of(full: &Vec<u8>, lower: &Vec<u8>, words: &Vec<Vec<u8>>, max_len: usize) -> (r: usize)
    ensures
        r == snippet_start(full@, lower@, byte_views(words@), max_len as int),
        r <= full@.len(),
        boundary(full@, r as int),
{
    let hit: usize = hit_of(lower, words);
    let raw: usize = if hit > max_len / 3 {
        hit - max_len / 3
    } else {
        0
    };
    let start: usize = if raw > 0 {
        let snapped: usize = ceil_char_boundary(full, raw);
        let mut space: Vec<u8> = Vec::new();
        space.push(0x20u8);
        assert(space@ =~= seq![0x20u8]);
        match find_bytes(full, &space, snapped) {
            Some(j) => j + 1,
            None => snapped,
        }
    } else {
        0
    };
    ceil_char_boundary(full, start)
}

fn marks_of_word(lower: &Vec<u8>, shown: &Vec<u8>, word: &Vec<u8>, marks: &mut Vec<(usize, usize)>)
    requires
        word@.len() > 0,
        lower@.len() == shown@.len(),
    ensures
        places(final(marks)@) == places(old(marks)@) + word_marks(lower@, shown@, word@, 0),
{
    let ghost before = places(marks@);
    let ghost goal = before + word_marks(lower@, shown@, word@, 0);
    let mut from: usize = 0;
    let mut more: bool = true;
    while more
        invariant
            word@.len() > 0,
            lower@.len() == shown@.len(),
            from <= lower@.len(),
            more ==> places(marks@) + word_marks(lower@, shown@, word@, from as int) == goal,
            !more ==> places(marks@) == goal,
        decreases lower@.len() - from, (if more {
            1int
        } else {
            0int
        }),
    {
        match find_bytes(lower, word, from) {
            Some(p) => {
                let end: usize = p + word.len();
                let ghost held = places(marks@);
                let ghost rest = word_marks(lower@, shown@, word@, end as int);
                if at_boundary(shown, p) && at_boundary(shown, end) {
                    marks.push((p, end));
                    assert(places(marks@) =~= held.push((p as int, end as int)));
                    assert(held + (seq![(p as int, end as int)] + rest) =~= places(marks@) + rest);
                }
                from = end;
            },
            None => {
                assert(places(marks@) + word_marks(lower@, shown@, word@, from as int) =~= places(
                    marks@,
                ));
                more = false;
            },
        }
    }
}

fn marks_of(lower: &Vec<u8>, shown: &Vec<u8>, words: &Vec<Vec<u8>>) -> (r: Vec<(usize, usize)>)
    requires
        lower@.len() == shown@.len(),
        forall|i: int| 0 <= i < words@.len() ==> (#[trigger] words@[i])@.len() > 0,
    ensures
        places(r@) == all_marks(lower@, shown@, byte_views(words@)),
{
    let ghost ws = byte_views(words@);
    let mut marks: Vec<(usize, usize)> = Vec::new();
    let mut i: usize = 0;
    assert(places(marks@) =~= all_marks(lower@, shown@, ws.take(0)));
    while i < words.len()
        invariant
            i <= words.len(),
            ws == byte_views(words@),
            lower@.len() == shown@.len(),
            forall|j: int| 0 <= j < words@.len() ==> (#[trigger] words@[j])@.len() > 0,
            places(marks@) == all_marks(lower@, shown@, ws.take(i as int)),
        decreases words.len() - i,
    {
        assert(ws.take(i + 1).drop_last() =~= ws.take(i as int));
        assert(ws.take(i + 1).last() == words@[i as int]@);
        marks_of_word(lower, shown, &words[i], &mut marks);
        i = i + 1;
    }
    assert(ws.take(ws.len() as int) =~= ws);
    marks
}

fn sort_marks(marks: &Vec<(usize, usize)>) -> (r: Vec<(usize, usize)>)
    ensures
        places(r@) == sorted_marks(places(marks@)),
{
    let mut keys: Vec<SortKey> = Vec::new();
    let mut i: usize = 0;
    while i < marks.len()
        invariant
            i <= marks.len(),
            keys.len() == i,
            forall|j: int|
                0 <= j < i ==> (#[trigger] keys@[j])@ == (Key {
                    major: marks@[j].0 as int,
                    minor: 0,
                    text: Seq::empty(),
                }),
        decreases marks.len() - i,
    {
        let k = SortKey { major: marks[i].0 as i128, minor: 0, text: String::new() };
        assert(k@.text =~= Seq::empty());
        keys.push(k);
        i = i + 1;
    }
    assert(sort::key_views(keys@) =~= mark_keys(places(marks@)));
    let order: Vec<usize> = sort::order_by(&keys);
    let mut r: Vec<(usize, usize)> = Vec::new();
    let mut k: usize = 0;
    while k < order.len()
        invariant
            k <= order.len(),
            r.len() == k,
            forall|j: int| 0 <= j < order@.len() ==> (#[trigger] order@[j]) < marks@.len(),
            forall|j: int| 0 <= j < k ==> (#[trigger] r@[j]) == marks@[order@[j] as int],
        decreases order.len() - k,
    {
        r.push(marks[order[k]]);
        k = k + 1;
    }
    proof {
        let o = sort::ints(order@);
        assert forall|j: int| 0 <= j < r@.len() implies #[trigger] places(r@)[j] == sort::pick(
            places(marks@),
            o,
        )[j] by {
            assert(r@[j] == marks@[order@[j] as int]);
            assert(o[j] == order@[j] as int);
        }
        assert(places(r@) =~= sort::pick(places(marks@), o));
    }
    r
}

fn merged(marks: &Vec<(usize, usize)>) -> (r: Vec<(usize, usize)>)
    ensures
        places(r@) == merge_marks(places(marks@)),
{
    let ghost ms = places(marks@);
    let mut r: Vec<(usize, usize)> = Vec::new();
    let mut i: usize = 0;
    assert(places(r@) =~= merge_marks(ms.take(0)));
    while i < marks.len()
        invariant
            i <= marks.len(),
            ms == places(marks@),
            places(r@) == merge_marks(ms.take(i as int)),
        decreases marks.len() - i,
    {
        assert(ms.take(i + 1).drop_last() =~= ms.take(i as int));
        let m: (usize, usize) = marks[i];
        assert(ms.take(i + 1).last() == (m.0 as int, m.1 as int));
        let ghost front = places(r@);
        let n: usize = r.len();
        if n > 0 && m.0 <= r[n - 1].1 {
            let last: (usize, usize) = r[n - 1];
            let end: usize = if last.1 >= m.1 {
                last.1
            } else {
                m.1
            };
            r.set(n - 1, (last.0, end));
            assert(places(r@) =~= front.drop_last().push((last.0 as int, end as int)));
        } else {
            r.push(m);
            assert(places(r@) =~= front.push((m.0 as int, m.1 as int)));
        }
        i = i + 1;
    }
    assert(ms.take(ms.len() as int) =~= ms);
    r
}

fn rendered(shown: &Vec<u8>, marks: &Vec<(usize, usize)>) -> (r: Vec<u8>)
    requires
        valid_utf8(shown@),
        marks_fit(shown@, places(marks@)),
    ensures
        r@ == render_marks(shown@, places(marks@), marks@.len() as int) + shown@.subrange(
            mark_cursor(places(marks@), marks@.len() as int),
            shown@.len() as int,
        ),
        valid_utf8(r@),
{
    let ghost ms = places(marks@);
    let open: Vec<u8> = "<mark>".as_bytes_vec();
    let close: Vec<u8> = "</mark>".as_bytes_vec();
    proof {
        vstd::utf8::encode_utf8_valid_utf8("<mark>"@);
        vstd::utf8::encode_utf8_valid_utf8("</mark>"@);
    }
    let mut out: Vec<u8> = Vec::new();
    let mut cursor: usize = 0;
    let mut i: usize = 0;
    assert(out@ =~= render_marks(shown@, ms, 0));
    while i < marks.len()
        invariant
            i <= marks.len(),
            ms == places(marks@),
            valid_utf8(shown@),
            marks_fit(shown@, ms),
            open@ == encode_utf8("<mark>"@),
            close@ == encode_utf8("</mark>"@),
            valid_utf8(open@),
            valid_utf8(close@),
            cursor == mark_cursor(ms, i as int),
            cursor <= shown@.len(),
            boundary(shown@, cursor as int),
            out@ == render_marks(shown@, ms, i as int),
            valid_utf8(out@),
        decreases marks.len() - i,
    {
        let m: (usize, usize) = marks[i];
        assert(ms[i as int] == (m.0 as int, m.1 as int));
        proof {
            if i > 0 {
                assert(ms[i - 1].1 < ms[i as int].0);
            }
            lemma_part_is_valid(shown@, cursor as int, m.0 as int);
            lemma_part_is_valid(shown@, m.0 as int, m.1 as int);
        }
        let gap: Vec<u8> = cut_bytes(shown, cursor, m.0);
        let hit: Vec<u8> = cut_bytes(shown, m.0, m.1);
        proof {
            vstd::utf8::valid_utf8_concat(out@, gap@);
            vstd::utf8::valid_utf8_concat(out@ + gap@, open@);
            vstd::utf8::valid_utf8_concat(out@ + gap@ + open@, hit@);
            vstd::utf8::valid_utf8_concat(out@ + gap@ + open@ + hit@, close@);
        }
        push_bytes(&mut out, &gap);
        push_bytes(&mut out, &open);
        push_bytes(&mut out, &hit);
        push_bytes(&mut out, &close);
        cursor = m.1;
        i = i + 1;
    }
    proof {
        lemma_part_is_valid(shown@, cursor as int, shown@.len() as int);
    }
    let rest: Vec<u8> = cut_bytes(shown, cursor, shown.len());
    proof {
        vstd::utf8::valid_utf8_concat(out@, rest@);
    }
    push_bytes(&mut out, &rest);
    out
}

fn encoded(words: &Vec<String>) -> (r: Vec<Vec<u8>>)
    ensures
        byte_views(r@) == encoded_words(text::views(words@)),
{
    let mut r: Vec<Vec<u8>> = Vec::new();
    let mut i: usize = 0;
    while i < words.len()
        invariant
            i <= words.len(),
            r.len() == i,
            forall|j: int| 0 <= j < i ==> (#[trigger] r@[j])@ == encode_utf8(words@[j]@),
        decreases words.len() - i,
    {
        r.push(words[i].as_str().as_bytes_vec());
        i = i + 1;
    }
    assert(byte_views(r@) =~= encoded_words(text::views(words@)));
    r
}

/// The UTF-8 encodings of words.
pub open spec fn encoded_words(words: Seq<Seq<char>>) -> Seq<Seq<u8>> {
    Seq::new(words.len(), |i: int| encode_utf8(words[i]))
}

/// The snippet of an escaped text, given the text in small letters; none where a cut would
/// split a character of the text in small letters.
pub fn snippet_of(full: &str, lower: &str, words: &Vec<String>, max_len: usize) -> (r: Option<
    String,
>)
    requires
        forall|i: int| 0 <= i < words@.len() ==> (#[trigger] words@[i])@.len() > 0,
        encode_utf8(full@).len() + max_len <= usize::MAX,
    ensures
        match r {
            Some(s) => cuts_fit(
                encode_utf8(full@),
                encode_utf8(lower@),
                encoded_words(text::views(words@)),
                max_len as int,
            ) && encode_utf8(s@) == highlighted(
                encode_utf8(full@),
                encode_utf8(lower@),
                encoded_words(text::views(words@)),
                max_len as int,
            ),
            None => !cuts_fit(
                encode_utf8(full@),
                encode_utf8(lower@),
                encoded_words(text::views(words@)),
                max_len as int,
            ),
        },
{
    let f: Vec<u8> = full.as_bytes_vec();
    let l: Vec<u8> = lower.as_bytes_vec();
    let ws: Vec<Vec<u8>> = encoded(words);
    let ghost wv = encoded_words(text::views(words@));
    proof {
        vstd::utf8::encode_utf8_valid_utf8(full@);
        vstd::utf8::encode_utf8_valid_utf8("…"@);
        assert(byte_views(ws@).len() == wv.len());
        assert forall|i: int| 0 <= i < ws@.len() implies (#[trigger] ws@[i])@.len() > 0 by {
            assert(byte_views(ws@)[i] == wv[i]);
            assert(words@[i]@.len() > 0);
            lemma_encoding_is_not_empty(words@[i]@);
        }
    }
    let start: usize = start_of(&f, &l, &ws, max_len);
    let limit: usize = if start + max_len <= f.len() {
        start + max_len
    } else {
        f.len()
    };
    let end: usize = floor_char_boundary(&f, limit);
    if end > l.len() || !at_boundary(&l, start) || !at_boundary(&l, end) {
        return None;
    }
    let shown: Vec<u8> = cut_bytes(&f, start, end);
    let shown_lower: Vec<u8> = cut_bytes(&l, start, end);
    proof {
        lemma_part_is_valid(f@, start as int, end as int);
        law_marks_fit(shown@, shown_lower@, byte_views(ws@));
    }
    let marks: Vec<(usize, usize)> = merged(&sort_marks(&marks_of(&shown_lower, &shown, &ws)));
    let body: Vec<u8> = rendered(&shown, &marks);
    let dots: Vec<u8> = "…".as_bytes_vec();
    let mut out: Vec<u8> = Vec::new();
    if start > 0 {
        push_bytes(&mut out, &dots);
    }
    let ghost lead = out@;
    proof {
        assert(lead =~= if start > 0 {
            dots@
        } else {
            Seq::empty()
        });
        vstd::utf8::valid_utf8_concat(lead, body@);
        vstd::utf8::valid_utf8_concat(lead + body@, dots@);
    }
    push_bytes(&mut out, &body);
    let ghost most = out@;
    if end < f.len() {
        push_bytes(&mut out, &dots);
    }
    proof {
        let goal = highlighted(f@, l@, wv, max_len as int);
        let ms = places(marks@);
        let n = ms.len() as int;
        let tail = if end < f@.len() {
            dots@
        } else {
            Seq::empty()
        };
        assert(out@ =~= most + tail);
        assert(goal =~= lead + render_marks(shown@, ms, n) + shown@.subrange(
            mark_cursor(ms, n),
            shown@.len() as int,
        ) + tail);
        assert(out@ =~= goal);
    }
    unicode::from_utf8(out)
}

/// The encoding of a character takes at least one byte.
proof fn lemma_encoding_is_not_empty(s: Seq<char>)
    requires
        s.len() > 0,
    ensures
        encode_utf8(s).len() > 0,
{
    vstd::utf8::encode_utf8_first_scalar(s);
}

/// The snippet of a text around the first hit of the words, as HTML. None where a cut would
/// split a character of the lowercase text, which happens only where lowercasing changes the
/// length of a character, or where the lengths do not fit.
pub fn highlight_snippet(raw: &str, words: &Vec<String>, max_len: usize) -> (r: Option<String>)
    requires
        forall|i: int| 0 <= i < words@.len() ==> (#[trigger] words@[i])@.len() > 0,
    ensures
        ({
            let full = encode_utf8(markup::escape(raw@));
            let lower = encode_utf8(unicode::lowercase(markup::escape(raw@)));
            let ws = encoded_words(text::views(words@));
            let fits = full.len() + max_len <= usize::MAX && cuts_fit(
                full,
                lower,
                ws,
                max_len as int,
            );
            match r {
                Some(s) => fits && encode_utf8(s@) == highlighted(full, lower, ws, max_len as int),
                None => !fits,
            }
        }),
{
    let full: String = markup::escape_html(raw);
    let lower: String = unicode::to_lowercase(full.as_str());
    let n: usize = full.as_str().as_bytes().len();
    if max_len > usize::MAX - n {
        return None;
    }
    snippet_of(full.as_str(), lower.as_str(), words, max_len)
}

// ---------------------------------------------------------------------------
// What a snippet shows
// ---------------------------------------------------------------------------

/// The first hit is a place where one of the words stands, and none stands before it; there is
/// one as soon as any word stands in the text.
pub proof fn law_first_hit(lower: Seq<u8>, words: Seq<Seq<u8>>)
    ensures
        match first_hit(lower, words) {
            Some(p) => (exists|k: int|
                0 <= k < words.len() && text::occurs_at(lower, #[trigger] words[k], p)) && forall|
                k: int,
                q: int,
            |
                0 <= k < words.len() && 0 <= q < p ==> !#[trigger] text::occurs_at(
                    lower,
                    words[k],
                    q,
                ),
            None => forall|k: int, q: int|
                0 <= k < words.len() && 0 <= q ==> !#[trigger] text::occurs_at(lower, words[k], q),
        },
    decreases words.len(),
{
    if words.len() > 0 {
        let front = words.drop_last();
        law_first_hit(lower, front);
        text::lemma_find(lower, words.last(), 0);
        let last = words.len() - 1;
        assert(words[last] == words.last());
        assert forall|k: int| 0 <= k < last implies front[k] == words[k] by {}
        match first_hit(lower, words) {
            Some(p) => {
                if first_hit(lower, front) == Some(p) {
                    let k = choose|k: int|
                        0 <= k < front.len() && text::occurs_at(lower, #[trigger] front[k], p);
                    assert(text::occurs_at(lower, words[k], p));
                } else {
                    assert(text::occurs_at(lower, words[last], p));
                }
                assert forall|k: int, q: int|
                    0 <= k < words.len() && 0 <= q < p implies !#[trigger] text::occurs_at(
                    lower,
                    words[k],
                    q,
                ) by {
                    if k < last {
                        assert(!text::occurs_at(lower, front[k], q));
                    }
                }
            },
            None => {
                assert forall|k: int, q: int|
                    0 <= k < words.len() && 0 <= q implies !#[trigger] text::occurs_at(
                    lower,
                    words[k],
                    q,
                ) by {
                    if k < last {
                        assert(!text::occurs_at(lower, front[k], q));
                    }
                }
            },
        }
    }
}

proof fn lemma_ceil(b: Seq<u8>, pos: int)
    requires
        0 <= pos,
    ensures
        ceil_boundary(b, pos) <= b.len(),
        pos <= b.len() ==> pos <= ceil_boundary(b, pos),
        boundary(b, ceil_boundary(b, pos)),
        forall|i: int| pos <= i < ceil_boundary(b, pos) ==> !boundary(b, i),
    decreases b.len() - pos,
{
    if pos < b.len() && !boundary(b, pos) {
        lemma_ceil(b, pos + 1);
    }
}

proof fn lemma_floor(b: Seq<u8>, pos: int)
    requires
        0 <= pos <= b.len(),
    ensures
        0 <= floor_boundary(b, pos) <= pos,
        boundary(b, floor_boundary(b, pos)),
        forall|i: int| floor_boundary(b, pos) < i <= pos ==> !boundary(b, i),
    decreases pos,
{
    if 0 < pos < b.len() && !boundary(b, pos) {
        lemma_floor(b, pos - 1);
    }
}

/// A snippet is a part of the text of no more bytes than asked for, cut between characters: from
/// the beginning where the first hit lies within the first third of that length or there is none,
/// and otherwise from no earlier than a third of it before the hit. It reaches as far as the
/// length allows.
#[verifier::rlimit(50)]
pub proof fn law_snippet_window(full: Seq<u8>, lower: Seq<u8>, words: Seq<Seq<u8>>, max_len: int)
    requires
        0 <= max_len,
    ensures
        ({
            let start = snippet_start(full, lower, words, max_len);
            let end = snippet_end(full, start, max_len);
            let hit = match first_hit(lower, words) {
                Some(p) => p,
                None => 0,
            };
            &&& 0 <= start <= end <= full.len()
            &&& end - start <= max_len
            &&& boundary(full, start) && boundary(full, end)
            &&& hit <= max_len / 3 ==> start == 0
            &&& hit > max_len / 3 && hit <= full.len() ==> start >= hit - max_len / 3
            &&& full.len() <= start + max_len ==> end == full.len()
            &&& forall|i: int| end < i <= start + max_len && i <= full.len() ==> !boundary(full, i)
        }),
{
    law_first_hit(lower, words);
    let hit = match first_hit(lower, words) {
        Some(p) => p,
        None => 0,
    };
    lemma_hit_is_a_place(lower, words);
    let raw = if hit > max_len / 3 {
        hit - max_len / 3
    } else {
        0
    };
    let mid = if raw > 0 {
        let snapped = ceil_boundary(full, raw);
        match text::find(full, seq![0x20u8], snapped) {
            Some(j) => j + 1,
            None => snapped,
        }
    } else {
        0
    };
    if raw > 0 {
        lemma_ceil(full, raw);
        text::lemma_find(full, seq![0x20u8], ceil_boundary(full, raw));
    }
    lemma_ceil(full, mid);
    let start = snippet_start(full, lower, words, max_len);
    assert(start == ceil_boundary(full, mid));
    let top = if start + max_len <= full.len() {
        start + max_len
    } else {
        full.len() as int
    };
    lemma_floor(full, top);
    let end = snippet_end(full, start, max_len);
    assert(end == floor_boundary(full, top));
    if end < start {
        assert(!boundary(full, start));
    }
}

proof fn lemma_hit_is_a_place(lower: Seq<u8>, words: Seq<Seq<u8>>)
    ensures
        first_hit(lower, words) is Some ==> 0 <= first_hit(lower, words).unwrap() <= lower.len(),
    decreases words.len(),
{
    if words.len() > 0 {
        lemma_hit_is_a_place(lower, words.drop_last());
        text::lemma_find(lower, words.last(), 0);
    }
}

/// Whether a place lies within one of some marks.
pub open spec fn is_marked(marks: Seq<(int, int)>, x: int) -> bool {
    exists|k: int| 0 <= k < marks.len() && (#[trigger] marks[k]).0 <= x < marks[k].1
}

#[verifier::rlimit(50)]
proof fn lemma_merge_covers(marks: Seq<(int, int)>, x: int)
    requires
        forall|i: int, j: int|
            0 <= i < j < marks.len() ==> (#[trigger] marks[i]).0 <= (#[trigger] marks[j]).0,
        forall|i: int| 0 <= i < marks.len() ==> (#[trigger] marks[i]).0 < marks[i].1,
    ensures
        is_marked(merge_marks(marks), x) <==> is_marked(marks, x),
        marks.len() > 0 ==> merge_marks(marks).len() > 0 && merge_marks(marks).last().0
            <= marks.last().0 && merge_marks(marks).last().0 < merge_marks(marks).last().1,
    decreases marks.len(),
{
    if marks.len() > 0 {
        let rest = marks.drop_last();
        assert forall|i: int, j: int| 0 <= i < j < rest.len() implies (#[trigger] rest[i]).0 <= (
        #[trigger] rest[j]).0 by {
            assert(marks[i].0 <= marks[j].0);
        }
        assert forall|i: int| 0 <= i < rest.len() implies (#[trigger] rest[i]).0 < rest[i].1 by {
            assert(marks[i].0 < marks[i].1);
        }
        lemma_merge_covers(rest, x);
        let front = merge_marks(rest);
        let all = merge_marks(marks);
        let n = marks.len() - 1;
        let (s, e) = marks.last();
        assert(marks[n] == (s, e));
        if rest.len() > 0 {
            assert(rest.last() == marks[n - 1]);
            assert(marks[n - 1].0 <= marks[n].0);
        }
        let joined = front.len() > 0 && s <= front.last().1;
        let f = front.len() - 1;
        if is_marked(all, x) {
            let k = choose|k: int| 0 <= k < all.len() && (#[trigger] all[k]).0 <= x < all[k].1;
            if joined && k == f && !(front[f].0 <= x < front[f].1) {
                assert(marks[n].0 <= x < marks[n].1);
            } else if k < front.len() {
                assert(front[k].0 <= x < front[k].1);
                assert(is_marked(front, x));
                let j = choose|j: int| 0 <= j < rest.len() && (#[trigger] rest[j]).0 <= x < rest[j].1;
                assert(marks[j].0 <= x < marks[j].1);
            } else {
                assert(marks[n].0 <= x < marks[n].1);
            }
        }
        if is_marked(marks, x) {
            let j = choose|j: int| 0 <= j < marks.len() && (#[trigger] marks[j]).0 <= x < marks[j].1;
            if j < n {
                assert(rest[j].0 <= x < rest[j].1);
                assert(is_marked(front, x));
                let k = choose|k: int|
                    0 <= k < front.len() && (#[trigger] front[k]).0 <= x < front[k].1;
                assert(all[k].0 <= x < all[k].1);
            } else {
                assert(all[all.len() - 1].0 <= x < all[all.len() - 1].1);
            }
        }
    }
}

proof fn lemma_marks_ascend(marks: Seq<(int, int)>)
    ensures
        sorted_marks(marks).len() == marks.len(),
        forall|i: int, j: int|
            0 <= i < j < sorted_marks(marks).len() ==> (#[trigger] sorted_marks(marks)[i]).0 <= (
            #[trigger] sorted_marks(marks)[j]).0,
        forall|m: (int, int)| #[trigger] sorted_marks(marks).contains(m) <==> marks.contains(m),
{
    let keys = mark_keys(marks);
    sort::lemma_sorted_rows(marks, keys);
    let o = sort::stable_order(keys);
    let r = sorted_marks(marks);
    assert forall|i: int, j: int| 0 <= i < j < r.len() implies (#[trigger] r[i]).0 <= (
    #[trigger] r[j]).0 by {
        assert(!sort::key_lt(keys[o[j]], keys[o[i]]));
    }
}

/// Whether a place of a text lies within a stand of a word that is found from the left, each
/// behind the one before it, and that does not split a character of what is shown.
pub open spec fn is_hit(lower: Seq<u8>, shown: Seq<u8>, words: Seq<Seq<u8>>, x: int) -> bool {
    is_marked(all_marks(lower, shown, words), x)
}

/// What is marked in a snippet is what lies within a stand of a word, no more and no less.
#[verifier::rlimit(50)]
pub proof fn law_marks_are_the_hits(shown: Seq<u8>, shown_lower: Seq<u8>, words: Seq<Seq<u8>>, x: int)
    ensures
        is_marked(shown_marks(shown, shown_lower, words), x) <==> is_hit(
            shown_lower,
            shown,
            words,
            x,
        ),
{
    let marks = all_marks(shown_lower, shown, words);
    let sorted = sorted_marks(marks);
    lemma_marks_ascend(marks);
    lemma_marks_are_words(shown_lower, shown, words);
    assert forall|i: int| 0 <= i < sorted.len() implies (#[trigger] sorted[i]).0 < sorted[i].1 by {
        assert(sorted.contains(sorted[i]));
        assert(marks.contains(sorted[i]));
        let k = choose|k: int| 0 <= k < marks.len() && marks[k] == sorted[i];
        assert(marks[k].0 < marks[k].1);
    }
    lemma_merge_covers(sorted, x);
    if is_marked(sorted, x) {
        let k = choose|k: int| 0 <= k < sorted.len() && (#[trigger] sorted[k]).0 <= x < sorted[k].1;
        assert(sorted.contains(sorted[k]));
        let j = choose|j: int| 0 <= j < marks.len() && marks[j] == sorted[k];
        assert(marks[j].0 <= x < marks[j].1);
    }
    if is_marked(marks, x) {
        let k = choose|k: int| 0 <= k < marks.len() && (#[trigger] marks[k]).0 <= x < marks[k].1;
        assert(marks.contains(marks[k]));
        assert(sorted.contains(marks[k]));
        let j = choose|j: int| 0 <= j < sorted.len() && sorted[j] == marks[k];
        assert(sorted[j].0 <= x < sorted[j].1);
    }
}

/// Whether a mark is a stand of one of some words.
pub open spec fn marks_a_word(lower: Seq<u8>, words: Seq<Seq<u8>>, m: (int, int)) -> bool {
    exists|k: int|
        0 <= k < words.len() && m.1 == m.0 + words[k].len() && text::occurs_at(
            lower,
            #[trigger] words[k],
            m.0,
        )
}

proof fn lemma_word_stands(lower: Seq<u8>, shown: Seq<u8>, word: Seq<u8>, from: int)
    requires
        0 <= from,
    ensures
        forall|i: int|
            0 <= i < word_marks(lower, shown, word, from).len() ==> {
                let m = #[trigger] word_marks(lower, shown, word, from)[i];
                m.0 < m.1 && m.1 == m.0 + word.len() && text::occurs_at(lower, word, m.0)
            },
    decreases lower.len() - from,
{
    text::lemma_find(lower, word, from);
    match text::find(lower, word, from) {
        Some(p) => {
            if from <= p && p + word.len() <= lower.len() && word.len() > 0 {
                let end = p + word.len() as int;
                lemma_word_stands(lower, shown, word, end);
                let rest = word_marks(lower, shown, word, end);
                let all = word_marks(lower, shown, word, from);
                assert forall|i: int| 0 <= i < all.len() implies {
                    let m = #[trigger] all[i];
                    m.0 < m.1 && m.1 == m.0 + word.len() && text::occurs_at(lower, word, m.0)
                } by {
                    if boundary(shown, p) && boundary(shown, end) {
                        if i > 0 {
                            assert(all[i] == rest[i - 1]);
                        }
                    } else {
                        assert(all[i] == rest[i]);
                    }
                }
            }
        },
        None => {},
    }
}

proof fn lemma_marks_are_words(lower: Seq<u8>, shown: Seq<u8>, words: Seq<Seq<u8>>)
    ensures
        forall|i: int|
            0 <= i < all_marks(lower, shown, words).len() ==> {
                let m = #[trigger] all_marks(lower, shown, words)[i];
                m.0 < m.1 && marks_a_word(lower, words, m)
            },
    decreases words.len(),
{
    if words.len() > 0 {
        let front = words.drop_last();
        lemma_marks_are_words(lower, shown, front);
        lemma_word_stands(lower, shown, words.last(), 0);
        let a = all_marks(lower, shown, front);
        let b = word_marks(lower, shown, words.last(), 0);
        let all = all_marks(lower, shown, words);
        assert forall|i: int| 0 <= i < all.len() implies {
            let m = #[trigger] all[i];
            m.0 < m.1 && marks_a_word(lower, words, m)
        } by {
            if i < a.len() {
                assert(all[i] == a[i]);
                let k = choose|k: int|
                    0 <= k < front.len() && a[i].1 == a[i].0 + front[k].len() && text::occurs_at(
                        lower,
                        #[trigger] front[k],
                        a[i].0,
                    );
                assert(words[k] == front[k]);
            } else {
                assert(all[i] == b[i - a.len()]);
                assert(text::occurs_at(lower, words[words.len() - 1], all[i].0));
            }
        }
    }
}

/// Nothing but words is marked, and of every word its first stand is, unless that splits a
/// character of what is shown.
pub proof fn law_words_are_marked(lower: Seq<u8>, shown: Seq<u8>, words: Seq<Seq<u8>>, k: int)
    requires
        0 <= k < words.len(),
        words[k].len() > 0,
    ensures
        forall|i: int|
            0 <= i < all_marks(lower, shown, words).len() ==> marks_a_word(
                lower,
                words,
                #[trigger] all_marks(lower, shown, words)[i],
            ),
        match text::find(lower, words[k], 0) {
            Some(p) => boundary(shown, p) && boundary(shown, p + words[k].len()) ==> all_marks(
                lower,
                shown,
                words,
            ).contains((p, p + words[k].len() as int)),
            None => true,
        },
    decreases words.len(),
{
    lemma_marks_are_words(lower, shown, words);
    let front = words.drop_last();
    let a = all_marks(lower, shown, front);
    let all = all_marks(lower, shown, words);
    match text::find(lower, words[k], 0) {
        Some(p) => {
            text::lemma_find(lower, words[k], 0);
            let m = (p, p + words[k].len() as int);
            if boundary(shown, p) && boundary(shown, p + words[k].len()) {
                if k < words.len() - 1 {
                    assert(front[k] == words[k]);
                    law_words_are_marked(lower, shown, front, k);
                    let i = choose|i: int| 0 <= i < a.len() && a[i] == m;
                    assert(all[i] == m);
                } else {
                    let b = word_marks(lower, shown, words.last(), 0);
                    assert(b[0] == m);
                    assert(all[a.len() as int] == m);
                }
            }
        },
        None => {},
    }
}

/// What lies in no mark is shown as it stands, and what lies in one between `<mark>` and
/// `</mark>`.
pub proof fn law_rendered_marks(a: Seq<u8>, w: Seq<u8>, b: Seq<u8>)
    ensures
        render_marks(a + w + b, Seq::empty(), 0) == Seq::<u8>::empty(),
        render_marks(a + w + b, seq![(a.len() as int, (a.len() + w.len()) as int)], 1) == a + encode_utf8(
            "<mark>"@,
        ) + w + encode_utf8("</mark>"@),
        mark_cursor(seq![(a.len() as int, (a.len() + w.len()) as int)], 1) == a.len() + w.len(),
{
    let s = a + w + b;
    let m = seq![(a.len() as int, (a.len() + w.len()) as int)];
    assert(render_marks(s, m, 0) =~= Seq::empty());
    assert(s.subrange(0, a.len() as int) =~= a);
    assert(s.subrange(a.len() as int, (a.len() + w.len()) as int) =~= w);
    assert(render_marks(s, m, 1) =~= a + encode_utf8("<mark>"@) + w + encode_utf8("</mark>"@));
}

/// A text without any of the words that is short enough is shown whole and as it is.
pub proof fn law_short_texts_without_hits(
    full: Seq<u8>,
    lower: Seq<u8>,
    words: Seq<Seq<u8>>,
    max_len: int,
)
    requires
        full.len() <= max_len,
        lower.len() == full.len(),
        forall|k: int, q: int|
            0 <= k < words.len() && 0 <= q ==> !#[trigger] text::occurs_at(lower, words[k], q),
    ensures
        highlighted(full, lower, words, max_len) == full,
{
    law_first_hit(lower, words);
    match first_hit(lower, words) {
        Some(p) => {
            let k = choose|k: int|
                0 <= k < words.len() && text::occurs_at(lower, #[trigger] words[k], p);
            lemma_hit_is_a_place(lower, words);
        },
        None => {},
    }
    law_snippet_window(full, lower, words, max_len);
    let start = snippet_start(full, lower, words, max_len);
    let end = snippet_end(full, start, max_len);
    assert(start == 0 && end == full.len());
    assert(full.subrange(0, full.len() as int) =~= full);
    assert(lower.subrange(0, lower.len() as int) =~= lower);
    let marks = all_marks(lower, full, words);
    lemma_marks_are_words(lower, full, words);
    if marks.len() > 0 {
        assert(marks_a_word(lower, words, marks[0]));
        let k = choose|k: int|
            0 <= k < words.len() && marks[0].1 == marks[0].0 + words[k].len() && text::occurs_at(
                lower,
                #[trigger] words[k],
                marks[0].0,
            );
        assert(false);
    }
    lemma_marks_ascend(marks);
    let shown = shown_marks(full, lower, words);
    assert(sorted_marks(marks).len() == 0);
    assert(shown.len() == 0);
    assert(render_marks(full, shown, 0) =~= Seq::empty());
    assert(highlighted(full, lower, words, max_len) =~= full);
}

/// What is left out of a text is stood for by an ellipsis, in front or behind, and only there.
pub proof fn law_ellipses(full: Seq<u8>, lower: Seq<u8>, words: Seq<Seq<u8>>, max_len: int)
    ensures
        ({
            let start = snippet_start(full, lower, words, max_len);
            let end = snippet_end(full, start, max_len);
            let shown = full.subrange(start, end);
            let marks = shown_marks(shown, lower.subrange(start, end), words);
            let inner = render_marks(shown, marks, marks.len() as int) + shown.subrange(
                mark_cursor(marks, marks.len() as int),
                shown.len() as int,
            );
            let out = highlighted(full, lower, words, max_len);
            &&& start <= 0 && end >= full.len() ==> out == inner
            &&& start > 0 && end >= full.len() ==> out == encode_utf8("…"@) + inner
            &&& start <= 0 && end < full.len() ==> out == inner + encode_utf8("…"@)
            &&& start > 0 && end < full.len() ==> out == encode_utf8("…"@) + inner + encode_utf8("…"@)
        }),
{
    let start = snippet_start(full, lower, words, max_len);
    let end = snippet_end(full, start, max_len);
    let shown = full.subrange(start, end);
    let marks = shown_marks(shown, lower.subrange(start, end), words);
    let inner = render_marks(shown, marks, marks.len() as int) + shown.subrange(
        mark_cursor(marks, marks.len() as int),
        shown.len() as int,
    );
    let out = highlighted(full, lower, words, max_len);
    let dots = encode_utf8("…"@);
    if start <= 0 && end >= full.len() {
        assert(out =~= inner);
    } else if start > 0 && end >= full.len() {
        assert(out =~= dots + inner);
    } else if start <= 0 {
        assert(out =~= inner + dots);
    } else {
        assert(out =~= dots + inner + dots);
    }
}

} // verus!
