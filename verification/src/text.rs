//! Text as sequences of characters: the operations that every other module is
//! specified with, and executable versions of them.

use vstd::prelude::*;

verus! {

/// `String::push` appends one character to the string.
pub assume_specification[ String::push ](s: &mut String, ch: char)
    ensures
        final(s)@ == old(s)@.push(ch),
;

// ---------------------------------------------------------------------------
// Conversions
// ---------------------------------------------------------------------------

/// The characters of a string.
pub fn chars(s: &str) -> (v: Vec<char>)
    ensures
        v@ == s@,
{
    let mut v: Vec<char> = Vec::new();
    for c in it: s.chars()
        invariant
            v@ == s@.take(it.index()),
            it.seq() == s@,
    {
        v.push(c);
        assert(s@.take(it.index() + 1) =~= s@.take(it.index()).push(c));
    }
    assert(s@.take(s@.len() as int) =~= s@);
    v
}

/// The string of a sequence of characters.
pub fn string(v: &Vec<char>) -> (s: String)
    ensures
        s@ == v@,
{
    let mut s = String::new();
    let mut i: usize = 0;
    while i < v.len()
        invariant
            i <= v.len(),
            s@ == v@.take(i as int),
        decreases v.len() - i,
    {
        s.push(v[i]);
        assert(v@.take(i + 1) =~= v@.take(i as int).push(v@[i as int]));
        i = i + 1;
    }
    assert(v@.take(v.len() as int) =~= v@);
    s
}

/// The views of a sequence of strings.
pub open spec fn views(v: Seq<String>) -> Seq<Seq<char>> {
    Seq::new(v.len(), |i: int| v[i]@)
}

/// The view of an optional string.
pub open spec fn opt_view(o: Option<String>) -> Option<Seq<char>> {
    match o {
        Some(s) => Some(s@),
        None => None,
    }
}

/// The view of an optional borrowed string.
pub open spec fn opt_str(o: Option<&str>) -> Option<Seq<char>> {
    match o {
        Some(s) => Some(s@),
        None => None,
    }
}

/// A copy of part of a character vector.
pub fn cut(v: &Vec<char>, from: usize, to: usize) -> (r: Vec<char>)
    requires
        from <= to <= v@.len(),
    ensures
        r@ == v@.subrange(from as int, to as int),
{
    let mut r: Vec<char> = Vec::new();
    let mut i: usize = from;
    while i < to
        invariant
            from <= i <= to <= v@.len(),
            r@ == v@.subrange(from as int, i as int),
        decreases to - i,
    {
        r.push(v[i]);
        assert(v@.subrange(from as int, i + 1) =~= v@.subrange(from as int, i as int).push(
            v@[i as int],
        ));
        i = i + 1;
    }
    r
}

/// Copies every string of a slice.
pub fn copies(v: &Vec<String>) -> (r: Vec<String>)
    ensures
        views(r@) == views(v@),
{
    let mut r: Vec<String> = Vec::new();
    let mut i: usize = 0;
    while i < v.len()
        invariant
            i <= v.len(),
            r.len() == i,
            forall|j: int| 0 <= j < i ==> (#[trigger] r@[j])@ == v@[j]@,
        decreases v.len() - i,
    {
        r.push(v[i].clone());
        i = i + 1;
    }
    assert(views(r@) =~= views(v@));
    r
}

/// Whether two strings hold the same characters.
pub fn same(a: &str, b: &str) -> (r: bool)
    ensures
        r == (a@ == b@),
{
    a.to_owned() == b.to_owned()
}

/// Whether two character vectors hold the same characters.
pub fn same_chars(a: &Vec<char>, b: &Vec<char>) -> (r: bool)
    ensures
        r == (a@ == b@),
{
    if a.len() != b.len() {
        return false;
    }
    let mut i: usize = 0;
    while i < a.len()
        invariant
            a.len() == b.len(),
            i <= a.len(),
            a@.take(i as int) == b@.take(i as int),
        decreases a.len() - i,
    {
        if a[i] != b[i] {
            assert(a@ != b@) by {
                assert(a@[i as int] != b@[i as int]);
            }
            return false;
        }
        assert(a@.take(i + 1) =~= a@.take(i as int).push(a@[i as int]));
        assert(b@.take(i + 1) =~= b@.take(i as int).push(b@[i as int]));
        i = i + 1;
    }
    assert(a@.take(a.len() as int) =~= a@);
    assert(b@.take(b.len() as int) =~= b@);
    true
}

/// The first place at which `x` stands in `v`, or none.
pub open spec fn position<K>(v: Seq<K>, x: K) -> Option<int>
    decreases v.len(),
{
    if v.len() == 0 {
        None
    } else {
        match position(v.drop_last(), x) {
            Some(i) => Some(i),
            None => if v.last() == x {
                Some(v.len() - 1)
            } else {
                None
            },
        }
    }
}

/// What [`position`] finds: the first equal entry, or that there is none.
pub proof fn lemma_position<K>(v: Seq<K>, x: K)
    ensures
        match position(v, x) {
            Some(i) => 0 <= i < v.len() && v[i] == x && forall|j: int| 0 <= j < i ==> v[j] != x,
            None => forall|j: int| 0 <= j < v.len() ==> v[j] != x,
        },
        position(v, x) is Some <==> v.contains(x),
    decreases v.len(),
{
    if v.len() > 0 {
        lemma_position(v.drop_last(), x);
        match position(v.drop_last(), x) {
            Some(i) => {
                assert(v[i] == x);
                assert forall|j: int| 0 <= j < i implies v[j] != x by {
                    assert(v.drop_last()[j] == v[j]);
                }
            },
            None => {
                assert forall|j: int| 0 <= j < v.len() - 1 implies v[j] != x by {
                    assert(v.drop_last()[j] == v[j]);
                }
                if v.last() == x {
                    assert(v[v.len() - 1] == x);
                }
            },
        }
    }
}

/// The first place at which a text stands in a list, or none.
pub fn position_of(v: &Vec<String>, x: &str) -> (r: Option<usize>)
    ensures
        match r {
            Some(i) => position(views(v@), x@) == Some(i as int) && i < v.len(),
            None => position(views(v@), x@) is None,
        },
{
    let key: String = x.to_owned();
    let mut i: usize = 0;
    while i < v.len()
        invariant
            i <= v.len(),
            key@ == x@,
            position(views(v@).take(i as int), x@) is None,
        decreases v.len() - i,
    {
        assert(views(v@).take(i + 1).drop_last() =~= views(v@).take(i as int));
        if v[i] == key {
            assert(position(views(v@).take(i + 1), x@) == Some(i as int));
            proof {
                lemma_position_prefix(views(v@), x@, i + 1);
            }
            return Some(i);
        }
        i = i + 1;
    }
    assert(views(v@).take(v.len() as int) =~= views(v@));
    None
}

/// A place found in a prefix is the place found in the whole list.
pub proof fn lemma_position_prefix<K>(v: Seq<K>, x: K, n: int)
    requires
        0 <= n <= v.len(),
        position(v.take(n), x) is Some,
    ensures
        position(v, x) == position(v.take(n), x),
    decreases v.len() - n,
{
    if n == v.len() {
        assert(v.take(n) =~= v);
    } else {
        assert(v.take(n + 1).drop_last() =~= v.take(n));
        lemma_position_prefix(v, x, n + 1);
    }
}

/// Whether a list holds a text.
pub fn contains(v: &Vec<String>, x: &str) -> (r: bool)
    ensures
        r == views(v@).contains(x@),
{
    let found: Option<usize> = position_of(v, x);
    proof {
        lemma_position(views(v@), x@);
    }
    found.is_some()
}

// ---------------------------------------------------------------------------
// Order
// ---------------------------------------------------------------------------

/// Lexicographic order by code point, strict.
pub open spec fn text_lt(a: Seq<char>, b: Seq<char>) -> bool
    decreases a.len(),
{
    if b.len() == 0 {
        false
    } else if a.len() == 0 {
        true
    } else if a[0] == b[0] {
        text_lt(a.skip(1), b.skip(1))
    } else {
        a[0] < b[0]
    }
}

/// Compares two texts by code point.
pub fn lt(a: &Vec<char>, b: &Vec<char>) -> (r: bool)
    ensures
        r == text_lt(a@, b@),
{
    let mut i: usize = 0;
    assert(a@.skip(0) =~= a@);
    assert(b@.skip(0) =~= b@);
    while i < a.len() && i < b.len()
        invariant
            i <= a.len(),
            i <= b.len(),
            text_lt(a@, b@) == text_lt(a@.skip(i as int), b@.skip(i as int)),
        decreases a.len() - i,
    {
        if a[i] != b[i] {
            return a[i] < b[i];
        }
        assert(a@.skip(i as int).skip(1) =~= a@.skip(i + 1));
        assert(b@.skip(i as int).skip(1) =~= b@.skip(i + 1));
        i = i + 1;
    }
    i == a.len() && i < b.len()
}

/// Compares two strings by code point.
pub fn str_lt(a: &str, b: &str) -> (r: bool)
    ensures
        r == text_lt(a@, b@),
{
    lt(&chars(a), &chars(b))
}

/// The order is strict and total.
pub proof fn lemma_text_order(a: Seq<char>, b: Seq<char>)
    ensures
        !text_lt(a, a),
        !(text_lt(a, b) && text_lt(b, a)),
        text_lt(a, b) || text_lt(b, a) || a == b,
    decreases a.len(),
{
    if a.len() > 0 && b.len() > 0 && a[0] == b[0] {
        lemma_text_order(a.skip(1), b.skip(1));
        if a.skip(1) == b.skip(1) {
            assert(a =~= seq![a[0]] + a.skip(1));
            assert(b =~= seq![b[0]] + b.skip(1));
        }
    } else if a.len() > 0 {
        lemma_text_order(a.skip(1), a.skip(1));
    } else if b.len() == 0 {
        assert(a =~= b);
    }
}

/// The order is transitive.
pub proof fn lemma_text_order_transitive(a: Seq<char>, b: Seq<char>, c: Seq<char>)
    requires
        text_lt(a, b),
        text_lt(b, c),
    ensures
        text_lt(a, c),
    decreases a.len(),
{
    if a.len() > 0 && b.len() > 0 && c.len() > 0 && a[0] == b[0] && b[0] == c[0] {
        lemma_text_order_transitive(a.skip(1), b.skip(1), c.skip(1));
    }
}

// ---------------------------------------------------------------------------
// Searching
// ---------------------------------------------------------------------------

/// Whether `pat` stands in `s` at place `i`.
pub open spec fn occurs_at<T>(s: Seq<T>, pat: Seq<T>, i: int) -> bool {
    0 <= i && i + pat.len() <= s.len() && s.subrange(i, i + pat.len()) == pat
}

/// The first place at or after `from` where `pat` stands in `s`.
pub open spec fn find<T>(s: Seq<T>, pat: Seq<T>, from: int) -> Option<int>
    decreases s.len() + 1 - from,
{
    if from < 0 || from + pat.len() > s.len() {
        None
    } else if occurs_at(s, pat, from) {
        Some(from)
    } else {
        find(s, pat, from + 1)
    }
}

/// What [`find`] finds: the first occurrence, or that there is none.
pub proof fn lemma_find<T>(s: Seq<T>, pat: Seq<T>, from: int)
    requires
        0 <= from,
    ensures
        match find(s, pat, from) {
            Some(i) => from <= i && occurs_at(s, pat, i) && forall|j: int|
                from <= j < i ==> !occurs_at(s, pat, j),
            None => forall|j: int| from <= j ==> !occurs_at(s, pat, j),
        },
    decreases s.len() + 1 - from,
{
    if from + pat.len() <= s.len() && !occurs_at(s, pat, from) {
        lemma_find(s, pat, from + 1);
    }
}

/// Whether `s` starts with `pat`.
pub open spec fn has_prefix(s: Seq<char>, pat: Seq<char>) -> bool {
    occurs_at(s, pat, 0)
}

/// Whether `s` ends with `pat`.
pub open spec fn has_suffix(s: Seq<char>, pat: Seq<char>) -> bool {
    occurs_at(s, pat, s.len() - pat.len())
}

/// Whether `pat` stands anywhere in `s`.
pub open spec fn has(s: Seq<char>, pat: Seq<char>) -> bool {
    find(s, pat, 0) is Some
}

/// Tests for an occurrence at one place.
pub fn at(s: &Vec<char>, pat: &Vec<char>, i: usize) -> (r: bool)
    ensures
        r == occurs_at(s@, pat@, i as int),
{
    if i > s.len() || pat.len() > s.len() - i {
        return false;
    }
    let mut j: usize = 0;
    while j < pat.len()
        invariant
            i + pat.len() <= s.len(),
            j <= pat.len(),
            forall|k: int| 0 <= k < j ==> s@[i + k] == pat@[k],
        decreases pat.len() - j,
    {
        if s[i + j] != pat[j] {
            assert(s@.subrange(i as int, i + pat@.len())[j as int] != pat@[j as int]);
            return false;
        }
        j = j + 1;
    }
    assert(s@.subrange(i as int, i + pat@.len()) =~= pat@);
    true
}

/// Finds the first occurrence at or after a place.
pub fn find_at(s: &Vec<char>, pat: &Vec<char>, from: usize) -> (r: Option<usize>)
    ensures
        match r {
            Some(i) => find(s@, pat@, from as int) == Some(i as int) && from <= i && i + pat.len()
                <= s.len() && occurs_at(s@, pat@, i as int),
            None => find(s@, pat@, from as int) is None,
        },
{
    if from > s.len() {
        return None;
    }
    let mut i: usize = from;
    while i <= s.len() && pat.len() <= s.len() - i
        invariant
            from <= i <= s.len() + 1,
            find(s@, pat@, from as int) == find(s@, pat@, i as int),
        decreases s.len() + 1 - i,
    {
        if at(s, pat, i) {
            return Some(i);
        }
        if i == s.len() {
            assert(find(s@, pat@, i + 1) is None);
            return None;
        }
        i = i + 1;
    }
    None
}

/// Finds the first occurrence of one character at or after a place.
pub fn find_char(s: &Vec<char>, c: char, from: usize) -> (r: Option<usize>)
    ensures
        match r {
            Some(i) => find(s@, seq![c], from as int) == Some(i as int) && from <= i < s.len()
                && s@[i as int] == c,
            None => find(s@, seq![c], from as int) is None,
        },
{
    let mut pat: Vec<char> = Vec::new();
    pat.push(c);
    assert(pat@ =~= seq![c]);
    let r: Option<usize> = find_at(s, &pat, from);
    proof {
        if let Some(i) = r {
            assert(s@.subrange(i as int, i + 1)[0] == seq![c][0]);
        }
    }
    r
}

/// Whether one character stands in the text.
pub proof fn lemma_has_char(s: Seq<char>, c: char)
    ensures
        has(s, seq![c]) <==> s.contains(c),
{
    lemma_find(s, seq![c], 0);
    match find(s, seq![c], 0) {
        Some(i) => {
            assert(s.subrange(i, i + 1)[0] == c);
            assert(s[i] == c);
        },
        None => {
            assert forall|j: int| 0 <= j < s.len() implies s[j] != c by {
                assert(!occurs_at(s, seq![c], j));
                if s[j] == c {
                    assert(s.subrange(j, j + 1) =~= seq![c]);
                }
            }
        },
    }
}

/// Whether a character vector holds a character.
pub fn has_char(s: &Vec<char>, c: char) -> (r: bool)
    ensures
        r == s@.contains(c),
{
    proof {
        lemma_has_char(s@, c);
    }
    find_char(s, c, 0).is_some()
}

/// Whether a pattern occurs.
pub fn has_text(s: &Vec<char>, pat: &Vec<char>) -> (r: bool)
    ensures
        r == has(s@, pat@),
{
    find_at(s, pat, 0).is_some()
}

/// Whether a text starts with a pattern.
pub fn starts_with(s: &Vec<char>, pat: &str) -> (r: bool)
    ensures
        r == has_prefix(s@, pat@),
{
    at(s, &chars(pat), 0)
}

/// Whether a text ends with a pattern.
pub fn ends_with(s: &Vec<char>, pat: &str) -> (r: bool)
    ensures
        r == has_suffix(s@, pat@),
{
    let p: Vec<char> = chars(pat);
    if p.len() > s.len() {
        return false;
    }
    at(s, &p, s.len() - p.len())
}

/// What remains of `s` behind the prefix `pat`, if it starts with it.
pub open spec fn strip_prefix(s: Seq<char>, pat: Seq<char>) -> Option<Seq<char>> {
    if has_prefix(s, pat) {
        Some(s.skip(pat.len() as int))
    } else {
        None
    }
}

/// Removes a prefix.
pub fn without_prefix(s: &Vec<char>, pat: &str) -> (r: Option<Vec<char>>)
    ensures
        match r {
            Some(v) => strip_prefix(s@, pat@) == Some(v@),
            None => strip_prefix(s@, pat@) is None,
        },
{
    let p: Vec<char> = chars(pat);
    if at(s, &p, 0) {
        let r: Vec<char> = cut(s, p.len(), s.len());
        assert(r@ =~= s@.skip(p@.len() as int));
        Some(r)
    } else {
        None
    }
}

/// What stands in front of the suffix `pat`, if `s` ends with it.
pub open spec fn strip_suffix(s: Seq<char>, pat: Seq<char>) -> Option<Seq<char>> {
    if has_suffix(s, pat) {
        Some(s.take(s.len() - pat.len()))
    } else {
        None
    }
}

/// Removes a suffix.
pub fn without_suffix(s: &Vec<char>, pat: &str) -> (r: Option<Vec<char>>)
    ensures
        match r {
            Some(v) => strip_suffix(s@, pat@) == Some(v@),
            None => strip_suffix(s@, pat@) is None,
        },
{
    if ends_with(s, pat) {
        let p: Vec<char> = chars(pat);
        let r: Vec<char> = cut(s, 0, s.len() - p.len());
        assert(r@ =~= s@.take(s@.len() - p@.len()));
        Some(r)
    } else {
        None
    }
}

/// The two sides of the first `sep` in `s`.
pub open spec fn split_once(s: Seq<char>, sep: char) -> Option<(Seq<char>, Seq<char>)> {
    match find(s, seq![sep], 0) {
        Some(i) => Some((s.take(i), s.skip(i + 1))),
        None => None,
    }
}

/// Splits at the first separator.
pub fn split_at_first(s: &Vec<char>, sep: char) -> (r: Option<(Vec<char>, Vec<char>)>)
    ensures
        match r {
            Some((a, b)) => split_once(s@, sep) == Some((a@, b@)),
            None => split_once(s@, sep) is None,
        },
{
    match find_char(s, sep, 0) {
        Some(i) => {
            let a: Vec<char> = cut(s, 0, i);
            let b: Vec<char> = cut(s, i + 1, s.len());
            assert(a@ =~= s@.take(i as int));
            assert(b@ =~= s@.skip(i + 1));
            Some((a, b))
        },
        None => None,
    }
}

// ---------------------------------------------------------------------------
// White space
// ---------------------------------------------------------------------------

/// The Unicode property White_Space.
pub open spec fn is_white(c: char) -> bool {
    let n = c as u32;
    ||| 0x09 <= n <= 0x0d
    ||| n == 0x20
    ||| n == 0x85
    ||| n == 0xa0
    ||| n == 0x1680
    ||| 0x2000 <= n <= 0x200a
    ||| n == 0x2028
    ||| n == 0x2029
    ||| n == 0x202f
    ||| n == 0x205f
    ||| n == 0x3000
}

/// Tests for white space.
pub fn white(c: char) -> (r: bool)
    ensures
        r == is_white(c),
{
    let n: u32 = c as u32;
    (0x09 <= n && n <= 0x0d) || n == 0x20 || n == 0x85 || n == 0xa0 || n == 0x1680 || (0x2000 <= n
        && n <= 0x200a) || n == 0x2028 || n == 0x2029 || n == 0x202f || n == 0x205f || n == 0x3000
}

/// `s` without leading white space.
pub open spec fn trim_start(s: Seq<char>) -> Seq<char>
    decreases s.len(),
{
    if s.len() > 0 && is_white(s[0]) {
        trim_start(s.skip(1))
    } else {
        s
    }
}

/// `s` without trailing white space.
pub open spec fn trim_end(s: Seq<char>) -> Seq<char>
    decreases s.len(),
{
    if s.len() > 0 && is_white(s.last()) {
        trim_end(s.drop_last())
    } else {
        s
    }
}

/// `s` without white space at both ends.
pub open spec fn trim(s: Seq<char>) -> Seq<char> {
    trim_end(trim_start(s))
}

/// Removes leading white space.
pub fn trimmed_start(s: &Vec<char>) -> (r: Vec<char>)
    ensures
        r@ == trim_start(s@),
{
    let mut i: usize = 0;
    assert(s@.skip(0) =~= s@);
    while i < s.len() && white(s[i])
        invariant
            i <= s.len(),
            trim_start(s@) == trim_start(s@.skip(i as int)),
        decreases s.len() - i,
    {
        assert(s@.skip(i as int).skip(1) =~= s@.skip(i + 1));
        i = i + 1;
    }
    let r: Vec<char> = cut(s, i, s.len());
    assert(r@ =~= s@.skip(i as int));
    r
}

/// Removes trailing white space.
pub fn trimmed_end(s: &Vec<char>) -> (r: Vec<char>)
    ensures
        r@ == trim_end(s@),
{
    let mut n: usize = s.len();
    assert(s@.take(n as int) =~= s@);
    while n > 0 && white(s[n - 1])
        invariant
            n <= s.len(),
            trim_end(s@) == trim_end(s@.take(n as int)),
        decreases n,
    {
        assert(s@.take(n as int).drop_last() =~= s@.take(n - 1));
        n = n - 1;
    }
    let r: Vec<char> = cut(s, 0, n);
    assert(r@ =~= s@.take(n as int));
    r
}

/// Removes white space at both ends.
pub fn trimmed(s: &Vec<char>) -> (r: Vec<char>)
    ensures
        r@ == trim(s@),
{
    trimmed_end(&trimmed_start(s))
}

/// Removes white space at both ends of a string.
pub fn trim_str(s: &str) -> (r: String)
    ensures
        r@ == trim(s@),
{
    string(&trimmed(&chars(s)))
}

/// A trimmed text neither starts nor ends with white space, and trimming it again changes nothing.
pub proof fn law_trim_is_stable(s: Seq<char>)
    ensures
        trim(s).len() > 0 ==> !is_white(trim(s)[0]) && !is_white(trim(s).last()),
        trim(s).len() <= s.len(),
        trim(trim(s)) == trim(s),
{
    lemma_trim_start(s);
    lemma_trim_end(trim_start(s));
    let t = trim(s);
    if t.len() > 0 {
        assert(t[0] == trim_start(s)[0]);
    }
    assert(trim_start(t) == t);
    assert(trim_end(t) == t);
}

proof fn lemma_trim_start(s: Seq<char>)
    ensures
        trim_start(s).len() > 0 ==> !is_white(trim_start(s)[0]),
        trim_start(s).len() <= s.len(),
    decreases s.len(),
{
    if s.len() > 0 && is_white(s[0]) {
        lemma_trim_start(s.skip(1));
    }
}

proof fn lemma_trim_end(s: Seq<char>)
    ensures
        trim_end(s).len() > 0 ==> !is_white(trim_end(s).last()),
        trim_end(s).len() <= s.len(),
        trim_end(s) == s.take(trim_end(s).len() as int),
    decreases s.len(),
{
    if s.len() > 0 && is_white(s.last()) {
        lemma_trim_end(s.drop_last());
        assert(s.drop_last().take(trim_end(s.drop_last()).len() as int) =~= s.take(
            trim_end(s).len() as int,
        ));
    } else {
        assert(s.take(s.len() as int) =~= s);
    }
}

/// `s` without leading copies of one character.
pub open spec fn trim_char_start(s: Seq<char>, c: char) -> Seq<char>
    decreases s.len(),
{
    if s.len() > 0 && s[0] == c {
        trim_char_start(s.skip(1), c)
    } else {
        s
    }
}

/// `s` without trailing copies of one character.
pub open spec fn trim_char_end(s: Seq<char>, c: char) -> Seq<char>
    decreases s.len(),
{
    if s.len() > 0 && s.last() == c {
        trim_char_end(s.drop_last(), c)
    } else {
        s
    }
}

/// Removes leading copies of one character.
pub fn without_leading(s: &Vec<char>, c: char) -> (r: Vec<char>)
    ensures
        r@ == trim_char_start(s@, c),
{
    let mut i: usize = 0;
    assert(s@.skip(0) =~= s@);
    while i < s.len() && s[i] == c
        invariant
            i <= s.len(),
            trim_char_start(s@, c) == trim_char_start(s@.skip(i as int), c),
        decreases s.len() - i,
    {
        assert(s@.skip(i as int).skip(1) =~= s@.skip(i + 1));
        i = i + 1;
    }
    let r: Vec<char> = cut(s, i, s.len());
    assert(r@ =~= s@.skip(i as int));
    r
}

/// Removes trailing copies of one character.
pub fn without_trailing(s: &Vec<char>, c: char) -> (r: Vec<char>)
    ensures
        r@ == trim_char_end(s@, c),
{
    let mut n: usize = s.len();
    assert(s@.take(n as int) =~= s@);
    while n > 0 && s[n - 1] == c
        invariant
            n <= s.len(),
            trim_char_end(s@, c) == trim_char_end(s@.take(n as int), c),
        decreases n,
    {
        assert(s@.take(n as int).drop_last() =~= s@.take(n - 1));
        n = n - 1;
    }
    let r: Vec<char> = cut(s, 0, n);
    assert(r@ =~= s@.take(n as int));
    r
}

// ---------------------------------------------------------------------------
// Splitting and joining
// ---------------------------------------------------------------------------

/// The pieces of `s` between the separators; always at least one.
pub open spec fn split(s: Seq<char>, sep: char) -> Seq<Seq<char>>
    decreases s.len(),
{
    if s.len() == 0 {
        seq![Seq::<char>::empty()]
    } else {
        let front = split(s.drop_last(), sep);
        if s.last() == sep {
            front.push(Seq::empty())
        } else {
            front.drop_last().push(front.last().push(s.last()))
        }
    }
}

/// There is always a piece.
pub proof fn lemma_split_nonempty(s: Seq<char>, sep: char)
    ensures
        split(s, sep).len() >= 1,
    decreases s.len(),
{
    if s.len() > 0 {
        lemma_split_nonempty(s.drop_last(), sep);
    }
}

/// Splits at every separator.
pub fn split_chars(s: &Vec<char>, sep: char) -> (r: Vec<String>)
    ensures
        views(r@) == split(s@, sep),
        r@.len() >= 1,
{
    let mut done: Vec<String> = Vec::new();
    let mut last: String = String::new();
    let mut i: usize = 0;
    assert(views(done@).push(last@) =~= split(s@.take(0), sep));
    while i < s.len()
        invariant
            i <= s.len(),
            views(done@).push(last@) == split(s@.take(i as int), sep),
        decreases s.len() - i,
    {
        let ghost front = split(s@.take(i as int), sep);
        let ghost before = done@;
        let ghost piece = last@;
        assert(s@.take(i + 1).drop_last() =~= s@.take(i as int));
        assert(front.last() == piece);
        assert(front.drop_last() =~= views(before));
        if s[i] == sep {
            done.push(last);
            last = String::new();
            assert(views(done@) =~= views(before).push(piece));
        } else {
            last.push(s[i]);
        }
        assert(views(done@).push(last@) =~= split(s@.take(i + 1), sep));
        i = i + 1;
    }
    assert(s@.take(s.len() as int) =~= s@);
    let ghost before = done@;
    done.push(last);
    assert(views(done@) =~= views(before).push(last@));
    done
}

/// The pieces that are not empty.
pub open spec fn nonempty(v: Seq<Seq<char>>) -> Seq<Seq<char>>
    decreases v.len(),
{
    if v.len() == 0 {
        Seq::empty()
    } else if v.last().len() == 0 {
        nonempty(v.drop_last())
    } else {
        nonempty(v.drop_last()).push(v.last())
    }
}

/// Drops empty pieces.
pub fn without_empty(v: &Vec<String>) -> (r: Vec<String>)
    ensures
        views(r@) == nonempty(views(v@)),
{
    let mut r: Vec<String> = Vec::new();
    let mut i: usize = 0;
    assert(views(r@) =~= nonempty(views(v@).take(0)));
    while i < v.len()
        invariant
            i <= v.len(),
            views(r@) == nonempty(views(v@).take(i as int)),
        decreases v.len() - i,
    {
        assert(views(v@).take(i + 1).drop_last() =~= views(v@).take(i as int));
        if !v[i].as_str().is_empty() {
            let ghost before = r@;
            r.push(v[i].clone());
            assert(views(r@) =~= views(before).push(v@[i as int]@));
        }
        i = i + 1;
    }
    assert(views(v@).take(v.len() as int) =~= views(v@));
    r
}

/// Joins two texts.
pub fn cat(a: &str, b: &str) -> (r: String)
    ensures
        r@ == a@ + b@,
{
    let mut r: String = a.to_owned();
    r.append(b);
    r
}

/// Joins three texts.
pub fn cat3(a: &str, b: &str, c: &str) -> (r: String)
    ensures
        r@ == a@ + b@ + c@,
{
    let mut r: String = a.to_owned();
    r.append(b);
    r.append(c);
    r
}

/// Joins four texts.
pub fn cat4(a: &str, b: &str, c: &str, d: &str) -> (r: String)
    ensures
        r@ == a@ + b@ + c@ + d@,
{
    let mut r: String = cat3(a, b, c);
    r.append(d);
    r
}

/// Joins five texts.
pub fn cat5(a: &str, b: &str, c: &str, d: &str, e: &str) -> (r: String)
    ensures
        r@ == a@ + b@ + c@ + d@ + e@,
{
    let mut r: String = cat4(a, b, c, d);
    r.append(e);
    r
}

/// The parts one after another with `sep` between them.
pub open spec fn join(parts: Seq<Seq<char>>, sep: Seq<char>) -> Seq<char>
    decreases parts.len(),
{
    if parts.len() == 0 {
        Seq::empty()
    } else if parts.len() == 1 {
        parts[0]
    } else {
        join(parts.drop_last(), sep) + sep + parts.last()
    }
}

/// Joining the pieces of a text with what it was split at gives the text back.
pub proof fn law_split_join(s: Seq<char>, c: char)
    ensures
        join(split(s, c), seq![c]) == s,
    decreases s.len(),
{
    if s.len() == 0 {
        assert(split(s, c)[0] =~= s);
    } else {
        let t = s.drop_last();
        let front = split(t, c);
        law_split_join(t, c);
        lemma_split_nonempty(t, c);
        assert(s =~= t.push(s.last()));
        if s.last() == c {
            let all = front.push(Seq::empty());
            assert(all.drop_last() =~= front);
            assert(join(all, seq![c]) =~= join(front, seq![c]) + seq![c] + Seq::<char>::empty());
            assert(join(all, seq![c]) =~= s);
        } else {
            let last = front.last().push(s.last());
            let all = front.drop_last().push(last);
            assert(all =~= front.update(front.len() - 1, last));
            lemma_join_last(front, last, seq![c]);
            lemma_join_last(front, front.last(), seq![c]);
            assert(front.update(front.len() - 1, front.last()) =~= front);
            assert(join(all, seq![c]) =~= s);
        }
    }
}

/// What is in front of the last part of a joined text does not depend on that part.
pub proof fn lemma_join_last(parts: Seq<Seq<char>>, last: Seq<char>, sep: Seq<char>)
    requires
        parts.len() > 0,
    ensures
        join(parts.update(parts.len() - 1, last), sep) == (if parts.len() == 1 {
            last
        } else {
            join(parts.drop_last(), sep) + sep + last
        }),
{
    let all = parts.update(parts.len() - 1, last);
    assert(all.drop_last() =~= parts.drop_last());
    assert(all.last() == last);
}

/// Joins strings.
pub fn joined(parts: &Vec<String>, sep: &str) -> (r: String)
    ensures
        r@ == join(views(parts@), sep@),
{
    joined_prefix(parts, parts.len(), sep)
}

/// Joins the first `n` strings.
pub fn joined_prefix(parts: &Vec<String>, n: usize, sep: &str) -> (r: String)
    requires
        n <= parts@.len(),
    ensures
        r@ == join(views(parts@).take(n as int), sep@),
        n == parts@.len() ==> r@ == join(views(parts@), sep@),
{
    let mut out: String = String::new();
    let mut i: usize = 0;
    while i < n
        invariant
            i <= n <= parts.len(),
            out@ == join(views(parts@).take(i as int), sep@),
        decreases n - i,
    {
        let ghost upto = views(parts@).take(i + 1);
        assert(upto.drop_last() =~= views(parts@).take(i as int));
        assert(upto.last() == parts@[i as int]@);
        if i > 0 {
            out.append(sep);
        }
        out.append(parts[i].as_str());
        assert(out@ =~= join(upto, sep@));
        i = i + 1;
    }
    assert(views(parts@).take(parts.len() as int) =~= views(parts@));
    out
}

// ---------------------------------------------------------------------------
// Replacing
// ---------------------------------------------------------------------------

/// `s` from place `i` on, each occurrence of `pat` replaced from the left.
pub open spec fn replace_from(s: Seq<char>, pat: Seq<char>, to: Seq<char>, i: int) -> Seq<char>
    decreases s.len() - i,
{
    if i < 0 || i >= s.len() || pat.len() == 0 {
        Seq::empty()
    } else if occurs_at(s, pat, i) {
        to + replace_from(s, pat, to, i + pat.len())
    } else {
        seq![s[i]] + replace_from(s, pat, to, i + 1)
    }
}

/// `s` with each occurrence of `pat` replaced.
pub open spec fn replace(s: Seq<char>, pat: Seq<char>, to: Seq<char>) -> Seq<char> {
    replace_from(s, pat, to, 0)
}

/// Replaces each occurrence of a pattern.
pub fn replaced(s: &Vec<char>, pat: &str, to: &str) -> (r: Vec<char>)
    requires
        pat@.len() > 0,
    ensures
        r@ == replace(s@, pat@, to@),
{
    let p: Vec<char> = chars(pat);
    let t: Vec<char> = chars(to);
    let mut out: Vec<char> = Vec::new();
    let mut i: usize = 0;
    assert(out@ + replace_from(s@, p@, t@, 0) =~= replace(s@, p@, t@));
    while i < s.len()
        invariant
            i <= s.len(),
            p@.len() > 0,
            out@ + replace_from(s@, p@, t@, i as int) == replace(s@, p@, t@),
        decreases s.len() - i,
    {
        let ghost before = out@;
        if at(s, &p, i) {
            push_all(&mut out, &t);
            assert(before + (t@ + replace_from(s@, p@, t@, i + p@.len())) =~= out@ + replace_from(
                s@,
                p@,
                t@,
                i + p@.len(),
            ));
            i = i + p.len();
        } else {
            out.push(s[i]);
            assert(before + (seq![s@[i as int]] + replace_from(s@, p@, t@, i + 1)) =~= out@
                + replace_from(s@, p@, t@, i + 1));
            i = i + 1;
        }
    }
    assert(out@ + replace_from(s@, p@, t@, i as int) =~= out@);
    out
}

/// Appends every character.
pub fn push_all(out: &mut Vec<char>, more: &Vec<char>)
    ensures
        final(out)@ == old(out)@ + more@,
{
    let ghost before = out@;
    let mut i: usize = 0;
    assert(before + more@.take(0) =~= before);
    while i < more.len()
        invariant
            i <= more.len(),
            out@ == before + more@.take(i as int),
        decreases more.len() - i,
    {
        out.push(more[i]);
        assert(before + more@.take(i + 1) =~= (before + more@.take(i as int)).push(
            more@[i as int],
        ));
        i = i + 1;
    }
    assert(more@.take(more.len() as int) =~= more@);
}

// ---------------------------------------------------------------------------
// Letters and digits
// ---------------------------------------------------------------------------

/// The ASCII digits.
pub open spec fn is_digit(c: char) -> bool {
    '0' <= c <= '9'
}

/// The ASCII letters and digits.
pub open spec fn is_alnum(c: char) -> bool {
    is_digit(c) || 'a' <= c <= 'z' || 'A' <= c <= 'Z'
}

/// Tests for an ASCII digit.
pub fn digit(c: char) -> (r: bool)
    ensures
        r == is_digit(c),
{
    '0' <= c && c <= '9'
}

/// Tests for an ASCII letter or digit.
pub fn alnum(c: char) -> (r: bool)
    ensures
        r == is_alnum(c),
{
    digit(c) || ('a' <= c && c <= 'z') || ('A' <= c && c <= 'Z')
}

/// An ASCII capital as a small letter; every other character as it is.
pub open spec fn lower(c: char) -> char {
    if 'A' <= c <= 'Z' {
        ((c as u32 + 32) as u8) as char
    } else {
        c
    }
}

/// A text with its ASCII capitals as small letters.
pub open spec fn lower_ascii(s: Seq<char>) -> Seq<char> {
    Seq::new(s.len(), |i: int| lower(s[i]))
}

/// Lowers one ASCII letter.
pub fn lower_char(c: char) -> (r: char)
    ensures
        r == lower(c),
{
    if 'A' <= c && c <= 'Z' {
        let n: u32 = c as u32 + 32;
        (n as u8) as char
    } else {
        c
    }
}

/// Lowers the ASCII letters of a text.
pub fn lowered_ascii(s: &Vec<char>) -> (r: Vec<char>)
    ensures
        r@ == lower_ascii(s@),
{
    let mut r: Vec<char> = Vec::new();
    let mut i: usize = 0;
    while i < s.len()
        invariant
            i <= s.len(),
            r.len() == i,
            forall|j: int| 0 <= j < i ==> r@[j] == lower(s@[j]),
        decreases s.len() - i,
    {
        r.push(lower_char(s[i]));
        i = i + 1;
    }
    assert(r@ =~= lower_ascii(s@));
    r
}

/// The decimal digit of a number below ten.
pub open spec fn digit_char(d: int) -> char {
    ((48 + d) as u8) as char
}

/// A number in decimal notation.
pub open spec fn decimal(n: nat) -> Seq<char>
    decreases n,
{
    if n < 10 {
        seq![digit_char(n as int)]
    } else {
        decimal(n / 10).push(digit_char((n % 10) as int))
    }
}

/// An integer in decimal notation, with a minus sign below zero.
pub open spec fn decimal_int(n: int) -> Seq<char> {
    if n < 0 {
        seq!['-'] + decimal((-n) as nat)
    } else {
        decimal(n as nat)
    }
}

/// Writes a number in decimal notation.
pub fn number(n: u64) -> (r: String)
    ensures
        r@ == decimal(n as nat),
    decreases n,
{
    let d: u8 = (48 + n % 10) as u8;
    if n < 10 {
        let mut r = String::new();
        r.push(d as char);
        assert(r@ =~= decimal(n as nat));
        r
    } else {
        let mut r = number(n / 10);
        r.push(d as char);
        r
    }
}

/// Writes a size in decimal notation.
pub fn size(n: usize) -> (r: String)
    ensures
        r@ == decimal(n as nat),
{
    number(n as u64)
}

/// Writes an integer in decimal notation.
pub fn integer(n: i64) -> (r: String)
    ensures
        r@ == decimal_int(n as int),
{
    if n < 0 {
        let mut r: String = String::new();
        r.push('-');
        let m: u64 = (-(n + 1)) as u64 + 1;
        let d: String = number(m);
        r.append(d.as_str());
        assert(r@ =~= seq!['-'] + decimal((-(n as int)) as nat));
        r
    } else {
        number(n as u64)
    }
}

/// The value of a run of digits.
pub open spec fn digits_value(s: Seq<char>) -> nat
    decreases s.len(),
{
    if s.len() == 0 {
        0
    } else {
        (digits_value(s.drop_last()) * 10 + (s.last() as u32 - 48)) as nat
    }
}

/// The digits behind an optional plus sign.
pub open spec fn unsigned_digits(s: Seq<char>) -> Seq<char> {
    if s.len() > 0 && s[0] == '+' {
        s.skip(1)
    } else {
        s
    }
}

/// An unsigned number as a text writes it: an optional plus sign and at least
/// one digit, up to `max`.
pub open spec fn parse_unsigned(s: Seq<char>, max: nat) -> Option<nat> {
    let d = unsigned_digits(s);
    if d.len() > 0 && (forall|i: int| 0 <= i < d.len() ==> is_digit(d[i])) && digits_value(d) <= max {
        Some(digits_value(d))
    } else {
        None
    }
}

/// Values only grow when digits are appended.
proof fn lemma_digits_value_grows(s: Seq<char>, n: int)
    requires
        0 <= n <= s.len(),
        forall|i: int| 0 <= i < s.len() ==> is_digit(s[i]),
    ensures
        digits_value(s.take(n)) <= digits_value(s),
    decreases s.len() - n,
{
    if n == s.len() {
        assert(s.take(n) =~= s);
    } else {
        lemma_digits_value_grows(s, n + 1);
        assert(s.take(n + 1).drop_last() =~= s.take(n));
    }
}

/// Reads an unsigned number of at most `max`.
pub fn parsed_unsigned(s: &Vec<char>, max: u64) -> (r: Option<u64>)
    ensures
        match r {
            Some(n) => parse_unsigned(s@, max as nat) == Some(n as nat),
            None => parse_unsigned(s@, max as nat) is None,
        },
{
    let start: usize = if s.len() > 0 && s[0] == '+' {
        1
    } else {
        0
    };
    let d: Vec<char> = cut(s, start, s.len());
    assert(d@ =~= unsigned_digits(s@));
    if d.len() == 0 {
        return None;
    }
    let mut i: usize = 0;
    while i < d.len()
        invariant
            i <= d.len(),
            d@ == unsigned_digits(s@),
            forall|j: int| 0 <= j < i ==> is_digit(d@[j]),
        decreases d.len() - i,
    {
        if !digit(d[i]) {
            assert(!is_digit(unsigned_digits(s@)[i as int]));
            return None;
        }
        i = i + 1;
    }
    let mut value: u64 = 0;
    let mut k: usize = 0;
    while k < d.len()
        invariant
            k <= d.len(),
            d@ == unsigned_digits(s@),
            d@.len() > 0,
            forall|j: int| 0 <= j < d@.len() ==> is_digit(d@[j]),
            value == digits_value(d@.take(k as int)),
            value <= max,
        decreases d.len() - k,
    {
        let step: u64 = (d[k] as u32 - 48) as u64;
        assert(d@.take(k + 1).drop_last() =~= d@.take(k as int));
        proof {
            lemma_digits_value_grows(d@, k + 1);
        }
        let wide: u128 = (value as u128) * 10 + (step as u128);
        if wide > max as u128 {
            return None;
        }
        value = wide as u64;
        k = k + 1;
    }
    assert(d@.take(d@.len() as int) =~= d@);
    Some(value)
}

// ---------------------------------------------------------------------------
// Words and character sets
// ---------------------------------------------------------------------------

/// The pieces of `s` between white space characters; always at least one.
pub open spec fn split_white(s: Seq<char>) -> Seq<Seq<char>>
    decreases s.len(),
{
    if s.len() == 0 {
        seq![Seq::<char>::empty()]
    } else {
        let front = split_white(s.drop_last());
        if is_white(s.last()) {
            front.push(Seq::empty())
        } else {
            front.drop_last().push(front.last().push(s.last()))
        }
    }
}

/// The words of a text: its longest runs without white space.
pub open spec fn words(s: Seq<char>) -> Seq<Seq<char>> {
    nonempty(split_white(s))
}

/// Splits a text into its words.
pub fn split_words(s: &Vec<char>) -> (r: Vec<String>)
    ensures
        views(r@) == words(s@),
{
    let mut done: Vec<String> = Vec::new();
    let mut last: String = String::new();
    let mut i: usize = 0;
    assert(views(done@).push(last@) =~= split_white(s@.take(0)));
    while i < s.len()
        invariant
            i <= s.len(),
            views(done@).push(last@) == split_white(s@.take(i as int)),
        decreases s.len() - i,
    {
        let ghost front = split_white(s@.take(i as int));
        let ghost before = done@;
        let ghost piece = last@;
        assert(s@.take(i + 1).drop_last() =~= s@.take(i as int));
        assert(front.last() == piece);
        assert(front.drop_last() =~= views(before));
        if white(s[i]) {
            done.push(last);
            last = String::new();
            assert(views(done@) =~= views(before).push(piece));
        } else {
            last.push(s[i]);
        }
        assert(views(done@).push(last@) =~= split_white(s@.take(i + 1)));
        i = i + 1;
    }
    assert(s@.take(s.len() as int) =~= s@);
    let ghost before = done@;
    done.push(last);
    assert(views(done@) =~= views(before).push(last@));
    without_empty(&done)
}

/// What stands before the first `c`, or everything.
pub open spec fn before(s: Seq<char>, c: char) -> Seq<char> {
    match split_once(s, c) {
        Some((a, _)) => a,
        None => s,
    }
}

/// What stands before the first of a character.
pub fn upto(s: &Vec<char>, c: char) -> (r: Vec<char>)
    ensures
        r@ == before(s@, c),
{
    match split_at_first(s, c) {
        Some((a, _)) => a,
        None => cut(s, 0, s.len()),
    }
}

/// `s` without leading characters of a set.
pub open spec fn trim_set_start(s: Seq<char>, set: Seq<char>) -> Seq<char>
    decreases s.len(),
{
    if s.len() > 0 && set.contains(s[0]) {
        trim_set_start(s.skip(1), set)
    } else {
        s
    }
}

/// `s` without trailing characters of a set.
pub open spec fn trim_set_end(s: Seq<char>, set: Seq<char>) -> Seq<char>
    decreases s.len(),
{
    if s.len() > 0 && set.contains(s.last()) {
        trim_set_end(s.drop_last(), set)
    } else {
        s
    }
}

/// Removes leading characters of a set.
pub fn without_leading_set(s: &Vec<char>, set: &str) -> (r: Vec<char>)
    ensures
        r@ == trim_set_start(s@, set@),
{
    let t: Vec<char> = chars(set);
    let mut i: usize = 0;
    assert(s@.skip(0) =~= s@);
    while i < s.len() && has_char(&t, s[i])
        invariant
            i <= s.len(),
            t@ == set@,
            trim_set_start(s@, set@) == trim_set_start(s@.skip(i as int), set@),
        decreases s.len() - i,
    {
        assert(s@.skip(i as int).skip(1) =~= s@.skip(i + 1));
        i = i + 1;
    }
    let r: Vec<char> = cut(s, i, s.len());
    assert(r@ =~= s@.skip(i as int));
    r
}

/// Removes trailing characters of a set.
pub fn without_trailing_set(s: &Vec<char>, set: &str) -> (r: Vec<char>)
    ensures
        r@ == trim_set_end(s@, set@),
{
    let t: Vec<char> = chars(set);
    let mut n: usize = s.len();
    assert(s@.take(n as int) =~= s@);
    while n > 0 && has_char(&t, s[n - 1])
        invariant
            n <= s.len(),
            t@ == set@,
            trim_set_end(s@, set@) == trim_set_end(s@.take(n as int), set@),
        decreases n,
    {
        assert(s@.take(n as int).drop_last() =~= s@.take(n - 1));
        n = n - 1;
    }
    let r: Vec<char> = cut(s, 0, n);
    assert(r@ =~= s@.take(n as int));
    r
}

/// The first line of a text, without its line break.
pub open spec fn first_line(s: Seq<char>) -> Seq<char> {
    let l = before(s, '\n');
    if l.len() < s.len() && l.len() > 0 && l.last() == '\r' {
        l.drop_last()
    } else {
        l
    }
}

/// Takes the first line of a text.
pub fn head_line(s: &Vec<char>) -> (r: Vec<char>)
    ensures
        r@ == first_line(s@),
{
    let l: Vec<char> = upto(s, '\n');
    if l.len() < s.len() && l.len() > 0 && l[l.len() - 1] == '\r' {
        let r: Vec<char> = cut(&l, 0, l.len() - 1);
        assert(r@ =~= l@.drop_last());
        r
    } else {
        l
    }
}

/// At most the first `n` characters.
pub open spec fn head(s: Seq<char>, n: nat) -> Seq<char> {
    if s.len() <= n {
        s
    } else {
        s.take(n as int)
    }
}

/// Takes at most the first `n` characters.
pub fn first_chars(s: &Vec<char>, n: usize) -> (r: Vec<char>)
    ensures
        r@ == head(s@, n as nat),
{
    if s.len() <= n {
        cut(s, 0, s.len())
    } else {
        let r: Vec<char> = cut(s, 0, n);
        assert(r@ =~= s@.take(n as int));
        r
    }
}

/// One text comes before another where, behind a common beginning, it ends first or has the
/// smaller character.
pub proof fn law_text_order(a: Seq<char>, b: Seq<char>)
    ensures
        text_lt(a, b) <==> exists|n: int|
            0 <= n <= a.len() && n < b.len() && #[trigger] a.take(n) == b.take(n) && (n == a.len()
                || a[n] < b[n]),
    decreases a.len(),
{
    if b.len() == 0 {
    } else if a.len() == 0 {
        assert(a.take(0) =~= b.take(0));
    } else if a[0] != b[0] {
        assert(a.take(0) =~= b.take(0));
        if exists|n: int|
            0 <= n <= a.len() && n < b.len() && #[trigger] a.take(n) == b.take(n) && (n == a.len()
                || a[n] < b[n]) {
            let n = choose|n: int|
                0 <= n <= a.len() && n < b.len() && #[trigger] a.take(n) == b.take(n) && (n
                    == a.len() || a[n] < b[n]);
            if n > 0 {
                assert(a.take(n)[0] == b.take(n)[0]);
            }
        }
    } else {
        let x = a.skip(1);
        let y = b.skip(1);
        law_text_order(x, y);
        if text_lt(x, y) {
            let n = choose|n: int|
                0 <= n <= x.len() && n < y.len() && #[trigger] x.take(n) == y.take(n) && (n
                    == x.len() || x[n] < y[n]);
            assert(a.take(n + 1) =~= seq![a[0]] + x.take(n));
            assert(b.take(n + 1) =~= seq![b[0]] + y.take(n));
            assert(a.take(n + 1) == b.take(n + 1));
        }
        if exists|n: int|
            0 <= n <= a.len() && n < b.len() && #[trigger] a.take(n) == b.take(n) && (n == a.len()
                || a[n] < b[n]) {
            let n = choose|n: int|
                0 <= n <= a.len() && n < b.len() && #[trigger] a.take(n) == b.take(n) && (n
                    == a.len() || a[n] < b[n]);
            if n > 0 {
                assert(x.take(n - 1) =~= a.take(n).skip(1));
                assert(y.take(n - 1) =~= b.take(n).skip(1));
                assert(x.take(n - 1) == y.take(n - 1));
            }
        }
    }
}

/// A text is found in another exactly where the other is made of what stands before it, the text
/// itself, and what stands behind it.
pub proof fn law_has(s: Seq<char>, pat: Seq<char>)
    ensures
        has(s, pat) <==> exists|i: int|
            0 <= i && i + pat.len() <= s.len() && #[trigger] s.subrange(i, i + pat.len()) == pat,
{
    lemma_find(s, pat, 0);
    if has(s, pat) {
        let i = find(s, pat, 0).unwrap();
        assert(s.subrange(i, i + pat.len()) == pat);
    }
    if exists|i: int|
        0 <= i && i + pat.len() <= s.len() && #[trigger] s.subrange(i, i + pat.len()) == pat {
        let i = choose|i: int|
            0 <= i && i + pat.len() <= s.len() && #[trigger] s.subrange(i, i + pat.len()) == pat;
        assert(occurs_at(s, pat, i));
    }
}

/// Trimming takes white space from both ends, and nothing else: what is left has none at either
/// end, and what is taken is nothing but white space.
pub proof fn law_trim(a: Seq<char>, s: Seq<char>, b: Seq<char>)
    requires
        forall|i: int| 0 <= i < a.len() ==> is_white(#[trigger] a[i]),
        forall|i: int| 0 <= i < b.len() ==> is_white(#[trigger] b[i]),
        s.len() > 0,
        !is_white(s[0]),
        !is_white(s.last()),
    ensures
        trim(a + s + b) == s,
        trim_start(a + s + b) == s + b,
        trim_end(a + s + b) == a + s,
{
    lemma_trim_start_white(a, s + b);
    assert(a + s + b =~= a + (s + b));
    assert((s + b)[0] == s[0]);
    lemma_trim_end_white(s, b);
    assert((a + s).last() == s.last());
    lemma_trim_end_white(a + s, b);
}

proof fn lemma_trim_start_white(a: Seq<char>, s: Seq<char>)
    requires
        forall|i: int| 0 <= i < a.len() ==> is_white(#[trigger] a[i]),
        s.len() > 0,
        !is_white(s[0]),
    ensures
        trim_start(a + s) == s,
    decreases a.len(),
{
    if a.len() == 0 {
        assert(a + s =~= s);
    } else {
        assert((a + s).skip(1) =~= a.skip(1) + s);
        assert((a + s)[0] == a[0]);
        assert forall|i: int| 0 <= i < a.skip(1).len() implies is_white(#[trigger] a.skip(1)[i]) by {
            assert(is_white(a[i + 1]));
        }
        lemma_trim_start_white(a.skip(1), s);
    }
}

proof fn lemma_trim_end_white(s: Seq<char>, b: Seq<char>)
    requires
        forall|i: int| 0 <= i < b.len() ==> is_white(#[trigger] b[i]),
        s.len() > 0,
        !is_white(s.last()),
    ensures
        trim_end(s + b) == s,
    decreases b.len(),
{
    if b.len() == 0 {
        assert(s + b =~= s);
    } else {
        assert((s + b).drop_last() =~= s + b.drop_last());
        assert((s + b).last() == b.last());
        assert(is_white(b[b.len() - 1]));
        assert forall|i: int| 0 <= i < b.drop_last().len() implies is_white(
            #[trigger] b.drop_last()[i],
        ) by {
            assert(is_white(b[i]));
        }
        lemma_trim_end_white(s, b.drop_last());
    }
}

/// Splitting a text at a separator gives what stands before its first separator, and then the
/// pieces of what stands behind that.
pub proof fn law_split(a: Seq<char>, b: Seq<char>, sep: char)
    requires
        !a.contains(sep),
    ensures
        split(a, sep) == seq![a],
        split(a.push(sep) + b, sep) == seq![a] + split(b, sep),
{
    lemma_split_plain(a, sep);
    lemma_split_behind(a, b, sep);
}

proof fn lemma_split_plain(a: Seq<char>, sep: char)
    requires
        !a.contains(sep),
    ensures
        split(a, sep) == seq![a],
    decreases a.len(),
{
    if a.len() == 0 {
        assert(a =~= Seq::empty());
    } else {
        assert forall|i: int| 0 <= i < a.drop_last().len() implies a.drop_last()[i] != sep by {
            assert(a[i] != sep);
        }
        lemma_split_plain(a.drop_last(), sep);
        assert(a[a.len() - 1] != sep);
        assert(seq![a.drop_last()].drop_last() =~= Seq::empty());
        assert(a.drop_last().push(a.last()) =~= a);
        assert(split(a, sep) =~= seq![a]);
    }
}

proof fn lemma_split_behind(a: Seq<char>, b: Seq<char>, sep: char)
    requires
        !a.contains(sep),
    ensures
        split(a.push(sep) + b, sep) == seq![a] + split(b, sep),
    decreases b.len(),
{
    let s = a.push(sep) + b;
    if b.len() == 0 {
        assert(s =~= a.push(sep));
        assert(s.drop_last() =~= a);
        lemma_split_plain(a, sep);
        assert(split(s, sep) =~= seq![a] + split(b, sep));
    } else {
        assert(s.drop_last() =~= a.push(sep) + b.drop_last());
        assert(s.last() == b.last());
        lemma_split_behind(a, b.drop_last(), sep);
        lemma_split_nonempty(b.drop_last(), sep);
        let front = split(b.drop_last(), sep);
        let all = seq![a] + front;
        assert(all.drop_last() =~= seq![a] + front.drop_last());
        assert(all.last() == front.last());
        assert(split(s, sep) =~= seq![a] + split(b, sep));
    }
}

/// A decimal number has its value: reading the digits of a number gives the number.
pub proof fn law_decimal_is_read_back(n: nat)
    ensures
        digits_value(decimal(n)) == n,
        decimal(n).len() > 0,
        forall|i: int| 0 <= i < decimal(n).len() ==> '0' <= #[trigger] decimal(n)[i] <= '9',
        n > 0 ==> decimal(n)[0] != '0',
        parse_unsigned(decimal(n), n) == Some(n),
    decreases n,
{
    if n < 10 {
        assert(decimal(n).drop_last() =~= Seq::empty());
        assert(digits_value(decimal(n).drop_last()) == 0);
        assert(decimal(n).last() == digit_char(n as int));
        assert(decimal(n)[0] == digit_char(n as int));
    } else {
        law_decimal_is_read_back(n / 10);
        assert(decimal(n).drop_last() =~= decimal(n / 10));
        assert(decimal(n).last() == digit_char((n % 10) as int));
        assert(decimal(n)[0] == decimal(n / 10)[0]);
    }
    assert(unsigned_digits(decimal(n)) == decimal(n));
    assert forall|i: int| 0 <= i < decimal(n).len() implies is_digit(decimal(n)[i]) by {
        assert('0' <= decimal(n)[i] <= '9');
    }
}

/// Small letters of ASCII for capitals, and every other character as it is.
pub proof fn law_lower_ascii(s: Seq<char>, i: int)
    requires
        0 <= i < s.len(),
    ensures
        lower_ascii(s).len() == s.len(),
        'A' <= s[i] <= 'Z' ==> 'a' <= lower_ascii(s)[i] <= 'z' && lower_ascii(s)[i] as u32
            == s[i] as u32 + 32,
        !('A' <= s[i] <= 'Z') ==> lower_ascii(s)[i] == s[i],
{
}

/// Joining parts puts the separator between each part and the next.
pub proof fn law_join(parts: Seq<Seq<char>>, last: Seq<char>, sep: Seq<char>)
    ensures
        join(seq![last], sep) == last,
        parts.len() > 0 ==> join(parts.push(last), sep) == join(parts, sep) + sep + last,
        join(Seq::empty(), sep) == Seq::<char>::empty(),
{
    assert(parts.push(last).drop_last() =~= parts);
}

/// Blanks, tabs and line breaks are white space, and so are the wider blanks of other scripts;
/// no visible character of ASCII is.
pub proof fn law_white_space(c: char)
    ensures
        is_white(' ') && is_white('\t') && is_white('\n') && is_white('\r'),
        is_white('\u{b}') && is_white('\u{c}') && is_white('\u{85}') && is_white('\u{a0}'),
        is_white('\u{1680}') && is_white('\u{2000}') && is_white('\u{200a}') && is_white('\u{2028}'),
        is_white('\u{2029}') && is_white('\u{202f}') && is_white('\u{205f}') && is_white('\u{3000}'),
        '!' <= c <= '~' ==> !is_white(c),
        !is_white('\u{200b}') && !is_white('\u{feff}'),
{
}

/// Letters and digits of ASCII, and nothing else.
pub proof fn law_alnum(c: char)
    ensures
        is_alnum(c) <==> 'a' <= c <= 'z' || 'A' <= c <= 'Z' || '0' <= c <= '9',
        is_digit(c) <==> '0' <= c <= '9',
{
}

/// The words of a text are its pieces between white space that are not empty: a word, white
/// space and a rest have the word in front of the words of the rest.
pub proof fn law_words(w: Seq<char>, c: char, rest: Seq<char>)
    requires
        forall|i: int| 0 <= i < w.len() ==> !is_white(#[trigger] w[i]),
        is_white(c),
    ensures
        words(w.push(c) + rest) == if w.len() > 0 {
            seq![w] + words(rest)
        } else {
            words(rest)
        },
        words(w) == if w.len() > 0 {
            seq![w]
        } else {
            Seq::empty()
        },
{
    lemma_split_white_plain(w);
    lemma_split_white_behind(w, c, rest);
    lemma_nonempty_add(seq![w], split_white(rest));
    assert(seq![w].drop_last() =~= Seq::empty());
    assert(nonempty(seq![w].drop_last()) =~= Seq::empty());
    assert(seq![w].last() == w);
    if w.len() > 0 {
        assert(nonempty(seq![w]) =~= seq![w]);
    } else {
        assert(nonempty(seq![w]) + words(rest) =~= words(rest));
    }
}

/// What is not empty of two lists is what is not empty of each.
pub proof fn lemma_nonempty_add(a: Seq<Seq<char>>, b: Seq<Seq<char>>)
    ensures
        nonempty(a + b) == nonempty(a) + nonempty(b),
    decreases b.len(),
{
    if b.len() == 0 {
        assert(a + b =~= a);
        assert(nonempty(a) + nonempty(b) =~= nonempty(a));
    } else {
        assert((a + b).drop_last() =~= a + b.drop_last());
        assert((a + b).last() == b.last());
        lemma_nonempty_add(a, b.drop_last());
        assert(nonempty(a + b) =~= nonempty(a) + nonempty(b));
    }
}

proof fn lemma_split_white_plain(a: Seq<char>)
    requires
        forall|i: int| 0 <= i < a.len() ==> !is_white(#[trigger] a[i]),
    ensures
        split_white(a) == seq![a],
    decreases a.len(),
{
    if a.len() == 0 {
        assert(a =~= Seq::empty());
    } else {
        assert forall|i: int| 0 <= i < a.drop_last().len() implies !is_white(
            #[trigger] a.drop_last()[i],
        ) by {
            assert(!is_white(a[i]));
        }
        lemma_split_white_plain(a.drop_last());
        assert(!is_white(a[a.len() - 1]));
        assert(seq![a.drop_last()].drop_last() =~= Seq::empty());
        assert(a.drop_last().push(a.last()) =~= a);
        assert(split_white(a) =~= seq![a]);
    }
}

proof fn lemma_split_white_nonempty(s: Seq<char>)
    ensures
        split_white(s).len() > 0,
    decreases s.len(),
{
    if s.len() > 0 {
        lemma_split_white_nonempty(s.drop_last());
    }
}

proof fn lemma_split_white_behind(a: Seq<char>, c: char, b: Seq<char>)
    requires
        forall|i: int| 0 <= i < a.len() ==> !is_white(#[trigger] a[i]),
        is_white(c),
    ensures
        split_white(a.push(c) + b) == seq![a] + split_white(b),
    decreases b.len(),
{
    let s = a.push(c) + b;
    if b.len() == 0 {
        assert(s =~= a.push(c));
        assert(s.drop_last() =~= a);
        lemma_split_white_plain(a);
        assert(split_white(s) =~= seq![a] + split_white(b));
    } else {
        assert(s.drop_last() =~= a.push(c) + b.drop_last());
        assert(s.last() == b.last());
        lemma_split_white_behind(a, c, b.drop_last());
        lemma_split_white_nonempty(b.drop_last());
        let front = split_white(b.drop_last());
        let all = seq![a] + front;
        assert(all.drop_last() =~= seq![a] + front.drop_last());
        assert(all.last() == front.last());
        assert(split_white(s) =~= seq![a] + split_white(b));
    }
}

/// A text is split at the first separator, and what stands before it is everything where there
/// is none.
pub proof fn law_split_once(a: Seq<char>, c: char, b: Seq<char>)
    requires
        !a.contains(c),
    ensures
        split_once(a.push(c) + b, c) == Some((a, b)),
        split_once(a, c) is None,
        before(a.push(c) + b, c) == a,
        before(a, c) == a,
{
    lemma_find(a, seq![c], 0);
    match find(a, seq![c], 0) {
        Some(i) => {
            assert(a.subrange(i, i + 1)[0] == c);
            assert(a.contains(c));
        },
        None => {},
    }
    let s = a.push(c) + b;
    let at = a.len() as int;
    lemma_find(s, seq![c], 0);
    assert(s.subrange(at, at + 1) =~= seq![c]);
    assert(occurs_at(s, seq![c], at));
    let i = find(s, seq![c], 0).unwrap();
    if i < at {
        assert(s.subrange(i, i + 1)[0] == c);
        assert(a[i] == c);
        assert(a.contains(c));
    }
    assert(s.take(at) =~= a);
    assert(s.skip(at + 1) =~= b);
}

/// A prefix or a suffix is taken off where the text has it.
pub proof fn law_strip(p: Seq<char>, s: Seq<char>)
    ensures
        strip_prefix(p + s, p) == Some(s),
        strip_suffix(s + p, p) == Some(s),
        s.len() < p.len() ==> strip_prefix(s, p) is None && strip_suffix(s, p) is None,
        strip_prefix(s, p) is Some ==> s == p + strip_prefix(s, p).unwrap(),
        strip_suffix(s, p) is Some ==> s == strip_suffix(s, p).unwrap() + p,
{
    let n = p.len() as int;
    assert((p + s).subrange(0, n) =~= p);
    assert((p + s).skip(n) =~= s);
    let at = (s + p).len() - n;
    assert((s + p).subrange(at, at + n) =~= p);
    assert((s + p).take(at) =~= s);
    if has_prefix(s, p) {
        assert(s =~= p + s.skip(n));
    }
    if has_suffix(s, p) {
        assert(s =~= s.take(s.len() - n) + p);
    }
}

/// Copies of a character are taken from one end of a text, all of them and nothing else.
pub proof fn law_trim_char(n: nat, c: char, s: Seq<char>)
    requires
        s.len() > 0,
        s[0] != c,
        s.last() != c,
    ensures
        trim_char_start(Seq::new(n, |i: int| c) + s, c) == s,
        trim_char_end(s + Seq::new(n, |i: int| c), c) == s,
        trim_char_start(s, c) == s,
        trim_char_end(s, c) == s,
    decreases n,
{
    let f = Seq::new(n, |i: int| c);
    if n == 0 {
        assert(f + s =~= s);
        assert(s + f =~= s);
    } else {
        law_trim_char((n - 1) as nat, c, s);
        let g = Seq::new((n - 1) as nat, |i: int| c);
        assert((f + s).skip(1) =~= g + s);
        assert((f + s)[0] == c);
        assert((s + f).drop_last() =~= s + g);
        assert((s + f).last() == c);
    }
}

/// The same of a set of characters.
pub proof fn law_trim_set(a: Seq<char>, s: Seq<char>, set: Seq<char>)
    requires
        forall|i: int| 0 <= i < a.len() ==> set.contains(#[trigger] a[i]),
        s.len() > 0,
        !set.contains(s[0]),
        !set.contains(s.last()),
    ensures
        trim_set_start(a + s, set) == s,
        trim_set_end(s + a, set) == s,
    decreases a.len(),
{
    if a.len() == 0 {
        assert(a + s =~= s);
        assert(s + a =~= s);
    } else {
        let b = a.skip(1);
        assert forall|i: int| 0 <= i < b.len() implies set.contains(#[trigger] b[i]) by {
            assert(set.contains(a[i + 1]));
        }
        law_trim_set(b, s, set);
        assert((a + s).skip(1) =~= b + s);
        assert((a + s)[0] == a[0]);
        let d = a.drop_last();
        assert forall|i: int| 0 <= i < d.len() implies set.contains(#[trigger] d[i]) by {
            assert(set.contains(a[i]));
        }
        law_trim_set(d, s, set);
        assert((s + a).drop_last() =~= s + d);
        assert((s + a).last() == a[a.len() - 1]);
    }
}

/// The first line of a text ends before its first line break, whether that is `\n` or `\r\n`.
pub proof fn law_first_line(a: Seq<char>, b: Seq<char>)
    requires
        !a.contains('\n'),
        a.len() > 0,
        a.last() != '\r',
    ensures
        first_line(a) == a,
        first_line(a.push('\n') + b) == a,
        first_line(a.push('\r').push('\n') + b) == a,
{
    law_split_once(a, '\n', b);
    let r = a.push('\r');
    assert forall|i: int| 0 <= i < r.len() implies r[i] != '\n' by {
        if i < a.len() {
            assert(a.contains(a[i]));
        }
    }
    law_split_once(r, '\n', b);
    assert(r.drop_last() =~= a);
}

/// The head of a text is its beginning, and all of it where it is short enough.
pub proof fn law_head(s: Seq<char>, n: nat)
    ensures
        s.len() <= n ==> head(s, n) == s,
        s.len() > n ==> head(s, n).len() == n,
        forall|i: int| 0 <= i < head(s, n).len() ==> #[trigger] head(s, n)[i] == s[i],
{
}

/// A number is read from digits alone, with one plus sign in front at most, and up to a limit.
pub proof fn law_numbers_are_read(s: Seq<char>, max: nat, i: int)
    ensures
        0 <= i < s.len() && !('0' <= s[i] <= '9') && !(i == 0 && s[i] == '+') ==> parse_unsigned(
            s,
            max,
        ) is None,
        s.len() == 0 ==> parse_unsigned(s, max) is None,
        parse_unsigned(s, max) is Some ==> parse_unsigned(s, max).unwrap() <= max,
{
    let d = unsigned_digits(s);
    if 0 <= i < s.len() && !('0' <= s[i] <= '9') && !(i == 0 && s[i] == '+') {
        if s[0] == '+' {
            assert(d[i - 1] == s[i]);
        } else {
            assert(d[i] == s[i]);
        }
        if parse_unsigned(s, max) is Some {
            if s[0] == '+' {
                assert(is_digit(d[i - 1]));
            } else {
                assert(is_digit(d[i]));
            }
        }
    }
}

/// Replacing takes the stands of a text one by one from the left: what stands before the first is
/// kept, the new text stands in its place, and the rest is replaced in the same way.
pub proof fn law_replace(a: Seq<char>, pat: Seq<char>, b: Seq<char>, to: Seq<char>)
    requires
        pat.len() > 0,
        forall|i: int| 0 <= i < a.len() ==> !#[trigger] occurs_at(a + pat + b, pat, i),
    ensures
        replace(a + pat + b, pat, to) == a + to + replace(b, pat, to),
{
    let s = a + pat + b;
    lemma_replace_ahead(s, pat, to, a.len() as int, 0);
    let at = a.len() as int;
    assert(s.subrange(at, at + pat.len()) =~= pat);
    assert(occurs_at(s, pat, at));
    assert(s.subrange(0, at) =~= a);
    lemma_replace_shift(a + pat, b, pat, to, 0);
    assert(replace(s, pat, to) =~= a + to + replace(b, pat, to));
}

proof fn lemma_replace_ahead(s: Seq<char>, pat: Seq<char>, to: Seq<char>, n: int, i: int)
    requires
        0 <= i <= n <= s.len(),
        pat.len() > 0,
        forall|j: int| 0 <= j < n ==> !#[trigger] occurs_at(s, pat, j),
    ensures
        replace_from(s, pat, to, i) == s.subrange(i, n) + replace_from(s, pat, to, n),
    decreases n - i,
{
    if i < n {
        assert(!occurs_at(s, pat, i));
        lemma_replace_ahead(s, pat, to, n, i + 1);
        assert(seq![s[i]] + s.subrange(i + 1, n) =~= s.subrange(i, n));
    }
    assert(replace_from(s, pat, to, i) =~= s.subrange(i, n) + replace_from(s, pat, to, n));
}

proof fn lemma_replace_shift(a: Seq<char>, b: Seq<char>, pat: Seq<char>, to: Seq<char>, i: int)
    requires
        0 <= i,
        pat.len() > 0,
    ensures
        replace_from(a + b, pat, to, a.len() + i) == replace_from(b, pat, to, i),
    decreases b.len() - i,
{
    if i < b.len() {
        let s = a + b;
        assert(s[a.len() + i] == b[i]);
        if i + pat.len() <= b.len() {
            assert(s.subrange(a.len() + i, a.len() + i + pat.len()) =~= b.subrange(
                i,
                i + pat.len(),
            ));
        }
        if occurs_at(b, pat, i) {
            lemma_replace_shift(a, b, pat, to, i + pat.len() as int);
        } else {
            lemma_replace_shift(a, b, pat, to, i + 1);
        }
    }
}

} // verus!
