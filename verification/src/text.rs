//! Helpers on job names and other short texts.

use vstd::prelude::*;
use vstd::string::{StrSliceExecFns, StringExecFns, StringSliceAdditionalSpecFns};
use vstd::utf8::{encode_utf8, encode_utf8_decode_utf8};

verus! {

/// The lower-case form of a text, as `str::to_lowercase` of the standard
/// library gives it.
pub uninterp spec fn lowercase(text: Seq<char>) -> Seq<char>;

/// Calls `str::to_lowercase`, which maps every character by the Unicode
/// lower-case rules and depends on nothing but the text.
#[verifier::external_body]
pub(crate) fn to_lowercase(text: &str) -> (lower: String)
    ensures
        lower@ == lowercase(text@),
{
    text.to_lowercase()
}

/// Whether `keyword` occurs in `text` as a run of adjacent characters.
pub open spec fn occurs_in(keyword: Seq<char>, text: Seq<char>) -> bool {
    exists|i: int|
        0 <= i <= text.len() - keyword.len() && #[trigger] text.subrange(i, i + keyword.len())
            == keyword
}

/// The characters of `text`.
pub fn chars_of(text: &str) -> (chars: Vec<char>)
    ensures
        chars@ == text@,
{
    let n = text.unicode_len();
    let mut chars: Vec<char> = Vec::new();
    let mut i: usize = 0;
    while i < n
        invariant
            i <= n,
            n == text@.len(),
            chars.len() == i,
            forall|k: int| 0 <= k < i ==> chars[k] == text@[k],
        decreases n - i,
    {
        chars.push(text.get_char(i));
        i += 1;
    }
    assert(chars@ =~= text@);
    chars
}

/// Whether `keyword` occurs in `text`.
pub fn contains(text: &str, keyword: &str) -> (found: bool)
    ensures
        found == occurs_in(keyword@, text@),
{
    let hay = chars_of(text);
    let needle = chars_of(keyword);
    let n = hay.len();
    let m = needle.len();
    if m > n {
        return false;
    }
    let mut start: usize = 0;
    while start <= n - m
        invariant
            m <= n,
            n == hay.len(),
            m == needle.len(),
            hay@ == text@,
            needle@ == keyword@,
            start <= n - m + 1,
            forall|i: int| 0 <= i < start ==> #[trigger] hay@.subrange(i, i + m) != needle@,
        decreases n - m + 1 - start,
    {
        let mut k: usize = 0;
        while k < m && hay[start + k] == needle[k]
            invariant
                k <= m,
                m <= n,
                start <= n - m,
                n == hay.len(),
                m == needle.len(),
                forall|j: int| 0 <= j < k ==> hay[start + j] == needle[j],
            decreases m - k,
        {
            k += 1;
        }
        if k == m {
            assert(hay@.subrange(start as int, start + m) =~= needle@);
            return true;
        }
        assert(hay@.subrange(start as int, start + m)[k as int] != needle@[k as int]);
        start += 1;
    }
    false
}

/// The texts of `items` without repetition, each where it first occurs.
pub open spec fn distinct(items: Seq<Seq<char>>) -> Seq<Seq<char>>
    decreases items.len(),
{
    if items.len() == 0 {
        Seq::empty()
    } else {
        let rest = distinct(items.drop_last());
        if rest.contains(items.last()) {
            rest
        } else {
            rest.push(items.last())
        }
    }
}

/// Adding one text to a list adds it to the distinct texts unless it is
/// among them.
pub proof fn lemma_distinct_push(items: Seq<Seq<char>>, item: Seq<char>)
    ensures
        distinct(items.push(item)) == if distinct(items).contains(item) {
            distinct(items)
        } else {
            distinct(items).push(item)
        },
{
    assert(items.push(item).drop_last() =~= items);
}

/// Whether `item` is among `items`.
pub fn is_listed(items: &Vec<String>, item: &String) -> (listed: bool)
    ensures
        listed == items.deep_view().contains(item@),
{
    let mut i: usize = 0;
    while i < items.len()
        invariant
            i <= items.len(),
            forall|k: int| 0 <= k < i ==> items.deep_view()[k] != item@,
        decreases items.len() - i,
    {
        if items[i] == *item {
            assert(items.deep_view()[i as int] == item@);
            return true;
        }
        i += 1;
    }
    false
}

/// Adds a copy of `item` to `seen` unless it is there already; `seen`
/// holds the distinct texts of `before`.
pub(crate) fn note(seen: &mut Vec<String>, item: &String, Ghost(before): Ghost<Seq<Seq<char>>>)
    requires
        old(seen).deep_view() == distinct(before),
    ensures
        final(seen).deep_view() == distinct(before.push(item@)),
{
    proof {
        lemma_distinct_push(before, item@);
    }
    if !is_listed(seen, item) {
        let ghost earlier = seen.deep_view();
        seen.push(item.clone());
        assert(seen.deep_view() =~= earlier.push(item@));
    }
}

/// Whether `a` comes before `b` when bytes are compared one by one: at
/// the first place where they differ `a` holds the smaller byte, or `a`
/// ends there and `b` goes on.
pub open spec fn bytes_before(a: Seq<u8>, b: Seq<u8>) -> bool
    decreases a.len(),
{
    if b.len() == 0 {
        false
    } else if a.len() == 0 {
        true
    } else if a[0] != b[0] {
        a[0] < b[0]
    } else {
        bytes_before(a.drop_first(), b.drop_first())
    }
}

/// Whether the text `a` sorts before the text `b`: the order of their
/// UTF-8 bytes, which is the order of strings in the standard library.
pub open spec fn precedes(a: Seq<char>, b: Seq<char>) -> bool {
    bytes_before(encode_utf8(a), encode_utf8(b))
}

pub proof fn lemma_bytes_before_irreflexive(a: Seq<u8>)
    ensures
        !bytes_before(a, a),
    decreases a.len(),
{
    if a.len() > 0 {
        lemma_bytes_before_irreflexive(a.drop_first());
    }
}

pub proof fn lemma_bytes_before_transitive(a: Seq<u8>, b: Seq<u8>, c: Seq<u8>)
    requires
        bytes_before(a, b),
        bytes_before(b, c),
    ensures
        bytes_before(a, c),
    decreases a.len(),
{
    if a.len() > 0 && a[0] == b[0] && b[0] == c[0] {
        lemma_bytes_before_transitive(a.drop_first(), b.drop_first(), c.drop_first());
    }
}

pub proof fn lemma_bytes_before_total(a: Seq<u8>, b: Seq<u8>)
    requires
        a != b,
    ensures
        bytes_before(a, b) || bytes_before(b, a),
    decreases a.len(),
{
    if a.len() > 0 && b.len() > 0 && a[0] == b[0] {
        if a.drop_first() == b.drop_first() {
            assert(a =~= seq![a[0]] + a.drop_first());
            assert(b =~= seq![b[0]] + b.drop_first());
        }
        lemma_bytes_before_total(a.drop_first(), b.drop_first());
    } else if a.len() == 0 && b.len() == 0 {
        assert(a =~= b);
    }
}

/// No text sorts before itself.
pub proof fn lemma_precedes_irreflexive(a: Seq<char>)
    ensures
        !precedes(a, a),
{
    lemma_bytes_before_irreflexive(encode_utf8(a));
}

/// What sorts before a text sorts before all that the text sorts before.
pub proof fn lemma_precedes_transitive(a: Seq<char>, b: Seq<char>, c: Seq<char>)
    requires
        precedes(a, b),
        precedes(b, c),
    ensures
        precedes(a, c),
{
    lemma_bytes_before_transitive(encode_utf8(a), encode_utf8(b), encode_utf8(c));
}

/// Of two different texts one sorts before the other.
pub proof fn lemma_precedes_total(a: Seq<char>, b: Seq<char>)
    requires
        a != b,
    ensures
        precedes(a, b) || precedes(b, a),
{
    encode_utf8_decode_utf8(a);
    encode_utf8_decode_utf8(b);
    lemma_bytes_before_total(encode_utf8(a), encode_utf8(b));
}

/// Whether `a` sorts before `b`.
pub fn comes_before(a: &str, b: &str) -> (before: bool)
    ensures
        before == precedes(a@, b@),
{
    let x = a.as_bytes();
    let y = b.as_bytes();
    let ghost xs = x@;
    let ghost ys = y@;
    let mut i: usize = 0;
    assert(xs.subrange(0, xs.len() as int) =~= xs);
    assert(ys.subrange(0, ys.len() as int) =~= ys);
    while i < x.len() && i < y.len() && x[i] == y[i]
        invariant
            i <= x.len(),
            i <= y.len(),
            xs == x@,
            ys == y@,
            bytes_before(xs, ys) == bytes_before(
                xs.subrange(i as int, xs.len() as int),
                ys.subrange(i as int, ys.len() as int),
            ),
        decreases x.len() - i,
    {
        proof {
            let xt = xs.subrange(i as int, xs.len() as int);
            let yt = ys.subrange(i as int, ys.len() as int);
            assert(xt[0] == xs[i as int] && yt[0] == ys[i as int]);
            assert(xt.drop_first() =~= xs.subrange(i + 1, xs.len() as int));
            assert(yt.drop_first() =~= ys.subrange(i + 1, ys.len() as int));
        }
        i += 1;
    }
    proof {
        let xt = xs.subrange(i as int, xs.len() as int);
        let yt = ys.subrange(i as int, ys.len() as int);
        if i < x.len() && i < y.len() {
            assert(xt[0] == xs[i as int] && yt[0] == ys[i as int]);
        }
    }
    if i >= y.len() {
        false
    } else if i >= x.len() {
        true
    } else {
        x[i] < y[i]
    }
}

/// Whether two texts are the same.
pub fn same_text(a: &str, b: &str) -> (same: bool)
    ensures
        same == (a@ == b@),
{
    String::from_str(a) == String::from_str(b)
}

} // verus!
