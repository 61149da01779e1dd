//! Characters, bytes and sequences: the small vocabulary that the parser, the
//! index and the search engine are written in.
//!
//! Text is modelled twice. A string's view is its sequence of characters; its
//! bytes are the UTF-8 encoding of that sequence. Tokenizing and parsing work on
//! characters, matching and ranking work on bytes.

use vstd::prelude::*;
use vstd::utf8::encode_utf8;

verus! {

// ---------------------------------------------------------------------------
// What the standard library decides about single characters
// ---------------------------------------------------------------------------

/// Whether the Unicode tables of the standard library class `c` as a letter or
/// a number.
pub uninterp spec fn char_is_alphanumeric(c: char) -> bool;

/// Whether the standard library classes `c` as white space.
pub uninterp spec fn char_is_whitespace(c: char) -> bool;

/// The lowercase mapping of one character, which may be several characters.
pub uninterp spec fn char_lowercase(c: char) -> Seq<char>;

/// The lowercase form of a whole string, as the standard library computes it
/// (it is context sensitive, so it is not the mapping of each character).
pub uninterp spec fn str_lowercase(s: Seq<char>) -> Seq<char>;

/// `char::is_alphanumeric`. Nothing is claimed of the answer but that it is the
/// one named [`char_is_alphanumeric`]: the same character is always classed
/// the same way.
#[verifier::external_body]
pub(crate) fn is_alphanumeric(c: char) -> (b: bool)
    ensures
        b == char_is_alphanumeric(c),
{
    c.is_alphanumeric()
}

/// `char::is_whitespace`, named by [`char_is_whitespace`].
#[verifier::external_body]
pub(crate) fn is_whitespace(c: char) -> (b: bool)
    ensures
        b == char_is_whitespace(c),
{
    c.is_whitespace()
}

/// `char::to_lowercase`, collected. The characters that come out are those
/// named by [`char_lowercase`].
#[verifier::external_body]
pub(crate) fn lowercase_of_char(c: char) -> (r: Vec<char>)
    ensures
        r@ == char_lowercase(c),
{
    c.to_lowercase().collect()
}

/// `str::to_lowercase`, named by [`str_lowercase`].
#[verifier::external_body]
pub(crate) fn lowercase_of_str(s: &str) -> (r: String)
    ensures
        r@ == str_lowercase(s@),
{
    s.to_lowercase()
}

/// `String::push` appends one character and changes nothing else.
pub assume_specification[ String::push ](s: &mut String, ch: char)
    ensures
        final(s)@ == old(s)@.push(ch),
;

// ---------------------------------------------------------------------------
// Views of strings inside collections
// ---------------------------------------------------------------------------

/// The views of a sequence of values.
pub open spec fn seq_view<T: View>(s: Seq<T>) -> Seq<T::V> {
    s.map_values(|t: T| t@)
}

/// The view of an optional string.
pub open spec fn opt_view(o: Option<String>) -> Option<Seq<char>> {
    match o {
        Some(s) => Some(s@),
        None => None,
    }
}

/// The views of a sequence with one more value.
pub proof fn lemma_seq_view_push<T: View>(v: Seq<T>, x: T)
    ensures
        seq_view(v.push(x)) == seq_view(v).push(x@),
{
    assert(seq_view(v.push(x)) =~= seq_view(v).push(x@));
}

/// A copy of `s`.
pub fn clone_string(s: &String) -> (r: String)
    ensures
        r@ == s@,
{
    s.clone()
}

/// A copy of an optional string.
pub fn clone_opt(o: &Option<String>) -> (r: Option<String>)
    ensures
        opt_view(r) == opt_view(*o),
{
    match o {
        Some(s) => Some(s.clone()),
        None => None,
    }
}

/// A copy of a list of strings.
pub fn clone_strings(v: &Vec<String>) -> (r: Vec<String>)
    ensures
        seq_view(r@) == seq_view(v@),
{
    let mut r: Vec<String> = Vec::new();
    let mut i: usize = 0;
    while i < v.len()
        invariant
            i <= v.len(),
            seq_view(r@) == seq_view(v@).take(i as int),
        decreases v.len() - i,
    {
        proof {
            lemma_seq_view_push(r@, v@[i as int]);
        }
        r.push(v[i].clone());
        assert(seq_view(v@).take(i + 1) =~= seq_view(v@).take(i as int).push(v@[i as int]@));
        i += 1;
    }
    assert(seq_view(v@).take(v@.len() as int) =~= seq_view(v@));
    r
}

/// What a sequence holds once a value was pushed.
pub proof fn lemma_contains_push<A>(s: Seq<A>, x: A, y: A)
    ensures
        s.push(x).contains(y) <==> (s.contains(y) || y == x),
{
    if s.push(x).contains(y) {
        let k = choose|k: int| 0 <= k < s.push(x).len() && s.push(x)[k] == y;
        if k < s.len() {
            assert(s[k] == y);
        }
    }
    if s.contains(y) {
        let k = choose|k: int| 0 <= k < s.len() && s[k] == y;
        assert(s.push(x)[k] == y);
    }
    if y == x {
        assert(s.push(x)[s.len() as int] == y);
    }
}

/// What a sequence holds, by its last value and the rest.
pub proof fn lemma_contains_last<A>(s: Seq<A>, y: A)
    requires
        s.len() > 0,
    ensures
        s.contains(y) <==> (s.drop_last().contains(y) || y == s.last()),
{
    assert(s =~= s.drop_last().push(s.last()));
    lemma_contains_push(s.drop_last(), s.last(), y);
}

// ---------------------------------------------------------------------------
// Between strings and character vectors
// ---------------------------------------------------------------------------

/// The characters of `s`, in order.
pub fn chars_of(s: &str) -> (v: Vec<char>)
    ensures
        v@ == s@,
{
    let mut v: Vec<char> = Vec::new();
    for c in it: s.chars()
        invariant
            it.seq() == s@,
            v@ == s@.take(it.index()),
    {
        v.push(c);
        assert(s@.take(it.index() + 1) =~= s@.take(it.index()).push(c));
    }
    assert(s@.take(s@.len() as int) =~= s@);
    v
}

/// The string made of `cs[lo..hi]`.
pub fn string_of_range(cs: &Vec<char>, lo: usize, hi: usize) -> (s: String)
    requires
        lo <= hi <= cs.len(),
    ensures
        s@ == cs@.subrange(lo as int, hi as int),
{
    let mut s = String::new();
    let mut i: usize = lo;
    while i < hi
        invariant
            lo <= i <= hi <= cs.len(),
            s@ == cs@.subrange(lo as int, i as int),
        decreases hi - i,
    {
        s.push(cs[i]);
        assert(cs@.subrange(lo as int, i + 1) =~= cs@.subrange(lo as int, i as int).push(
            cs@[i as int],
        ));
        i += 1;
    }
    s
}

/// The string made of all of `cs`.
pub fn string_of(cs: &Vec<char>) -> (s: String)
    ensures
        s@ == cs@,
{
    let s = string_of_range(cs, 0, cs.len());
    assert(cs@.subrange(0, cs@.len() as int) =~= cs@);
    s
}

/// Whether `cs[lo..hi]` spells `word`.
pub fn range_is(cs: &Vec<char>, lo: usize, hi: usize, word: &str) -> (b: bool)
    requires
        lo <= hi <= cs.len(),
    ensures
        b == (cs@.subrange(lo as int, hi as int) == word@),
{
    let w = chars_of(word);
    if w.len() != hi - lo {
        return false;
    }
    let mut i: usize = 0;
    while i < w.len()
        invariant
            lo <= hi <= cs.len(),
            w.len() == hi - lo,
            i <= w.len(),
            w@ == word@,
            forall|k: int| 0 <= k < i ==> cs@[lo + k] == w@[k],
        decreases w.len() - i,
    {
        if cs[lo + i] != w[i] {
            assert(cs@.subrange(lo as int, hi as int)[i as int] != w@[i as int]);
            return false;
        }
        i += 1;
    }
    assert(cs@.subrange(lo as int, hi as int) =~= w@);
    true
}

// ---------------------------------------------------------------------------
// Searching a range for the first position with a property
// ---------------------------------------------------------------------------

/// The least `p` in `lo..hi` at which `pred` holds, if there is one.
pub open spec fn first_match(pred: spec_fn(int) -> bool, lo: int, hi: int) -> Option<int>
    decreases hi - lo,
{
    if lo >= hi {
        None
    } else if pred(lo) {
        Some(lo)
    } else {
        first_match(pred, lo + 1, hi)
    }
}

/// What [`first_match`] finds is a match, and nothing before it is one.
pub proof fn lemma_first_match(pred: spec_fn(int) -> bool, lo: int, hi: int)
    ensures
        match first_match(pred, lo, hi) {
            Some(p) => lo <= p < hi && pred(p) && forall|q: int| lo <= q < p ==> !#[trigger] pred(q),
            None => forall|q: int| lo <= q < hi ==> !#[trigger] pred(q),
        },
    decreases hi - lo,
{
    if lo < hi && !pred(lo) {
        lemma_first_match(pred, lo + 1, hi);
    }
}

/// A match with none before it is the one that [`first_match`] finds.
pub proof fn lemma_first_match_is(pred: spec_fn(int) -> bool, lo: int, hi: int, p: int)
    requires
        lo <= p < hi,
        pred(p),
        forall|q: int| lo <= q < p ==> !#[trigger] pred(q),
    ensures
        first_match(pred, lo, hi) == Some(p),
    decreases hi - lo,
{
    if lo < p {
        lemma_first_match_is(pred, lo + 1, hi, p);
    }
}

/// Where nothing matches, [`first_match`] finds nothing.
pub proof fn lemma_first_match_none(pred: spec_fn(int) -> bool, lo: int, hi: int)
    requires
        forall|q: int| lo <= q < hi ==> !#[trigger] pred(q),
    ensures
        first_match(pred, lo, hi) is None,
    decreases hi - lo,
{
    if lo < hi {
        lemma_first_match_none(pred, lo + 1, hi);
    }
}

// ---------------------------------------------------------------------------
// Occurrences of one byte string in another
// ---------------------------------------------------------------------------

/// `needle` stands in `hay` at offset `p`.
pub open spec fn occurs_at(hay: Seq<u8>, needle: Seq<u8>, p: int) -> bool {
    &&& 0 <= p
    &&& p + needle.len() <= hay.len()
    &&& forall|k: int| 0 <= k < needle.len() ==> hay[p + k] == #[trigger] needle[k]
}

/// `needle` stands in `hay` at offset `p`, and `p` is the start of `hay` or
/// the byte before `p` is one of `marks`.
pub open spec fn occurs_at_boundary(hay: Seq<u8>, needle: Seq<u8>, marks: Seq<u8>, p: int) -> bool {
    occurs_at(hay, needle, p) && (p == 0 || marks.contains(hay[p - 1]))
}

/// The offset of the first occurrence of `needle` in `hay`.
pub open spec fn first_occurrence(hay: Seq<u8>, needle: Seq<u8>) -> Option<int> {
    first_match(|p: int| occurs_at(hay, needle, p), 0, hay.len() as int + 1)
}

/// The offset of the first occurrence of `needle` in `hay` that starts at a
/// boundary.
pub open spec fn first_boundary_occurrence(hay: Seq<u8>, needle: Seq<u8>, marks: Seq<u8>) -> Option<
    int,
> {
    first_match(|p: int| occurs_at_boundary(hay, needle, marks, p), 0, hay.len() as int + 1)
}

/// An occurrence at a boundary is found if and only if there is one.
pub proof fn lemma_boundary_occurrence(hay: Seq<u8>, needle: Seq<u8>, marks: Seq<u8>)
    ensures
        first_boundary_occurrence(hay, needle, marks) is Some <==> exists|p: int|
            occurs_at_boundary(hay, needle, marks, p),
{
    let pred = |p: int| occurs_at_boundary(hay, needle, marks, p);
    lemma_first_match(pred, 0, hay.len() as int + 1);
    if first_boundary_occurrence(hay, needle, marks) is None {
        assert forall|p: int| !occurs_at_boundary(hay, needle, marks, p) by {
            if 0 <= p < hay.len() + 1 {
                assert(!pred(p));
            }
        }
    } else {
        assert(pred(first_boundary_occurrence(hay, needle, marks)->0));
    }
}

/// Whether `needle` stands in `hay` at `p`.
pub fn stands_at(hay: &[u8], needle: &[u8], p: usize) -> (b: bool)
    ensures
        b == occurs_at(hay@, needle@, p as int),
{
    if needle.len() > hay.len() || p > hay.len() - needle.len() {
        return false;
    }
    let mut k: usize = 0;
    while k < needle.len()
        invariant
            k <= needle.len(),
            p + needle.len() <= hay.len(),
            forall|j: int| 0 <= j < k ==> hay@[p + j] == #[trigger] needle@[j],
        decreases needle.len() - k,
    {
        if hay[p + k] != needle[k] {
            return false;
        }
        k += 1;
    }
    true
}

/// Whether `b` is one of `marks`.
pub fn is_mark(marks: &[u8], b: u8) -> (r: bool)
    ensures
        r == marks@.contains(b),
{
    let mut i: usize = 0;
    while i < marks.len()
        invariant
            i <= marks.len(),
            forall|j: int| 0 <= j < i ==> marks@[j] != b,
        decreases marks.len() - i,
    {
        if marks[i] == b {
            return true;
        }
        i += 1;
    }
    false
}

/// The first offset at which `needle` occurs in `hay`.
pub fn find_bytes(hay: &[u8], needle: &[u8]) -> (r: Option<usize>)
    ensures
        match r {
            Some(p) => first_occurrence(hay@, needle@) == Some(p as int),
            None => first_occurrence(hay@, needle@) is None,
        },
{
    let ghost pred = |p: int| occurs_at(hay@, needle@, p);
    let mut p: usize = 0;
    while p <= hay.len()
        invariant
            p <= hay.len() + 1,
            pred == (|p: int| occurs_at(hay@, needle@, p)),
            forall|q: int| 0 <= q < p ==> !#[trigger] pred(q),
        decreases hay.len() + 1 - p,
    {
        if stands_at(hay, needle, p) {
            proof {
                lemma_first_match_is(pred, 0, hay@.len() as int + 1, p as int);
            }
            return Some(p);
        }
        if p == hay.len() {
            proof {
                lemma_first_match_none(pred, 0, hay@.len() as int + 1);
            }
            return None;
        }
        p += 1;
    }
    proof {
        lemma_first_match_none(pred, 0, hay@.len() as int + 1);
    }
    None
}

/// The first offset at which `needle` occurs in `hay` at a boundary.
pub fn find_at_boundary(hay: &[u8], needle: &[u8], marks: &[u8]) -> (r: Option<usize>)
    ensures
        match r {
            Some(p) => first_boundary_occurrence(hay@, needle@, marks@) == Some(p as int),
            None => first_boundary_occurrence(hay@, needle@, marks@) is None,
        },
{
    let ghost pred = |p: int| occurs_at_boundary(hay@, needle@, marks@, p);
    let mut p: usize = 0;
    while p <= hay.len()
        invariant
            p <= hay.len() + 1,
            pred == (|p: int| occurs_at_boundary(hay@, needle@, marks@, p)),
            forall|q: int| 0 <= q < p ==> !#[trigger] pred(q),
        decreases hay.len() + 1 - p,
    {
        if (p == 0 || is_mark(marks, hay[p - 1])) && stands_at(hay, needle, p) {
            proof {
                lemma_first_match_is(pred, 0, hay@.len() as int + 1, p as int);
            }
            return Some(p);
        }
        if p == hay.len() {
            proof {
                lemma_first_match_none(pred, 0, hay@.len() as int + 1);
            }
            return None;
        }
        p += 1;
    }
    proof {
        lemma_first_match_none(pred, 0, hay@.len() as int + 1);
    }
    None
}

// ---------------------------------------------------------------------------
// Lexicographic order on bytes
// ---------------------------------------------------------------------------

/// `a` comes before `b` in the dictionary, looking only from index `i` on.
pub open spec fn lex_lt_from(a: Seq<u8>, b: Seq<u8>, i: int) -> bool
    decreases a.len() - i,
{
    if i >= a.len() {
        i < b.len()
    } else if i >= b.len() {
        false
    } else if a[i] != b[i] {
        a[i] < b[i]
    } else {
        lex_lt_from(a, b, i + 1)
    }
}

/// `a` comes strictly before `b` in the dictionary: byte by byte, a proper
/// prefix first.
pub open spec fn lex_lt(a: Seq<u8>, b: Seq<u8>) -> bool {
    lex_lt_from(a, b, 0)
}

/// The dictionary order is transitive.
pub proof fn lemma_lex_transitive_from(a: Seq<u8>, b: Seq<u8>, c: Seq<u8>, i: int)
    requires
        0 <= i,
        lex_lt_from(a, b, i),
        lex_lt_from(b, c, i),
    ensures
        lex_lt_from(a, c, i),
    decreases a.len() - i,
{
    if i < a.len() && i < b.len() && i < c.len() && a[i] == b[i] && b[i] == c[i] {
        lemma_lex_transitive_from(a, b, c, i + 1);
    }
}

/// No byte string comes before itself.
pub proof fn lemma_lex_irreflexive_from(a: Seq<u8>, i: int)
    requires
        0 <= i,
    ensures
        !lex_lt_from(a, a, i),
    decreases a.len() - i,
{
    if i < a.len() {
        lemma_lex_irreflexive_from(a, i + 1);
    }
}

/// Two byte strings that agree before `i` and of which neither comes before the
/// other from `i` on are the same string.
pub proof fn lemma_lex_total_from(a: Seq<u8>, b: Seq<u8>, i: int)
    requires
        0 <= i <= a.len(),
        i <= b.len(),
        forall|k: int| 0 <= k < i ==> a[k] == b[k],
        !lex_lt_from(a, b, i),
        !lex_lt_from(b, a, i),
    ensures
        a == b,
    decreases a.len() - i,
{
    if i < a.len() && i < b.len() {
        lemma_lex_total_from(a, b, i + 1);
    } else {
        assert(a =~= b);
    }
}

/// Whether `a` comes strictly before `b` in the dictionary.
pub fn bytes_before(a: &[u8], b: &[u8]) -> (r: bool)
    ensures
        r == lex_lt(a@, b@),
{
    let mut i: usize = 0;
    while i < a.len() && i < b.len()
        invariant
            i <= a.len(),
            i <= b.len(),
            lex_lt(a@, b@) == lex_lt_from(a@, b@, i as int),
        decreases a.len() - i,
    {
        if a[i] != b[i] {
            return a[i] < b[i];
        }
        i += 1;
    }
    i < b.len()
}

/// Whether two byte strings are the same.
pub fn bytes_equal(a: &[u8], b: &[u8]) -> (r: bool)
    ensures
        r == (a@ == b@),
{
    if a.len() != b.len() {
        return false;
    }
    let mut i: usize = 0;
    while i < a.len()
        invariant
            i <= a.len(),
            a.len() == b.len(),
            forall|k: int| 0 <= k < i ==> a@[k] == b@[k],
        decreases a.len() - i,
    {
        if a[i] != b[i] {
            return false;
        }
        i += 1;
    }
    assert(a@ =~= b@);
    true
}

/// Strings with the same bytes have the same characters.
pub proof fn lemma_encode_injective(a: Seq<char>, b: Seq<char>)
    requires
        encode_utf8(a) == encode_utf8(b),
    ensures
        a == b,
{
    vstd::utf8::encode_utf8_decode_utf8(a);
    vstd::utf8::encode_utf8_decode_utf8(b);
}

/// Whether two strings are the same.
pub fn str_equal(a: &str, b: &str) -> (r: bool)
    ensures
        r == (a@ == b@),
{
    let r = bytes_equal(a.as_bytes(), b.as_bytes());
    proof {
        if r {
            lemma_encode_injective(a@, b@);
        }
    }
    r
}

// ---------------------------------------------------------------------------
// Trimming, lowering, ASCII case
// ---------------------------------------------------------------------------

/// The index of the first character of `s[lo..hi]` that is not white space,
/// or `hi`.
pub open spec fn skip_space(s: Seq<char>, lo: int, hi: int) -> int
    decreases hi - lo,
{
    if lo >= hi {
        hi
    } else if char_is_whitespace(s[lo]) {
        skip_space(s, lo + 1, hi)
    } else {
        lo
    }
}

/// The index after the last character of `s[lo..hi]` that is not white space,
/// or `lo`.
pub open spec fn drop_space(s: Seq<char>, lo: int, hi: int) -> int
    decreases hi - lo,
{
    if lo >= hi {
        lo
    } else if char_is_whitespace(s[hi - 1]) {
        drop_space(s, lo, hi - 1)
    } else {
        hi
    }
}

/// The bounds of `cs[lo..hi]` without the white space at its two ends.
pub fn trim_range(cs: &Vec<char>, lo: usize, hi: usize) -> (r: (usize, usize))
    requires
        lo <= hi <= cs.len(),
    ensures
        r.0 == skip_space(cs@, lo as int, hi as int),
        r.1 == drop_space(cs@, r.0 as int, hi as int),
        lo <= r.0 <= r.1 <= hi,
{
    let mut a: usize = lo;
    while a < hi && is_whitespace(cs[a])
        invariant
            lo <= a <= hi <= cs.len(),
            skip_space(cs@, lo as int, hi as int) == skip_space(cs@, a as int, hi as int),
        decreases hi - a,
    {
        a += 1;
    }
    let mut b: usize = hi;
    while a < b && is_whitespace(cs[b - 1])
        invariant
            a <= b <= hi <= cs.len(),
            drop_space(cs@, a as int, hi as int) == drop_space(cs@, a as int, b as int),
        decreases b - a,
    {
        b -= 1;
    }
    (a, b)
}

/// `s[lo..hi]` without the white space at its two ends.
pub open spec fn trimmed_range(s: Seq<char>, lo: int, hi: int) -> Seq<char> {
    let a = skip_space(s, lo, hi);
    s.subrange(a, drop_space(s, a, hi))
}

/// `s` with every character replaced by its lowercase mapping.
pub open spec fn lower_each(s: Seq<char>) -> Seq<char>
    decreases s.len(),
{
    if s.len() == 0 {
        Seq::empty()
    } else {
        lower_each(s.drop_last()) + char_lowercase(s.last())
    }
}

/// Appends to `dst` the lowercase mapping of `c`.
pub fn push_lowercase(dst: &mut String, c: char)
    ensures
        final(dst)@ == old(dst)@ + char_lowercase(c),
{
    let ghost before = dst@;
    let low = lowercase_of_char(c);
    let mut k: usize = 0;
    assert(dst@ =~= before + low@.take(0));
    while k < low.len()
        invariant
            k <= low.len(),
            dst@ == before + low@.take(k as int),
        decreases low.len() - k,
    {
        dst.push(low[k]);
        assert(before + low@.take(k + 1) =~= (before + low@.take(k as int)).push(low@[k as int]));
        k += 1;
    }
    assert(low@.take(low@.len() as int) =~= low@);
}

/// Appends to `dst` the lowercase mapping of each character of `s`.
pub fn push_lowered(dst: &mut String, s: &str)
    ensures
        final(dst)@ == old(dst)@ + lower_each(s@),
{
    let ghost start = dst@;
    assert(dst@ =~= start + lower_each(s@.take(0)));
    for c in it: s.chars()
        invariant
            it.seq() == s@,
            dst@ == start + lower_each(s@.take(it.index())),
    {
        push_lowercase(dst, c);
        proof {
            let t = s@.take(it.index() + 1);
            assert(t.drop_last() =~= s@.take(it.index()));
            assert(dst@ =~= start + lower_each(t));
        }
    }
    assert(s@.take(s@.len() as int) =~= s@);
}

/// The lowercase of an ASCII capital letter; any other character unchanged.
pub open spec fn ascii_lower(c: char) -> char {
    if 'A' <= c && c <= 'Z' {
        ((c as u8) + 32) as char
    } else {
        c
    }
}

/// Whether `a` and `b` are the same when the case of ASCII letters is ignored.
pub open spec fn same_ignoring_ascii_case(a: Seq<char>, b: Seq<char>) -> bool {
    a.len() == b.len() && forall|k: int| 0 <= k < a.len() ==> ascii_lower(a[k]) == ascii_lower(
        #[trigger] b[k],
    )
}

/// The ASCII lowercase of one character.
pub fn to_ascii_lower(c: char) -> (r: char)
    ensures
        r == ascii_lower(c),
{
    if 'A' <= c && c <= 'Z' {
        let b: u8 = c as u8;
        (b + 32) as char
    } else {
        c
    }
}

/// Whether `cs[lo..hi]` and `word` are the same when ASCII case is ignored.
pub fn range_is_ignoring_case(cs: &Vec<char>, lo: usize, hi: usize, word: &str) -> (b: bool)
    requires
        lo <= hi <= cs.len(),
    ensures
        b == same_ignoring_ascii_case(cs@.subrange(lo as int, hi as int), word@),
{
    let w = chars_of(word);
    if w.len() != hi - lo {
        return false;
    }
    let ghost a = cs@.subrange(lo as int, hi as int);
    let mut i: usize = 0;
    while i < w.len()
        invariant
            lo <= hi <= cs.len(),
            w.len() == hi - lo,
            i <= w.len(),
            w@ == word@,
            a == cs@.subrange(lo as int, hi as int),
            forall|k: int| 0 <= k < i ==> ascii_lower(a[k]) == ascii_lower(#[trigger] w@[k]),
        decreases w.len() - i,
    {
        if to_ascii_lower(cs[lo + i]) != to_ascii_lower(w[i]) {
            assert(ascii_lower(a[i as int]) != ascii_lower(w@[i as int]));
            return false;
        }
        i += 1;
    }
    true
}

// ---------------------------------------------------------------------------
// Numbers in text
// ---------------------------------------------------------------------------

/// The character of the digit `d`: `0` to `9`, then `a` to `z`.
pub open spec fn digit_char(d: int) -> char {
    if d < 10 {
        (48 + d) as char
    } else {
        (87 + d) as char
    }
}

/// The digits of `n` to the base `base`, the most significant first.
pub open spec fn digits_of(n: nat, base: nat) -> Seq<char>
    decreases n,
{
    if base < 2 || n < base {
        seq![digit_char(n as int)]
    } else {
        proof {
            vstd::arithmetic::div_mod::lemma_div_decreases(n as int, base as int);
        }
        digits_of(n / base, base).push(digit_char((n % base) as int))
    }
}

/// Appends to `s` the digits of `n` to the base `base`.
pub fn push_digits(s: &mut String, n: u64, base: u64)
    requires
        2 <= base <= 36,
    ensures
        final(s)@ == old(s)@ + digits_of(n as nat, base as nat),
    decreases n,
{
    if n >= base {
        proof {
            vstd::arithmetic::div_mod::lemma_div_decreases(n as int, base as int);
        }
        push_digits(s, n / base, base);
    }
    let r: u64 = n % base;
    proof {
        vstd::arithmetic::div_mod::lemma_mod_bound(n as int, base as int);
        if n < base {
            vstd::arithmetic::div_mod::lemma_small_mod(n as nat, base as nat);
        }
    }
    let d: u8 = r as u8;
    let c: char = if d < 10 {
        (48u8 + d) as char
    } else {
        (87u8 + d) as char
    };
    assert(c == digit_char(r as int));
    s.push(c);
    proof {
        if n >= base {
            assert(s@ =~= old(s)@ + digits_of(n as nat, base as nat));
        } else {
            assert(s@ =~= old(s)@ + seq![digit_char(n as int)]);
        }
    }
}

} // verus!
