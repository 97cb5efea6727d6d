//! Character-level helpers shared by the converters: whitespace, trimming,
//! searching, and the conversions between `str`, `String` and `Vec<char>`.

use vstd::prelude::*;

verus! {

broadcast use vstd::string::group_string_axioms;

/// The Unicode `White_Space` property, the set of characters that
/// `char::is_whitespace` (and so `str::trim`) treats as whitespace.
pub open spec fn is_white(c: char) -> bool {
    let u = c as u32;
    (0x9 <= u <= 0xd) || u == 0x20 || u == 0x85 || u == 0xa0 || u == 0x1680
        || (0x2000 <= u <= 0x200a) || u == 0x2028 || u == 0x2029 || u == 0x202f
        || u == 0x205f || u == 0x3000
}

/// Whether `c` has the Unicode `White_Space` property.
pub fn is_white_char(c: char) -> (b: bool)
    ensures
        b == is_white(c),
{
    let u = c as u32;
    (0x9 <= u && u <= 0xd) || u == 0x20 || u == 0x85 || u == 0xa0 || u == 0x1680
        || (0x2000 <= u && u <= 0x200a) || u == 0x2028 || u == 0x2029 || u == 0x202f
        || u == 0x205f || u == 0x3000
}

/// `s` without its trailing whitespace (`str::trim_end`).
pub open spec fn trim_end(s: Seq<char>) -> Seq<char>
    decreases s.len(),
{
    if s.len() > 0 && is_white(s.last()) {
        trim_end(s.drop_last())
    } else {
        s
    }
}

/// `s` without its leading whitespace (`str::trim_start`).
pub open spec fn trim_start(s: Seq<char>) -> Seq<char>
    decreases s.len(),
{
    if s.len() > 0 && is_white(s[0]) {
        trim_start(s.drop_first())
    } else {
        s
    }
}

/// `s` without leading and trailing whitespace (`str::trim`).
pub open spec fn trim(s: Seq<char>) -> Seq<char> {
    trim_end(trim_start(s))
}

/// `s` without any of its leading copies of `c` (`str::trim_start_matches`).
pub open spec fn strip_leading(s: Seq<char>, c: char) -> Seq<char>
    decreases s.len(),
{
    if s.len() > 0 && s[0] == c {
        strip_leading(s.drop_first(), c)
    } else {
        s
    }
}

/// `s` without any of its trailing copies of `c` (`str::trim_end_matches`).
pub open spec fn strip_trailing(s: Seq<char>, c: char) -> Seq<char>
    decreases s.len(),
{
    if s.len() > 0 && s.last() == c {
        strip_trailing(s.drop_last(), c)
    } else {
        s
    }
}

/// The index of the first `c` in `s`, or `s.len()` when there is none.
pub open spec fn first_index(s: Seq<char>, c: char) -> int
    decreases s.len(),
{
    if s.len() == 0 {
        0
    } else if s[0] == c {
        0
    } else {
        1 + first_index(s.drop_first(), c)
    }
}

/// `first_index` is the position of the first occurrence.
pub proof fn lemma_first_index(s: Seq<char>, c: char, m: int)
    requires
        0 <= m <= s.len(),
        forall|k: int| 0 <= k < m ==> s[k] != c,
        m == s.len() || s[m] == c,
    ensures
        first_index(s, c) == m,
    decreases s.len(),
{
    if s.len() > 0 && s[0] != c {
        lemma_first_index(s.drop_first(), c, m - 1);
    }
}

/// `first_index` lies within `0..=s.len()`.
pub proof fn lemma_first_index_bounds(s: Seq<char>, c: char)
    ensures
        0 <= first_index(s, c) <= s.len(),
        first_index(s, c) < s.len() ==> s[first_index(s, c)] == c,
        forall|k: int| 0 <= k < first_index(s, c) ==> s[k] != c,
    decreases s.len(),
{
    if s.len() > 0 && s[0] != c {
        lemma_first_index_bounds(s.drop_first(), c);
        assert forall|k: int| 0 <= k < first_index(s, c) implies s[k] != c by {
            if k > 0 {
                assert(s[k] == s.drop_first()[k - 1]);
            }
        }
    }
}

/// The first position `>= from` in `v` that holds `c`, or `v.len()`.
pub fn find_char(v: &Vec<char>, from: usize, c: char) -> (r: usize)
    requires
        from <= v.len(),
    ensures
        from <= r <= v.len(),
        r == from + first_index(v@.skip(from as int), c),
        r < v.len() ==> v@[r as int] == c,
        forall|k: int| from <= k < r ==> v@[k] != c,
{
    let mut j = from;
    while j < v.len() && v[j] != c
        invariant
            from <= j <= v.len(),
            forall|k: int| from <= k < j ==> v@[k] != c,
        decreases v.len() - j,
    {
        j = j + 1;
    }
    proof {
        lemma_first_index(v@.skip(from as int), c, j - from);
    }
    j
}

/// The end of `v[lo..hi]` once its trailing whitespace is dropped.
pub fn trim_end_at(v: &Vec<char>, lo: usize, hi: usize) -> (r: usize)
    requires
        lo <= hi <= v.len(),
    ensures
        lo <= r <= hi,
        v@.subrange(lo as int, r as int) == trim_end(v@.subrange(lo as int, hi as int)),
{
    let mut j = hi;
    while j > lo && is_white_char(v[j - 1])
        invariant
            lo <= j <= hi <= v.len(),
            trim_end(v@.subrange(lo as int, j as int)) == trim_end(
                v@.subrange(lo as int, hi as int),
            ),
        decreases j,
    {
        assert(v@.subrange(lo as int, j as int).drop_last() =~= v@.subrange(lo as int, j - 1));
        j = j - 1;
    }
    j
}

/// The start of `v[lo..hi]` once its leading whitespace is dropped.
pub fn trim_start_at(v: &Vec<char>, lo: usize, hi: usize) -> (r: usize)
    requires
        lo <= hi <= v.len(),
    ensures
        lo <= r <= hi,
        v@.subrange(r as int, hi as int) == trim_start(v@.subrange(lo as int, hi as int)),
{
    let mut j = lo;
    while j < hi && is_white_char(v[j])
        invariant
            lo <= j <= hi <= v.len(),
            trim_start(v@.subrange(j as int, hi as int)) == trim_start(
                v@.subrange(lo as int, hi as int),
            ),
        decreases hi - j,
    {
        assert(v@.subrange(j as int, hi as int).drop_first() =~= v@.subrange(j + 1, hi as int));
        j = j + 1;
    }
    j
}

/// The characters of `s`, in order.
pub fn chars_of(s: &str) -> (v: Vec<char>)
    ensures
        v@ == s@,
{
    let mut v: Vec<char> = Vec::new();
    for c in it: s.chars()
        invariant
            v@ == it.seq().take(it.index()),
    {
        v.push(c);
    }
    v
}

/// Appends the characters of `s` to `out`.
pub fn push_str(out: &mut Vec<char>, s: &str)
    ensures
        final(out)@ == old(out)@ + s@,
{
    let ghost start = out@;
    for c in it: s.chars()
        invariant
            out@ == start + it.seq().take(it.index()),
    {
        out.push(c);
    }
}

/// Appends `v[lo..hi]` to `out`.
pub fn push_range(out: &mut Vec<char>, v: &Vec<char>, lo: usize, hi: usize)
    requires
        lo <= hi <= v.len(),
    ensures
        final(out)@ == old(out)@ + v@.subrange(lo as int, hi as int),
{
    let ghost start = out@;
    let mut k = lo;
    while k < hi
        invariant
            lo <= k <= hi <= v.len(),
            out@ == start + v@.subrange(lo as int, k as int),
        decreases hi - k,
    {
        out.push(v[k]);
        k = k + 1;
        assert(out@ =~= start + v@.subrange(lo as int, k as int));
    }
}

/// Appends `c` to `s` (`String::push`).
#[verifier::external_body]
fn push_char(s: &mut String, c: char)
    ensures
        final(s)@ == old(s)@.push(c),
{
    s.push(c)
}

/// The `String` made of the characters of `v`, in order.
pub fn string_of(v: &Vec<char>) -> (s: String)
    ensures
        s@ == v@,
{
    let mut s = String::new();
    let mut k: usize = 0;
    while k < v.len()
        invariant
            k <= v.len(),
            s@ == v@.take(k as int),
        decreases v.len() - k,
    {
        push_char(&mut s, v[k]);
        k = k + 1;
        assert(s@ =~= v@.take(k as int));
    }
    assert(v@.take(k as int) =~= v@);
    s
}

} // verus!
verus! {

/// The first position of `v` that does not hold `c`.
pub fn strip_leading_at(v: &Vec<char>, c: char) -> (r: usize)
    ensures
        r <= v.len(),
        v@.skip(r as int) == strip_leading(v@, c),
{
    let mut j: usize = 0;
    assert(v@.skip(0) =~= v@);
    while j < v.len() && v[j] == c
        invariant
            j <= v.len(),
            strip_leading(v@.skip(j as int), c) == strip_leading(v@, c),
        decreases v.len() - j,
    {
        assert(v@.skip(j as int).drop_first() =~= v@.skip(j + 1));
        j = j + 1;
    }
    j
}

/// The end of `v[lo..]` once its trailing copies of `c` are dropped.
pub fn strip_trailing_at(v: &Vec<char>, lo: usize, c: char) -> (r: usize)
    requires
        lo <= v.len(),
    ensures
        lo <= r <= v.len(),
        v@.subrange(lo as int, r as int) == strip_trailing(v@.skip(lo as int), c),
{
    let mut j = v.len();
    assert(v@.subrange(lo as int, j as int) =~= v@.skip(lo as int));
    while j > lo && v[j - 1] == c
        invariant
            lo <= j <= v.len(),
            strip_trailing(v@.subrange(lo as int, j as int), c) == strip_trailing(
                v@.skip(lo as int),
                c,
            ),
        decreases j,
    {
        assert(v@.subrange(lo as int, j as int).drop_last() =~= v@.subrange(lo as int, j - 1));
        j = j - 1;
    }
    j
}

} // verus!
verus! {

/// A name for what `str::to_lowercase` returns: the Unicode lowercase
/// form of the text (a final sigma is lowered by its context).
pub uninterp spec fn lowercase(s: Seq<char>) -> Seq<char>;

/// Lowercases `v[lo..hi]` with `str::to_lowercase`; the result is the named
/// `lowercase` of those characters and nothing more is claimed of it.
#[verifier::external_body]
pub(crate) fn to_lowercase(v: &Vec<char>, lo: usize, hi: usize) -> (r: Vec<char>)
    requires
        lo <= hi <= v.len(),
    ensures
        r@ == lowercase(v@.subrange(lo as int, hi as int)),
{
    let s: String = v[lo..hi].iter().collect();
    s.to_lowercase().chars().collect()
}

/// `n` copies of `s`, one after the other (`str::repeat`).
pub open spec fn repeat(s: Seq<char>, n: nat) -> Seq<char>
    decreases n,
{
    if n == 0 {
        seq![]
    } else {
        repeat(s, (n - 1) as nat) + s
    }
}

/// Whether `c` is an ASCII letter or digit (`char::is_ascii_alphanumeric`).
pub open spec fn is_ascii_alnum(c: char) -> bool {
    ('0' as u32 <= c as u32 <= '9' as u32) || ('a' as u32 <= c as u32 <= 'z' as u32)
        || ('A' as u32 <= c as u32 <= 'Z' as u32)
}

/// The longest prefix of `s` made of ASCII letters and digits.
pub open spec fn alnum_prefix(s: Seq<char>) -> Seq<char>
    decreases s.len(),
{
    if s.len() > 0 && is_ascii_alnum(s[0]) {
        seq![s[0]] + alnum_prefix(s.drop_first())
    } else {
        seq![]
    }
}

/// The first position at or after `k` where `pat` occurs in `s`, or -1.
pub open spec fn find_from(s: Seq<char>, pat: Seq<char>, k: int) -> int
    decreases s.len() + 1 - k,
{
    if k < 0 || k + pat.len() > s.len() {
        -1
    } else if s.subrange(k, k + pat.len()) == pat {
        k
    } else {
        find_from(s, pat, k + 1)
    }
}

/// The first position where `pat` occurs in `s`, or -1 (`str::find`).
pub open spec fn find_seq(s: Seq<char>, pat: Seq<char>) -> int {
    find_from(s, pat, 0)
}

/// `s` with every occurrence of `pat`, taken from left to right without
/// overlap, replaced by `rep` (`str::replace`).
pub open spec fn replace_all(s: Seq<char>, pat: Seq<char>, rep: Seq<char>) -> Seq<char>
    recommends
        pat.len() > 0,
    decreases s.len(),
{
    if pat.len() == 0 || s.len() < pat.len() {
        s
    } else if s.take(pat.len() as int) == pat {
        rep + replace_all(s.skip(pat.len() as int), pat, rep)
    } else {
        seq![s[0]] + replace_all(s.skip(1), pat, rep)
    }
}

/// Whether `c` is an ASCII letter or digit.
pub fn is_ascii_alnum_char(c: char) -> (b: bool)
    ensures
        b == is_ascii_alnum(c),
{
    let u = c as u32;
    (0x30 <= u && u <= 0x39) || (0x61 <= u && u <= 0x7a) || (0x41 <= u && u <= 0x5a)
}

/// Whether `v[lo..hi]` holds exactly the characters of `lit`.
pub fn range_is(v: &Vec<char>, lo: usize, hi: usize, lit: &str) -> (b: bool)
    requires
        lo <= hi <= v.len(),
    ensures
        b == (v@.subrange(lo as int, hi as int) == lit@),
{
    let l = chars_of(lit);
    if hi - lo != l.len() {
        return false;
    }
    let mut k: usize = 0;
    while k < l.len()
        invariant
            lo <= hi <= v.len(),
            hi - lo == l.len(),
            l@ == lit@,
            k <= l.len(),
            forall|j: int| 0 <= j < k ==> v@[lo + j] == l@[j],
        decreases l.len() - k,
    {
        if v[lo + k] != l[k] {
            assert(v@.subrange(lo as int, hi as int)[k as int] != lit@[k as int]);
            return false;
        }
        k = k + 1;
    }
    assert(v@.subrange(lo as int, hi as int) =~= lit@);
    true
}

/// Appends `n` copies of `s` to `out`.
pub fn push_repeat(out: &mut Vec<char>, s: &str, n: usize)
    ensures
        final(out)@ == old(out)@ + repeat(s@, n as nat),
{
    let ghost start = out@;
    let mut k: usize = 0;
    while k < n
        invariant
            k <= n,
            out@ == start + repeat(s@, k as nat),
        decreases n - k,
    {
        push_str(out, s);
        k = k + 1;
        assert(out@ =~= start + repeat(s@, k as nat));
    }
}

/// The first position of `pat` in `v[..]`, or `None` (`str::find`).
pub fn find_range(v: &Vec<char>, pat: &str) -> (r: Option<usize>)
    ensures
        match r {
            Some(p) => p == find_seq(v@, pat@) && p >= 0 && p + pat@.len() <= v.len(),
            None => find_seq(v@, pat@) == -1,
        },
{
    let l = chars_of(pat);
    proof {
        lemma_find_from(v@, pat@, 0);
    }
    if l.len() == 0 {
        assert(v@.subrange(0, 0) =~= pat@);
        return Some(0);
    }
    let mut k: usize = 0;
    while k <= v.len() && v.len() - k >= l.len()
        invariant
            l@ == pat@,
            l.len() > 0,
            find_from(v@, pat@, k as int) == find_seq(v@, pat@),
        decreases v.len() + 1 - k,
    {
        if range_is(v, k, k + l.len(), pat) {
            return Some(k);
        }
        k = k + 1;
    }
    None
}

} // verus!
verus! {

/// Where `alnum_prefix` of `v[from..]` ends.
pub fn alnum_end(v: &Vec<char>, from: usize) -> (e: usize)
    requires
        from <= v.len(),
    ensures
        from <= e <= v.len(),
        v@.subrange(from as int, e as int) == alnum_prefix(v@.skip(from as int)),
{
    let mut j = from;
    assert(v@.subrange(from as int, from as int) + alnum_prefix(v@.skip(from as int)) =~= alnum_prefix(v@.skip(from as int)));
    while j < v.len() && is_ascii_alnum_char(v[j])
        invariant
            from <= j <= v.len(),
            v@.subrange(from as int, j as int) + alnum_prefix(v@.skip(j as int)) == alnum_prefix(
                v@.skip(from as int),
            ),
        decreases v.len() - j,
    {
        assert(v@.skip(j as int).drop_first() =~= v@.skip(j + 1));
        assert(v@.subrange(from as int, j + 1) =~= v@.subrange(from as int, j as int) + seq![v@[j as int]]);
        j = j + 1;
    }
    assert(v@.subrange(from as int, j as int) + alnum_prefix(v@.skip(j as int)) =~= v@.subrange(from as int, j as int));
    j
}

/// A match that `find_from` reports lies inside `s` and holds `pat`.
pub proof fn lemma_find_from(s: Seq<char>, pat: Seq<char>, k: int)
    ensures
        find_from(s, pat, k) >= 0 ==> k <= find_from(s, pat, k) && find_from(s, pat, k) + pat.len()
            <= s.len() && s.subrange(find_from(s, pat, k), find_from(s, pat, k) + pat.len()) == pat,
    decreases s.len() + 1 - k,
{
    if k < 0 || k + pat.len() > s.len() {
    } else if s.subrange(k, k + pat.len()) == pat {
    } else {
        lemma_find_from(s, pat, k + 1);
    }
}

} // verus!
verus! {

/// `v` with every occurrence of `pat` replaced by `rep` (`str::replace`).
pub fn replace_chars(v: &Vec<char>, pat: &str, rep: &str) -> (r: Vec<char>)
    requires
        pat@.len() > 0,
    ensures
        r@ == replace_all(v@, pat@, rep@),
{
    let l = chars_of(pat);
    let mut out: Vec<char> = Vec::new();
    let mut k: usize = 0;
    assert(v@.skip(0) =~= v@);
    assert(out@ + replace_all(v@, pat@, rep@) =~= replace_all(v@, pat@, rep@));
    while k < v.len()
        invariant
            l@ == pat@,
            l.len() > 0,
            k <= v.len(),
            out@ + replace_all(v@.skip(k as int), pat@, rep@) == replace_all(v@, pat@, rep@),
        decreases v.len() - k,
    {
        let ghost s = v@.skip(k as int);
        if v.len() - k >= l.len() && range_is(v, k, k + l.len(), pat) {
            assert(s.take(l.len() as int) =~= v@.subrange(k as int, k + l.len()));
            assert(s.skip(l.len() as int) =~= v@.skip(k + l.len()));
            let ghost before = out@;
            push_str(&mut out, rep);
            assert(out@ + replace_all(v@.skip(k + l.len()), pat@, rep@) =~= before + replace_all(s, pat@, rep@));
            k = k + l.len();
        } else {
            if v.len() - k >= l.len() {
                assert(s.take(l.len() as int) =~= v@.subrange(k as int, k + l.len()));
            }
            assert(s.skip(1) =~= v@.skip(k + 1));
            let ghost before = out@;
            out.push(v[k]);
            assert(out@ + replace_all(v@.skip(k + 1), pat@, rep@) =~= before + replace_all(s, pat@, rep@));
            k = k + 1;
        }
    }
    assert(v@.skip(k as int) =~= Seq::<char>::empty());
    assert(out@ + replace_all(v@.skip(k as int), pat@, rep@) =~= out@);
    out
}

} // verus!
verus! {

/// The characters of `b[lo..hi]` if those bytes are valid UTF-8
/// (wraps `std::str::from_utf8`, which succeeds exactly on valid UTF-8).
pub(crate) fn utf8_chars(b: &[u8], lo: usize, hi: usize) -> (r: Option<Vec<char>>)
    requires
        lo <= hi <= b@.len(),
    ensures
        r is Some <==> vstd::utf8::valid_utf8(b@.subrange(lo as int, hi as int)),
        r matches Some(v) ==> v@ == vstd::utf8::decode_utf8(b@.subrange(lo as int, hi as int)),
{
    match utf8_str(b, lo, hi) {
        Some(s) => Some(chars_of(s)),
        None => None,
    }
}

/// `std::str::from_utf8` on `b[lo..hi]`: a string exactly when the bytes are
/// valid UTF-8, and then the string they encode.
#[verifier::external_body]
fn utf8_str(b: &[u8], lo: usize, hi: usize) -> (r: Option<&str>)
    requires
        lo <= hi <= b@.len(),
    ensures
        r is Some <==> vstd::utf8::valid_utf8(b@.subrange(lo as int, hi as int)),
        r matches Some(s) ==> s@ == vstd::utf8::decode_utf8(b@.subrange(lo as int, hi as int)),
{
    std::str::from_utf8(&b[lo..hi]).ok()
}

/// A name for what `String::from_utf8_lossy` returns: the text of `b` with
/// each invalid UTF-8 sequence replaced by U+FFFD.
pub uninterp spec fn utf8_lossy(b: Seq<u8>) -> Seq<char>;

/// `String::from_utf8_lossy` on `b[lo..hi]`. Besides the name, the one
/// claim is the documented one: valid UTF-8 comes back unchanged.
#[verifier::external_body]
pub(crate) fn lossy_chars(b: &[u8], lo: usize, hi: usize) -> (r: Vec<char>)
    requires
        lo <= hi <= b@.len(),
    ensures
        r@ == utf8_lossy(b@.subrange(lo as int, hi as int)),
        vstd::utf8::valid_utf8(b@.subrange(lo as int, hi as int)) ==> r@
            == vstd::utf8::decode_utf8(b@.subrange(lo as int, hi as int)),
{
    String::from_utf8_lossy(&b[lo..hi]).chars().collect()
}

/// `s` contains `pat`.
pub open spec fn contains(s: Seq<char>, pat: Seq<char>) -> bool {
    find_seq(s, pat) >= 0
}

/// `s` starts with `pat`.
pub open spec fn starts_with(s: Seq<char>, pat: Seq<char>) -> bool {
    pat.len() <= s.len() && s.take(pat.len() as int) == pat
}

/// Whether `v[lo..]` starts with `lit`.
pub fn starts_with_at(v: &Vec<char>, lo: usize, lit: &str) -> (b: bool)
    requires
        lo <= v.len(),
    ensures
        b == starts_with(v@.skip(lo as int), lit@),
{
    let l = chars_of(lit);
    if v.len() - lo < l.len() {
        return false;
    }
    let r = range_is(v, lo, lo + l.len(), lit);
    assert(v@.skip(lo as int).take(l.len() as int) =~= v@.subrange(lo as int, lo + l.len()));
    r
}

/// Whether `v` contains `lit`.
pub fn contains_str(v: &Vec<char>, lit: &str) -> (b: bool)
    ensures
        b == contains(v@, lit@),
{
    find_range(v, lit).is_some()
}

} // verus!
verus! {

/// The index of the last `c` in `s`, or -1 when there is none.
pub open spec fn last_index(s: Seq<char>, c: char) -> int
    decreases s.len(),
{
    if s.len() == 0 {
        -1
    } else if s.last() == c {
        s.len() - 1
    } else {
        last_index(s.drop_last(), c)
    }
}

/// `c` with an ASCII capital letter made small (`char::to_ascii_lowercase`).
pub open spec fn ascii_lower(c: char) -> char {
    if 'A' as u32 <= c as u32 <= 'Z' as u32 {
        ((c as u32 + 32) as u8) as char
    } else {
        c
    }
}

/// `s` with its ASCII capital letters made small (`str::to_ascii_lowercase`).
pub open spec fn ascii_lowercase(s: Seq<char>) -> Seq<char> {
    s.map_values(|c: char| ascii_lower(c))
}

/// The position of the last `c` in `v`, or `None`.
pub fn find_last(v: &Vec<char>, c: char) -> (r: Option<usize>)
    ensures
        match r {
            Some(k) => k == last_index(v@, c) && k < v.len(),
            None => last_index(v@, c) == -1,
        },
{
    let mut j = v.len();
    assert(v@.take(j as int) =~= v@);
    while j > 0
        invariant
            j <= v.len(),
            last_index(v@.take(j as int), c) == last_index(v@, c),
        decreases j,
    {
        assert(v@.take(j as int).drop_last() =~= v@.take(j - 1));
        if v[j - 1] == c {
            return Some(j - 1);
        }
        j = j - 1;
    }
    None
}

/// `v[lo..]` with its ASCII capital letters made small.
pub fn ascii_lowercase_from(v: &Vec<char>, lo: usize) -> (r: Vec<char>)
    requires
        lo <= v.len(),
    ensures
        r@ == ascii_lowercase(v@.skip(lo as int)),
{
    let mut r: Vec<char> = Vec::new();
    let mut k = lo;
    while k < v.len()
        invariant
            lo <= k <= v.len(),
            r@ == ascii_lowercase(v@.subrange(lo as int, k as int)),
        decreases v.len() - k,
    {
        let c = v[k];
        let u = c as u32;
        let d = if 0x41 <= u && u <= 0x5a {
            ((u + 32) as u8) as char
        } else {
            c
        };
        r.push(d);
        k = k + 1;
        assert(r@ =~= ascii_lowercase(v@.subrange(lo as int, k as int)));
    }
    assert(v@.subrange(lo as int, k as int) =~= v@.skip(lo as int));
    r
}

} // verus!
verus! {

/// Whether `v` holds exactly the characters of `lit`.
pub fn equals_str(v: &Vec<char>, lit: &str) -> (b: bool)
    ensures
        b == (v@ == lit@),
{
    assert(v@.subrange(0, v.len() as int) =~= v@);
    range_is(v, 0, v.len(), lit)
}

} // verus!
verus! {

/// The first position of `pat` in `v[from..]`, counted from `from`, or `None`.
pub fn find_range_from(v: &Vec<char>, from: usize, pat: &str) -> (r: Option<usize>)
    requires
        from <= v.len(),
    ensures
        match r {
            Some(p) => p == find_seq(v@.skip(from as int), pat@) && p >= 0 && from + p
                + pat@.len() <= v.len(),
            None => find_seq(v@.skip(from as int), pat@) == -1,
        },
{
    let ghost s = v@.skip(from as int);
    let l = chars_of(pat);
    proof {
        lemma_find_from(s, pat@, 0);
    }
    if l.len() == 0 {
        assert(s.subrange(0, 0) =~= pat@);
        return Some(0);
    }
    let mut k: usize = from;
    while k <= v.len() && v.len() - k >= l.len()
        invariant
            l@ == pat@,
            l.len() > 0,
            from <= k,
            s == v@.skip(from as int),
            find_from(s, pat@, k - from) == find_seq(s, pat@),
        decreases v.len() + 1 - k,
    {
        assert(s.subrange(k - from, k - from + l.len()) =~= v@.subrange(k as int, k + l.len()));
        if range_is(v, k, k + l.len(), pat) {
            return Some(k - from);
        }
        k = k + 1;
    }
    None
}

/// The pieces of `s` between the occurrences of `pat`, as `str::split`
/// yields them (an empty `s` gives one empty piece).
pub open spec fn split_pieces(s: Seq<char>, pat: Seq<char>) -> Seq<Seq<char>>
    decreases s.len(),
{
    let p = find_seq(s, pat);
    proof {
        lemma_find_from(s, pat, 0);
    }
    if p < 0 || pat.len() == 0 {
        seq![s]
    } else {
        seq![s.take(p)] + split_pieces(s.skip(p + pat.len()), pat)
    }
}

} // verus!
verus! {

/// The pieces of `s` one after the other.
pub open spec fn concat_all(s: Seq<Seq<char>>) -> Seq<char>
    decreases s.len(),
{
    if s.len() == 0 {
        seq![]
    } else {
        concat_all(s.drop_last()) + s.last()
    }
}

} // verus!
