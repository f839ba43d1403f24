//! Text helpers on sequences of characters: whitespace trimming, splitting
//! on a separator, lines, and joining.

use vstd::prelude::*;

verus! {

/// `c` has the Unicode `White_Space` property.
pub open spec fn is_white_space(c: char) -> bool {
    ||| ('\u{9}' <= c && c <= '\u{d}')
    ||| c == ' '
    ||| c == '\u{85}'
    ||| c == '\u{a0}'
    ||| c == '\u{1680}'
    ||| ('\u{2000}' <= c && c <= '\u{200a}')
    ||| c == '\u{2028}'
    ||| c == '\u{2029}'
    ||| c == '\u{202f}'
    ||| c == '\u{205f}'
    ||| c == '\u{3000}'
}

/// Returns whether `c` has the Unicode `White_Space` property, the property
/// that `char::is_whitespace` tests.
pub fn is_white_space_char(c: char) -> (b: bool)
    ensures
        b == is_white_space(c),
{
    ('\u{9}' <= c && c <= '\u{d}') || c == ' ' || c == '\u{85}' || c == '\u{a0}' || c == '\u{1680}'
        || ('\u{2000}' <= c && c <= '\u{200a}') || c == '\u{2028}' || c == '\u{2029}' || c
        == '\u{202f}' || c == '\u{205f}' || c == '\u{3000}'
}

/// `s` without its leading white space.
pub open spec fn trim_start(s: Seq<char>) -> Seq<char>
    decreases s.len(),
{
    if s.len() > 0 && is_white_space(s[0]) {
        trim_start(s.drop_first())
    } else {
        s
    }
}

/// `s` without its trailing white space.
pub open spec fn trim_end(s: Seq<char>) -> Seq<char>
    decreases s.len(),
{
    if s.len() > 0 && is_white_space(s.last()) {
        trim_end(s.drop_last())
    } else {
        s
    }
}

/// `s` without leading and trailing white space, as `str::trim` gives it.
pub open spec fn trim(s: Seq<char>) -> Seq<char> {
    trim_end(trim_start(s))
}

proof fn lemma_trim_start_skip(s: Seq<char>, i: int)
    requires
        0 <= i <= s.len(),
        forall|k: int| 0 <= k < i ==> is_white_space(#[trigger] s[k]),
    ensures
        trim_start(s) == trim_start(s.skip(i)),
    decreases i,
{
    if i > 0 {
        assert(s.skip(1).skip(i - 1) =~= s.skip(i));
        assert forall|k: int| 0 <= k < i - 1 implies is_white_space(#[trigger] s.skip(1)[k]) by {
            assert(s.skip(1)[k] == s[k + 1]);
        }
        lemma_trim_start_skip(s.skip(1), i - 1);
        assert(s.drop_first() =~= s.skip(1));
    } else {
        assert(s.skip(0) =~= s);
    }
}

proof fn lemma_trim_end_take(s: Seq<char>, j: int)
    requires
        0 <= j <= s.len(),
        forall|k: int| j <= k < s.len() ==> is_white_space(#[trigger] s[k]),
    ensures
        trim_end(s) == trim_end(s.take(j)),
    decreases s.len() - j,
{
    if j < s.len() {
        assert(s.drop_last().take(j) =~= s.take(j));
        lemma_trim_end_take(s.drop_last(), j);
    } else {
        assert(s.take(j) =~= s);
    }
}

proof fn lemma_trim_start_shape(s: Seq<char>)
    ensures
        trim_start(s).len() == 0 || !is_white_space(trim_start(s)[0]),
    decreases s.len(),
{
    if s.len() > 0 && is_white_space(s[0]) {
        lemma_trim_start_shape(s.drop_first());
    }
}

proof fn lemma_trim_end_shape(s: Seq<char>)
    ensures
        trim_end(s).len() <= s.len(),
        trim_end(s) == s.take(trim_end(s).len() as int),
        trim_end(s).len() == 0 || !is_white_space(trim_end(s).last()),
    decreases s.len(),
{
    if s.len() > 0 && is_white_space(s.last()) {
        lemma_trim_end_shape(s.drop_last());
        assert(s.drop_last().take(trim_end(s).len() as int) =~= s.take(trim_end(s).len() as int));
    } else {
        assert(s.take(s.len() as int) =~= s);
    }
}

/// Trimming twice is trimming once.
pub proof fn lemma_trim_idempotent(s: Seq<char>)
    ensures
        trim(trim(s)) == trim(s),
{
    let u = trim_start(s);
    let v = trim_end(u);
    lemma_trim_start_shape(s);
    lemma_trim_end_shape(u);
    if v.len() > 0 {
        assert(v[0] == u[0]);
    }
    assert(trim_start(v) == v);
    assert(trim_end(v) == v);
}

/// Returns `s` without leading and trailing white space.
pub fn trim_chars(s: &[char]) -> (t: Vec<char>)
    ensures
        t@ == trim(s@),
{
    let n = s.len();
    let mut i: usize = 0;
    while i < n && is_white_space_char(s[i])
        invariant
            0 <= i <= n == s@.len(),
            forall|k: int| 0 <= k < i ==> is_white_space(#[trigger] s@[k]),
        decreases n - i,
    {
        i = i + 1;
    }
    proof {
        lemma_trim_start_skip(s@, i as int);
    }
    let mut j: usize = n;
    while j > i && is_white_space_char(s[j - 1])
        invariant
            i <= j <= n == s@.len(),
            forall|k: int| j <= k < n ==> is_white_space(#[trigger] s@[k]),
        decreases j,
    {
        j = j - 1;
    }
    let ghost rest = s@.skip(i as int);
    proof {
        if i < n {
            assert(!is_white_space(rest[0]));
        }
        assert(trim_start(rest) == rest);
        assert forall|k: int| j - i <= k < rest.len() implies is_white_space(#[trigger] rest[k]) by {
            assert(rest[k] == s@[k + i]);
        }
        lemma_trim_end_take(rest, j - i);
        assert(rest.take(j - i) =~= s@.subrange(i as int, j as int));
        let r = rest.take(j - i);
        if j > i {
            assert(!is_white_space(r.last()));
        }
        assert(trim_end(r) == r);
    }
    let mut t: Vec<char> = Vec::new();
    let mut k: usize = i;
    while k < j
        invariant
            i <= k <= j <= n == s@.len(),
            t@ =~= s@.subrange(i as int, k as int),
        decreases j - k,
    {
        t.push(s[k]);
        k = k + 1;
    }
    t
}


/// The characters of `s`, in order.
pub(crate) fn chars_of(s: &str) -> (v: Vec<char>)
    ensures
        v@ == s@,
{
    let mut v: Vec<char> = Vec::new();
    for c in it: s.chars()
        invariant
            v@ == it.seq().take(it.index() as int),
            it.seq() == s@,
    {
        v.push(c);
    }
    v
}

/// Collects characters into a `String`, as `String: FromIterator<char>` does.
#[verifier::external_body]
pub(crate) fn string_from_chars(v: &[char]) -> (s: String)
    ensures
        s@ == v@,
{
    v.iter().collect::<String>()
}


/// `sep` occurs in `s` at index `k`.
pub open spec fn occurs_at(s: Seq<char>, sep: Seq<char>, k: int) -> bool {
    &&& 0 <= k
    &&& k + sep.len() <= s.len()
    &&& s.subrange(k, k + sep.len()) == sep
}

/// The pieces of `s` from `start` on, scanning for `sep` from index `i`,
/// where no occurrence begins in `start..i`.
pub open spec fn split_from(s: Seq<char>, sep: Seq<char>, start: int, i: int) -> Seq<Seq<char>>
    decreases s.len() - i,
{
    if sep.len() == 0 || i + sep.len() > s.len() {
        seq![s.subrange(start, s.len() as int)]
    } else if occurs_at(s, sep, i) {
        seq![s.subrange(start, i)] + split_from(s, sep, i + sep.len(), i + sep.len())
    } else {
        split_from(s, sep, start, i + 1)
    }
}

/// The pieces of `s` between the occurrences of `sep`, found from left to
/// right without overlap, as `str::split` with a string pattern gives them.
pub open spec fn split_on(s: Seq<char>, sep: Seq<char>) -> Seq<Seq<char>> {
    split_from(s, sep, 0, 0)
}

/// The views of a sequence of character vectors.
pub open spec fn views_of(v: Seq<Vec<char>>) -> Seq<Seq<char>> {
    v.map_values(|p: Vec<char>| p@)
}

proof fn lemma_split_from_shift(p: Seq<char>, b: Seq<char>, sep: Seq<char>, st: int, j: int)
    requires
        0 <= st <= j <= b.len(),
    ensures
        split_from(p + b, sep, p.len() + st, p.len() + j) == split_from(b, sep, st, j),
    decreases b.len() - j,
{
    let s = p + b;
    let n = p.len() as int;
    if sep.len() == 0 || j + sep.len() > b.len() {
        assert(s.subrange(n + st, s.len() as int) =~= b.subrange(st, b.len() as int));
    } else {
        assert(s.subrange(n + j, n + j + sep.len()) =~= b.subrange(j, j + sep.len()));
        if occurs_at(b, sep, j) {
            assert(s.subrange(n + st, n + j) =~= b.subrange(st, j));
            lemma_split_from_shift(p, b, sep, j + sep.len(), j + sep.len());
        } else {
            lemma_split_from_shift(p, b, sep, st, j + 1);
        }
    }
}

proof fn lemma_split_from_boundary(a: Seq<char>, b: Seq<char>, sep: Seq<char>, c: char, start: int, j: int)
    requires
        sep.len() > 0,
        forall|k: int| 0 <= k < sep.len() ==> sep[k] == c,
        a.len() == 0 || a.last() != c,
        0 <= start <= j <= a.len(),
        j + sep.len() > a.len(),
    ensures
        split_from(a + sep + b, sep, start, j) == seq![a.subrange(start, a.len() as int)]
            + split_on(b, sep),
    decreases a.len() - j,
{
    let s = a + sep + b;
    let n = a.len() as int;
    if j == n {
        assert(s.subrange(n as int, n + sep.len()) =~= sep);
        assert(s.subrange(start, n as int) =~= a.subrange(start, n as int));
        lemma_split_from_shift(a + sep, b, sep, 0, 0);
        assert((a + sep).len() == n + sep.len());
    } else {
        let k = n - 1 - j;
        assert(s.subrange(j, j + sep.len())[k] == s[n - 1]);
        assert(s[n - 1] == a.last());
        assert(sep[k] == c);
        assert(!occurs_at(s, sep, j));
        lemma_split_from_boundary(a, b, sep, c, start, j + 1);
    }
}

proof fn lemma_split_from_concat(a: Seq<char>, b: Seq<char>, sep: Seq<char>, c: char, start: int, i: int)
    requires
        sep.len() > 0,
        forall|k: int| 0 <= k < sep.len() ==> sep[k] == c,
        a.len() == 0 || a.last() != c,
        0 <= start <= i <= a.len(),
    ensures
        split_from(a + sep + b, sep, start, i) == split_from(a, sep, start, i) + split_on(b, sep),
    decreases a.len() - i,
{
    let s = a + sep + b;
    if i + sep.len() > a.len() {
        lemma_split_from_boundary(a, b, sep, c, start, i);
    } else {
        assert(s.subrange(i, i + sep.len()) =~= a.subrange(i, i + sep.len()));
        if occurs_at(a, sep, i) {
            assert(s.subrange(start, i) =~= a.subrange(start, i));
            lemma_split_from_concat(a, b, sep, c, i + sep.len(), i + sep.len());
            assert(split_from(s, sep, start, i) =~= split_from(a, sep, start, i) + split_on(b, sep));
        } else {
            lemma_split_from_concat(a, b, sep, c, start, i + 1);
        }
    }
}

/// Splitting `a + sep + b` on `sep`, where `sep` repeats one character and
/// `a` does not end with it, gives the pieces of `a` followed by those of `b`.
pub proof fn lemma_split_on_concat(a: Seq<char>, b: Seq<char>, sep: Seq<char>, c: char)
    requires
        sep.len() > 0,
        forall|k: int| 0 <= k < sep.len() ==> sep[k] == c,
        a.len() == 0 || a.last() != c,
    ensures
        split_on(a + sep + b, sep) == split_on(a, sep) + split_on(b, sep),
{
    lemma_split_from_concat(a, b, sep, c, 0, 0);
}

proof fn lemma_split_from_no_sep(s: Seq<char>, c: char, start: int, i: int)
    requires
        0 <= start <= i <= s.len(),
        forall|k: int| 0 <= k < s.len() ==> #[trigger] s[k] != c,
    ensures
        split_from(s, seq![c], start, i) == seq![s.subrange(start, s.len() as int)],
    decreases s.len() - i,
{
    if i + 1 <= s.len() {
        assert(s.subrange(i, i + 1)[0] == s[i]);
        assert(!occurs_at(s, seq![c], i));
        lemma_split_from_no_sep(s, c, start, i + 1);
    }
}

/// Splitting text on a character it does not hold gives the text itself.
pub proof fn lemma_split_on_absent(s: Seq<char>, c: char)
    requires
        forall|k: int| 0 <= k < s.len() ==> #[trigger] s[k] != c,
    ensures
        split_on(s, seq![c]) == seq![s],
{
    lemma_split_from_no_sep(s, c, 0, 0);
    assert(s.subrange(0, s.len() as int) =~= s);
}

proof fn lemma_split_from_nonempty(s: Seq<char>, sep: Seq<char>, start: int, i: int)
    ensures
        split_from(s, sep, start, i).len() >= 1,
    decreases s.len() - i,
{
    if !(sep.len() == 0 || i + sep.len() > s.len()) {
        if occurs_at(s, sep, i) {
            lemma_split_from_nonempty(s, sep, i + sep.len(), i + sep.len());
        } else {
            lemma_split_from_nonempty(s, sep, start, i + 1);
        }
    }
}

/// Splitting gives at least one piece.
pub proof fn lemma_split_on_nonempty(s: Seq<char>, sep: Seq<char>)
    ensures
        split_on(s, sep).len() >= 1,
{
    lemma_split_from_nonempty(s, sep, 0, 0);
}

/// Appends the characters of `s` to `v`.
pub fn append_chars(v: &mut Vec<char>, s: &[char])
    ensures
        final(v)@ == old(v)@ + s@,
{
    let ghost start = v@;
    let mut k: usize = 0;
    while k < s.len()
        invariant
            0 <= k <= s@.len(),
            v@ == start + s@.take(k as int),
        decreases s.len() - k,
    {
        v.push(s[k]);
        k = k + 1;
        proof {
            assert(s@.take(k as int) =~= s@.take(k - 1) + seq![s@[k - 1]]);
        }
    }
    assert(s@.take(s@.len() as int) =~= s@);
}

/// Appends the characters of `s` to `v`.
pub fn append_str(v: &mut Vec<char>, s: &str)
    ensures
        final(v)@ == old(v)@ + s@,
{
    let cs = chars_of(s);
    append_chars(v, &cs);
}

/// Returns whether `a` and `b` hold the same characters.
pub fn chars_equal(a: &[char], b: &[char]) -> (r: bool)
    ensures
        r == (a@ == b@),
{
    if a.len() != b.len() {
        return false;
    }
    let mut k: usize = 0;
    while k < a.len()
        invariant
            a@.len() == b@.len(),
            0 <= k <= a@.len(),
            forall|m: int| 0 <= m < k ==> a@[m] == b@[m],
        decreases a.len() - k,
    {
        if a[k] != b[k] {
            return false;
        }
        k = k + 1;
    }
    assert(a@ =~= b@);
    true
}

/// The sequences of `parts` one after another.
pub open spec fn concat_all<A>(parts: Seq<Seq<A>>) -> Seq<A>
    decreases parts.len(),
{
    if parts.len() == 0 {
        seq![]
    } else {
        concat_all(parts.drop_last()) + parts.last()
    }
}

/// The views of a sequence of strings.
pub open spec fn string_views(v: Seq<String>) -> Seq<Seq<char>> {
    v.map_values(|s: String| s@)
}

/// What `str::to_lowercase` returns for `s`.
pub uninterp spec fn lowercase(s: Seq<char>) -> Seq<char>;

/// `c` is an ASCII capital letter.
pub open spec fn is_ascii_upper(c: char) -> bool {
    'A' <= c && c <= 'Z'
}

/// Every character of `s` is ASCII.
pub open spec fn is_ascii_text(s: Seq<char>) -> bool {
    forall|i: int| 0 <= i < s.len() ==> (#[trigger] s[i] as u32) < 128
}

/// `c` with an ASCII capital letter made small.
pub open spec fn ascii_lower_char(c: char) -> char {
    if is_ascii_upper(c) {
        ((c as u32) + 32) as char
    } else {
        c
    }
}

/// `s` with its ASCII capital letters made small and every other character
/// kept.
pub open spec fn ascii_lowercase(s: Seq<char>) -> Seq<char> {
    s.map_values(|c: char| ascii_lower_char(c))
}

/// A character made small is no ASCII capital letter.
pub proof fn lemma_ascii_lower_char(c: char)
    ensures
        !is_ascii_upper(ascii_lower_char(c)),
        !is_ascii_upper(c) ==> ascii_lower_char(c) == c,
{
    if is_ascii_upper(c) {
        let n = (c as u32) + 32;
        assert(97 <= n <= 122);
        assert((n as char) as u32 == n);
    }
}

/// Calls `str::to_lowercase`. The contract claims that the result is the one
/// that `lowercase` names for `s`, and that for ASCII text it is the text
/// with its capital letters made small and every other character kept.
#[verifier::external_body]
pub(crate) fn to_lowercase(s: &str) -> (r: String)
    ensures
        r@ == lowercase(s@),
        is_ascii_text(s@) ==> r@ == ascii_lowercase(s@),
{
    s.to_lowercase()
}

/// `c` is an ASCII letter or digit.
pub open spec fn is_ascii_alphanumeric(c: char) -> bool {
    ||| ('0' <= c && c <= '9')
    ||| ('a' <= c && c <= 'z')
    ||| ('A' <= c && c <= 'Z')
}

/// `s` without the copies of `c` at its start.
pub open spec fn trim_char_start(s: Seq<char>, c: char) -> Seq<char>
    decreases s.len(),
{
    if s.len() > 0 && s[0] == c {
        trim_char_start(s.drop_first(), c)
    } else {
        s
    }
}

/// `s` without the copies of `c` at its end.
pub open spec fn trim_char_end(s: Seq<char>, c: char) -> Seq<char>
    decreases s.len(),
{
    if s.len() > 0 && s.last() == c {
        trim_char_end(s.drop_last(), c)
    } else {
        s
    }
}

/// `s` without the copies of `c` at either end, as `str::trim_matches`
/// with a character gives it.
pub open spec fn trim_char(s: Seq<char>, c: char) -> Seq<char> {
    trim_char_end(trim_char_start(s, c), c)
}

proof fn lemma_trim_char_start_skip(s: Seq<char>, c: char, i: int)
    requires
        0 <= i <= s.len(),
        forall|k: int| 0 <= k < i ==> #[trigger] s[k] == c,
    ensures
        trim_char_start(s, c) == trim_char_start(s.skip(i), c),
    decreases i,
{
    if i > 0 {
        assert(s.skip(1).skip(i - 1) =~= s.skip(i));
        assert forall|k: int| 0 <= k < i - 1 implies #[trigger] s.skip(1)[k] == c by {
            assert(s.skip(1)[k] == s[k + 1]);
        }
        lemma_trim_char_start_skip(s.skip(1), c, i - 1);
        assert(s.drop_first() =~= s.skip(1));
    } else {
        assert(s.skip(0) =~= s);
    }
}

proof fn lemma_trim_char_end_take(s: Seq<char>, c: char, j: int)
    requires
        0 <= j <= s.len(),
        forall|k: int| j <= k < s.len() ==> #[trigger] s[k] == c,
    ensures
        trim_char_end(s, c) == trim_char_end(s.take(j), c),
    decreases s.len() - j,
{
    if j < s.len() {
        assert(s.drop_last().take(j) =~= s.take(j));
        lemma_trim_char_end_take(s.drop_last(), c, j);
    } else {
        assert(s.take(j) =~= s);
    }
}

/// Returns `s` without the copies of `c` at either end.
pub fn trim_char_chars(s: &[char], c: char) -> (t: Vec<char>)
    ensures
        t@ == trim_char(s@, c),
{
    let n = s.len();
    let mut i: usize = 0;
    while i < n && s[i] == c
        invariant
            0 <= i <= n == s@.len(),
            forall|k: int| 0 <= k < i ==> #[trigger] s@[k] == c,
        decreases n - i,
    {
        i = i + 1;
    }
    proof {
        lemma_trim_char_start_skip(s@, c, i as int);
    }
    let mut j: usize = n;
    while j > i && s[j - 1] == c
        invariant
            i <= j <= n == s@.len(),
            forall|k: int| j <= k < n ==> #[trigger] s@[k] == c,
        decreases j,
    {
        j = j - 1;
    }
    let ghost rest = s@.skip(i as int);
    proof {
        if i < n {
            assert(rest[0] != c);
        }
        assert(trim_char_start(rest, c) == rest);
        assert forall|k: int| j - i <= k < rest.len() implies #[trigger] rest[k] == c by {
            assert(rest[k] == s@[k + i]);
        }
        lemma_trim_char_end_take(rest, c, j - i);
        assert(rest.take(j - i) =~= s@.subrange(i as int, j as int));
        let r = rest.take(j - i);
        if j > i {
            assert(r.last() != c);
        }
        assert(trim_char_end(r, c) == r);
    }
    slice_chars(s, i, j)
}

/// The view of an optional string.
pub open spec fn option_view(o: Option<String>) -> Option<Seq<char>> {
    match o {
        Some(s) => Some(s@),
        None => None,
    }
}

pub(crate) proof fn lemma_remove_duplicates_no_duplicates<A>(s: Seq<A>, seen: Seq<A>)
    requires
        seen.no_duplicates(),
    ensures
        s.remove_duplicates(seen).no_duplicates(),
    decreases s.len(),
{
    if s.len() > 0 {
        if seen.contains(s[0]) {
            lemma_remove_duplicates_no_duplicates(s.skip(1), seen);
        } else {
            let seen2 = seen + seq![s[0]];
            assert forall|a: int, b: int| 0 <= a < b < seen2.len() implies seen2[a] != seen2[b] by {
                if b == seen.len() {
                    assert(seen.contains(seen[a]));
                }
            }
            lemma_remove_duplicates_no_duplicates(s.skip(1), seen2);
        }
    }
}

pub(crate) proof fn lemma_remove_duplicates_unique<A>(s: Seq<A>, seen: Seq<A>)
    requires
        (seen + s).no_duplicates(),
    ensures
        s.remove_duplicates(seen) == seen + s,
    decreases s.len(),
{
    if s.len() == 0 {
        assert(seen + s =~= seen);
    } else {
        assert((seen + s)[seen.len() as int] == s[0]);
        if seen.contains(s[0]) {
            let m = choose|m: int| 0 <= m < seen.len() && seen[m] == s[0];
            assert((seen + s)[m] == s[0]);
        }
        assert(seen + seq![s[0]] + s.skip(1) =~= seen + s);
        lemma_remove_duplicates_unique(s.skip(1), seen + seq![s[0]]);
    }
}

/// Returns the characters of `s` in `from..to`.
pub fn slice_chars(s: &[char], from: usize, to: usize) -> (t: Vec<char>)
    requires
        from <= to <= s@.len(),
    ensures
        t@ == s@.subrange(from as int, to as int),
{
    let mut t: Vec<char> = Vec::new();
    let mut k: usize = from;
    while k < to
        invariant
            from <= k <= to <= s@.len(),
            t@ =~= s@.subrange(from as int, k as int),
        decreases to - k,
    {
        t.push(s[k]);
        k = k + 1;
    }
    t
}

/// Returns whether `sep` occurs in `s` at index `i`.
pub fn occurs_at_index(s: &[char], sep: &[char], i: usize) -> (b: bool)
    ensures
        b == occurs_at(s@, sep@, i as int),
{
    if i > s.len() || sep.len() > s.len() - i {
        return false;
    }
    let n = s.len();
    let mut k: usize = 0;
    while k < sep.len()
        invariant
            n == s@.len(),
            i + sep@.len() <= s@.len(),
            0 <= k <= sep@.len(),
            forall|m: int| 0 <= m < k ==> s@[i + m] == sep@[m],
        decreases sep.len() - k,
    {
        assert(i + k < s@.len());
        if s[i + k] != sep[k] {
            assert(s@.subrange(i as int, i + sep@.len())[k as int] != sep@[k as int]);
            return false;
        }
        k = k + 1;
    }
    assert(s@.subrange(i as int, i + sep@.len()) =~= sep@);
    true
}

/// Returns the pieces of `s` between the occurrences of `sep`.
pub fn split_chars(s: &[char], sep: &[char]) -> (pieces: Vec<Vec<char>>)
    requires
        sep@.len() > 0,
    ensures
        views_of(pieces@) == split_on(s@, sep@),
{
    let n = s.len();
    let mut pieces: Vec<Vec<char>> = Vec::new();
    let mut start: usize = 0;
    let mut i: usize = 0;
    while i <= n && sep.len() <= n - i
        invariant
            n == s@.len(),
            sep@.len() > 0,
            start <= i <= n,
            views_of(pieces@) + split_from(s@, sep@, start as int, i as int) == split_on(s@, sep@),
        decreases n - i,
    {
        let ghost before = views_of(pieces@);
        if occurs_at_index(s, sep, i) {
            let piece = slice_chars(s, start, i);
            pieces.push(piece);
            proof {
                assert(views_of(pieces@) =~= before + seq![s@.subrange(start as int, i as int)]);
            }
            i = i + sep.len();
            start = i;
        } else {
            i = i + 1;
        }
    }
    let last = slice_chars(s, start, n);
    let ghost before = views_of(pieces@);
    pieces.push(last);
    proof {
        assert(views_of(pieces@) =~= before + seq![s@.subrange(start as int, n as int)]);
    }
    pieces
}

/// `l` without one trailing carriage return.
pub open spec fn strip_cr(l: Seq<char>) -> Seq<char> {
    if l.len() > 0 && l.last() == '\r' {
        l.drop_last()
    } else {
        l
    }
}

/// The lines of `s` from `start` on, scanning for line feeds from index `i`.
pub open spec fn lines_from(s: Seq<char>, start: int, i: int) -> Seq<Seq<char>>
    decreases s.len() - i,
{
    if i >= s.len() {
        if start < s.len() {
            seq![s.subrange(start, s.len() as int)]
        } else {
            seq![]
        }
    } else if s[i] == '\n' {
        seq![strip_cr(s.subrange(start, i))] + lines_from(s, i + 1, i + 1)
    } else {
        lines_from(s, start, i + 1)
    }
}

/// The lines of `s`, as `str::lines` gives them: split at `\n`, a `\r`
/// right before the `\n` removed, and no empty line after a final `\n`.
pub open spec fn lines(s: Seq<char>) -> Seq<Seq<char>> {
    lines_from(s, 0, 0)
}

proof fn lemma_lines_from_nonempty(s: Seq<char>, start: int, i: int)
    requires
        0 <= start <= i <= s.len(),
        start < s.len(),
    ensures
        lines_from(s, start, i).len() >= 1,
    decreases s.len() - i,
{
    if i < s.len() && s[i] != '\n' {
        lemma_lines_from_nonempty(s, start, i + 1);
    }
}

/// A non-empty text has at least one line.
pub proof fn lemma_lines_nonempty(s: Seq<char>)
    requires
        s.len() > 0,
    ensures
        lines(s).len() >= 1,
{
    lemma_lines_from_nonempty(s, 0, 0);
}

/// Returns the lines of `s`.
pub fn lines_of(s: &[char]) -> (ls: Vec<Vec<char>>)
    ensures
        views_of(ls@) == lines(s@),
{
    let n = s.len();
    let mut ls: Vec<Vec<char>> = Vec::new();
    let mut start: usize = 0;
    let mut i: usize = 0;
    while i < n
        invariant
            n == s@.len(),
            start <= i <= n,
            views_of(ls@) + lines_from(s@, start as int, i as int) == lines(s@),
        decreases n - i,
    {
        if s[i] == '\n' {
            let mut line = slice_chars(s, start, i);
            if line.len() > 0 && line[line.len() - 1] == '\r' {
                line.pop();
            }
            let ghost before = views_of(ls@);
            proof {
                let l = s@.subrange(start as int, i as int);
                assert(line@ =~= strip_cr(l));
            }
            ls.push(line);
            proof {
                assert(views_of(ls@) =~= before + seq![strip_cr(s@.subrange(start as int, i as int))]);
            }
            i = i + 1;
            start = i;
        } else {
            i = i + 1;
        }
    }
    if start < n {
        let last = slice_chars(s, start, n);
        let ghost before = views_of(ls@);
        ls.push(last);
        proof {
            assert(views_of(ls@) =~= before + seq![s@.subrange(start as int, n as int)]);
        }
    } else {
        assert(views_of(ls@) + seq![] =~= views_of(ls@));
    }
    ls
}

/// The parts joined with `sep` between each two of them, as `join` on a
/// slice of strings gives it.
pub open spec fn join(parts: Seq<Seq<char>>, sep: Seq<char>) -> Seq<char>
    decreases parts.len(),
{
    if parts.len() == 0 {
        seq![]
    } else if parts.len() == 1 {
        parts[0]
    } else {
        join(parts.drop_last(), sep) + sep + parts.last()
    }
}

/// Returns the parts in `from..` joined with `sep`.
pub fn join_from(parts: &Vec<Vec<char>>, from: usize, sep: &[char]) -> (j: Vec<char>)
    requires
        from <= parts@.len(),
    ensures
        j@ == join(views_of(parts@).skip(from as int), sep@),
{
    let mut j: Vec<char> = Vec::new();
    let mut k: usize = from;
    assert(views_of(parts@).skip(from as int).take(0) =~= seq![]);
    while k < parts.len()
        invariant
            from <= k <= parts@.len(),
            j@ == join(views_of(parts@).skip(from as int).take(k - from), sep@),
        decreases parts.len() - k,
    {
        let ghost ps = views_of(parts@).skip(from as int);
        if k > from {
            let mut m: usize = 0;
            while m < sep.len()
                invariant
                    0 <= m <= sep@.len(),
                    j@ == join(ps.take(k - from), sep@) + sep@.take(m as int),
                decreases sep.len() - m,
            {
                j.push(sep[m]);
                m = m + 1;
                proof {
                    assert(sep@.take(m as int) =~= sep@.take(m - 1) + seq![sep@[m - 1]]);
                }
            }
            assert(sep@.take(sep@.len() as int) =~= sep@);
        }
        let ghost mid = j@;
        let p = &parts[k];
        let mut m: usize = 0;
        while m < p.len()
            invariant
                0 <= m <= p@.len(),
                j@ == mid + p@.take(m as int),
            decreases p.len() - m,
        {
            j.push(p[m]);
            m = m + 1;
            proof {
                assert(p@.take(m as int) =~= p@.take(m - 1) + seq![p@[m - 1]]);
            }
        }
        proof {
            assert(p@.take(p@.len() as int) =~= p@);
            let t = ps.take(k + 1 - from);
            assert(t.drop_last() =~= ps.take(k - from));
            assert(t.last() == p@);
            if k == from {
                assert(t.len() == 1);
                assert(j@ =~= t[0]);
            }
        }
        k = k + 1;
    }
    proof {
        assert(views_of(parts@).skip(from as int).take(k - from) =~= views_of(parts@).skip(from as int));
    }
    j
}

} // verus!
