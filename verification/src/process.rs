//! Ordering and de-duplicating entries before an export, and the statistics
//! line the program prints.

use vstd::prelude::*;
use crate::clippings::{EntryView, KindleEntry, entry_views};
use crate::text::{
    append_chars, append_str, chars_equal, chars_of, lemma_remove_duplicates_no_duplicates,
    lemma_split_on_absent, lemma_split_on_concat,
    split_chars, split_on, string_from_chars, views_of,
};

verus! {

/// The order of an export.
#[derive(Debug, Clone, Copy, PartialEq, Eq, Structural)]
pub enum SortKey {
    Book,
    Date,
    Location,
}

/// `a` comes before `b` in lexicographic order, a proper prefix first.
pub open spec fn seq_less(a: Seq<u64>, b: Seq<u64>) -> bool
    decreases a.len(),
{
    if b.len() == 0 {
        false
    } else if a.len() == 0 {
        true
    } else if a[0] < b[0] {
        true
    } else if a[0] > b[0] {
        false
    } else {
        seq_less(a.drop_first(), b.drop_first())
    }
}

/// No sequence comes before itself.
pub proof fn lemma_seq_less_irreflexive(a: Seq<u64>)
    ensures
        !seq_less(a, a),
    decreases a.len(),
{
    if a.len() > 0 {
        lemma_seq_less_irreflexive(a.drop_first());
    }
}

/// The lexicographic order is transitive.
pub proof fn lemma_seq_less_transitive(a: Seq<u64>, b: Seq<u64>, c: Seq<u64>)
    requires
        seq_less(a, b),
        seq_less(b, c),
    ensures
        seq_less(a, c),
    decreases a.len(),
{
    if a.len() > 0 && b.len() > 0 && c.len() > 0 && a[0] == b[0] && b[0] == c[0] {
        lemma_seq_less_transitive(a.drop_first(), b.drop_first(), c.drop_first());
    }
}

/// Of two different sequences, one comes before the other.
pub proof fn lemma_seq_less_total(a: Seq<u64>, b: Seq<u64>)
    ensures
        a == b || seq_less(a, b) || seq_less(b, a),
    decreases a.len(),
{
    if a.len() > 0 && b.len() > 0 && a[0] == b[0] {
        lemma_seq_less_total(a.drop_first(), b.drop_first());
        if a.drop_first() == b.drop_first() {
            assert(a =~= seq![a[0]] + a.drop_first());
            assert(b =~= seq![b[0]] + b.drop_first());
        }
    } else if a.len() == 0 && b.len() == 0 {
        assert(a =~= b);
    }
}

/// Returns whether `a` comes before `b` in lexicographic order.
pub fn less_than(a: &[u64], b: &[u64]) -> (r: bool)
    ensures
        r == seq_less(a@, b@),
{
    let mut i: usize = 0;
    assert(a@.skip(0) =~= a@);
    assert(b@.skip(0) =~= b@);
    while i < a.len() && i < b.len() && a[i] == b[i]
        invariant
            0 <= i <= a@.len(),
            i <= b@.len(),
            seq_less(a@, b@) == seq_less(a@.skip(i as int), b@.skip(i as int)),
        decreases a.len() - i,
    {
        assert(a@.skip(i as int).drop_first() =~= a@.skip(i + 1));
        assert(b@.skip(i as int).drop_first() =~= b@.skip(i + 1));
        i = i + 1;
    }
    if i == b.len() {
        false
    } else if i == a.len() {
        true
    } else {
        a[i] < b[i]
    }
}

/// `c` is an ASCII digit.
pub open spec fn is_digit(c: char) -> bool {
    '0' <= c && c <= '9'
}

/// The value of a sequence of decimal digits.
pub open spec fn digits_value(d: Seq<char>) -> int
    decreases d.len(),
{
    if d.len() == 0 {
        0
    } else {
        digits_value(d.drop_last()) * 10 + ((d.last() as int) - ('0' as int))
    }
}

/// The number that `t` writes: one to eighteen decimal digits and nothing else.
pub open spec fn whole_number(t: Seq<char>) -> Option<u64> {
    if 0 < t.len() <= 18 && forall|i: int| 0 <= i < t.len() ==> is_digit(#[trigger] t[i]) {
        Some(digits_value(t) as u64)
    } else {
        None
    }
}

/// Ten to the power `n`.
pub open spec fn ten_pow(n: nat) -> int
    decreases n,
{
    if n == 0 {
        1
    } else {
        10 * ten_pow((n - 1) as nat)
    }
}

proof fn lemma_digits_value_bound(d: Seq<char>)
    requires
        forall|i: int| 0 <= i < d.len() ==> is_digit(#[trigger] d[i]),
    ensures
        0 <= digits_value(d) < ten_pow(d.len()),
    decreases d.len(),
{
    if d.len() > 0 {
        assert forall|i: int| 0 <= i < d.drop_last().len() implies is_digit(
            #[trigger] d.drop_last()[i],
        ) by {
            assert(d.drop_last()[i] == d[i]);
        }
        lemma_digits_value_bound(d.drop_last());
        assert(is_digit(d.last()));
    }
}

proof fn lemma_ten_pow_monotone(a: nat, b: nat)
    requires
        a <= b,
    ensures
        ten_pow(a) <= ten_pow(b),
    decreases b,
{
    if a < b {
        lemma_ten_pow_monotone(a, (b - 1) as nat);
        assert(ten_pow((b - 1) as nat) >= 1) by {
            lemma_ten_pow_positive((b - 1) as nat);
        }
    }
}

proof fn lemma_ten_pow_positive(a: nat)
    ensures
        ten_pow(a) >= 1,
    decreases a,
{
    if a > 0 {
        lemma_ten_pow_positive((a - 1) as nat);
    }
}

/// Returns the number that `t` writes, if it is one to eighteen decimal digits.
pub fn parse_whole_number(t: &[char]) -> (r: Option<u64>)
    ensures
        r == whole_number(t@),
{
    if t.len() == 0 || t.len() > 18 {
        return None;
    }
    let mut value: u64 = 0;
    let mut i: usize = 0;
    while i < t.len()
        invariant
            0 <= i <= t@.len() <= 18,
            forall|k: int| 0 <= k < i ==> is_digit(#[trigger] t@[k]),
            value == digits_value(t@.take(i as int)),
        decreases t.len() - i,
    {
        let c = t[i];
        if !('0' <= c && c <= '9') {
            return None;
        }
        proof {
            assert(t@.take(i + 1).drop_last() =~= t@.take(i as int));
            assert forall|k: int| 0 <= k < t@.take(i as int).len() implies is_digit(
                #[trigger] t@.take(i as int)[k],
            ) by {}
            lemma_digits_value_bound(t@.take(i as int));
            lemma_ten_pow_monotone(i as nat, 17);
            assert(ten_pow(17) == 100000000000000000) by {
                reveal_with_fuel(ten_pow, 18);
            }
        }
        value = value * 10 + ((c as u32) - ('0' as u32)) as u64;
        i = i + 1;
    }
    assert(t@.take(i as int) =~= t@);
    Some(value)
}

/// The key of text: each character's code plus one.
pub open spec fn char_codes(s: Seq<char>) -> Seq<u64> {
    s.map_values(|c: char| ((c as u32) as u64 + 1) as u64)
}

/// Orders by book: title, then author, character by character.
pub open spec fn book_key(e: EntryView) -> Seq<u64> {
    char_codes(e.title) + seq![0u64] + char_codes(e.author)
}

/// The decimal digits at the start of `s`.
pub open spec fn leading_digits(s: Seq<char>) -> Seq<char>
    decreases s.len(),
{
    if s.len() > 0 && is_digit(s[0]) {
        seq![s[0]] + leading_digits(s.drop_first())
    } else {
        seq![]
    }
}

/// Orders by the number a location starts with; locations without one last.
pub open spec fn location_key(e: EntryView) -> Seq<u64> {
    match whole_number(leading_digits(e.location)) {
        Some(n) => seq![0u64, n],
        None => seq![1u64],
    }
}

/// The number of an English month name.
pub open spec fn month_number(w: Seq<char>) -> Option<u64> {
    if w == "January"@ {
        Some(1u64)
    } else if w == "February"@ {
        Some(2u64)
    } else if w == "March"@ {
        Some(3u64)
    } else if w == "April"@ {
        Some(4u64)
    } else if w == "May"@ {
        Some(5u64)
    } else if w == "June"@ {
        Some(6u64)
    } else if w == "July"@ {
        Some(7u64)
    } else if w == "August"@ {
        Some(8u64)
    } else if w == "September"@ {
        Some(9u64)
    } else if w == "October"@ {
        Some(10u64)
    } else if w == "November"@ {
        Some(11u64)
    } else if w == "December"@ {
        Some(12u64)
    } else {
        None
    }
}

/// Year, month, day, hour of the day, minute and second of a Kindle date
/// such as `Friday, August 9, 2024 12:34:56 PM`: six words separated by
/// single spaces, the day followed by a comma, a 12-hour clock with `AM`
/// or `PM`.
pub open spec fn date_fields(date: Seq<char>) -> Option<Seq<u64>> {
    let t = split_on(date, seq![' ']);
    if t.len() != 6 || t[2].len() == 0 || t[2].last() != ',' {
        None
    } else {
        let clock = split_on(t[4], seq![':']);
        match (month_number(t[1]), whole_number(t[2].drop_last()), whole_number(t[3])) {
            (Some(mo), Some(d), Some(y)) => if clock.len() != 3 {
                None
            } else {
                match (whole_number(clock[0]), whole_number(clock[1]), whole_number(clock[2])) {
                    (Some(h), Some(mi), Some(sec)) => if t[5] == "AM"@ {
                        Some(seq![y, mo, d, (h % 12) as u64, mi, sec])
                    } else if t[5] == "PM"@ {
                        Some(seq![y, mo, d, (h % 12 + 12) as u64, mi, sec])
                    } else {
                        None
                    },
                    _ => None,
                }
            },
            _ => None,
        }
    }
}

/// Orders by date; dates in another form last.
pub open spec fn date_key(e: EntryView) -> Seq<u64> {
    match date_fields(e.date) {
        Some(f) => seq![0u64] + f,
        None => seq![1u64],
    }
}

/// The key an entry is ordered by.
pub open spec fn entry_key(e: EntryView, key: SortKey) -> Seq<u64> {
    match key {
        SortKey::Book => book_key(e),
        SortKey::Location => location_key(e),
        SortKey::Date => date_key(e),
    }
}

/// Returns the codes of `s`, each plus one, after `out`.
fn push_char_codes(out: &mut Vec<u64>, s: &str)
    ensures
        final(out)@ == old(out)@ + char_codes(s@),
{
    let cs = chars_of(s);
    let ghost start = out@;
    let mut i: usize = 0;
    while i < cs.len()
        invariant
            0 <= i <= cs@.len(),
            cs@ == s@,
            out@ == start + char_codes(cs@.take(i as int)),
        decreases cs.len() - i,
    {
        let c = cs[i];
        let code = (c as u32) as u64 + 1;
        out.push(code);
        proof {
            assert(char_codes(cs@.take(i + 1)) =~= char_codes(cs@.take(i as int)).push(
                ((c as u32) as u64 + 1) as u64,
            ));
        }
        i = i + 1;
    }
    assert(cs@.take(i as int) =~= cs@);
}

/// Returns the number of an English month name.
fn month_of(w: &[char]) -> (m: Option<u64>)
    ensures
        m == month_number(w@),
{
    if chars_equal(w, &chars_of("January")) {
        Some(1)
    } else if chars_equal(w, &chars_of("February")) {
        Some(2)
    } else if chars_equal(w, &chars_of("March")) {
        Some(3)
    } else if chars_equal(w, &chars_of("April")) {
        Some(4)
    } else if chars_equal(w, &chars_of("May")) {
        Some(5)
    } else if chars_equal(w, &chars_of("June")) {
        Some(6)
    } else if chars_equal(w, &chars_of("July")) {
        Some(7)
    } else if chars_equal(w, &chars_of("August")) {
        Some(8)
    } else if chars_equal(w, &chars_of("September")) {
        Some(9)
    } else if chars_equal(w, &chars_of("October")) {
        Some(10)
    } else if chars_equal(w, &chars_of("November")) {
        Some(11)
    } else if chars_equal(w, &chars_of("December")) {
        Some(12)
    } else {
        None
    }
}

/// Returns the fields of a Kindle date.
pub fn parse_date_fields(date: &str) -> (f: Option<Vec<u64>>)
    ensures
        match f {
            Some(v) => date_fields(date@) == Some(v@),
            None => date_fields(date@) is None,
        },
{
    let cs = chars_of(date);
    let space = [' '];
    assert(space@ =~= seq![' ']);
    let t = split_chars(&cs, &space);
    let ghost tv = views_of(t@);
    if t.len() != 6 {
        return None;
    }
    assert(tv[2] == t@[2]@);
    if t[2].len() == 0 || t[2][t[2].len() - 1] != ',' {
        return None;
    }
    let colon = [':'];
    assert(colon@ =~= seq![':']);
    let clock = split_chars(&t[4], &colon);
    let ghost cv = views_of(clock@);
    assert(tv[4] == t@[4]@);
    assert(tv[1] == t@[1]@);
    assert(tv[3] == t@[3]@);
    assert(tv[5] == t@[5]@);
    let month = month_of(&t[1]);
    let day_digits = crate::text::slice_chars(&t[2], 0, t[2].len() - 1);
    assert(day_digits@ =~= tv[2].drop_last());
    let day = parse_whole_number(&day_digits);
    let year = parse_whole_number(&t[3]);
    match (month, day, year) {
        (Some(mo), Some(d), Some(y)) => {
            if clock.len() != 3 {
                return None;
            }
            assert(cv[0] == clock@[0]@);
            assert(cv[1] == clock@[1]@);
            assert(cv[2] == clock@[2]@);
            let h = parse_whole_number(&clock[0]);
            let mi = parse_whole_number(&clock[1]);
            let sec = parse_whole_number(&clock[2]);
            match (h, mi, sec) {
                (Some(h), Some(mi), Some(sec)) => {
                    let half = &t[5];
                    let hour = if chars_equal(half, &chars_of("AM")) {
                        h % 12
                    } else if chars_equal(half, &chars_of("PM")) {
                        h % 12 + 12
                    } else {
                        return None;
                    };
                    let v = vec![y, mo, d, hour, mi, sec];
                    assert(v@ =~= date_fields(date@)->0);
                    Some(v)
                },
                _ => None,
            }
        },
        _ => None,
    }
}

/// Returns the key that an entry is ordered by.
pub fn entry_sort_key(entry: &KindleEntry, key: SortKey) -> (k: Vec<u64>)
    ensures
        k@ == entry_key(entry@, key),
{
    match key {
        SortKey::Book => {
            let mut k: Vec<u64> = Vec::new();
            push_char_codes(&mut k, entry.title.as_str());
            k.push(0);
            push_char_codes(&mut k, entry.author.as_str());
            k
        },
        SortKey::Location => {
            let cs = chars_of(entry.location.as_str());
            let mut n: usize = 0;
            assert(cs@.skip(0) =~= cs@);
            assert(cs@.take(0) + leading_digits(cs@) =~= leading_digits(cs@));
            while n < cs.len() && '0' <= cs[n] && cs[n] <= '9'
                invariant
                    0 <= n <= cs@.len(),
                    cs@ == entry.location@,
                    leading_digits(cs@) == cs@.take(n as int) + leading_digits(cs@.skip(n as int)),
                decreases cs.len() - n,
            {
                proof {
                    let rest = cs@.skip(n as int);
                    assert(rest.drop_first() =~= cs@.skip(n + 1));
                    assert(cs@.take(n + 1) =~= cs@.take(n as int) + seq![rest[0]]);
                }
                n = n + 1;
            }
            proof {
                assert(cs@.skip(0) =~= cs@);
                let rest = cs@.skip(n as int);
                assert(leading_digits(rest) =~= Seq::<char>::empty());
                assert(cs@.take(n as int) + Seq::<char>::empty() =~= cs@.take(n as int));
            }
            let digits = crate::text::slice_chars(&cs, 0, n);
            assert(digits@ =~= cs@.take(n as int));
            match parse_whole_number(&digits) {
                Some(v) => vec![0, v],
                None => vec![1],
            }
        },
        SortKey::Date => match parse_date_fields(entry.date.as_str()) {
            Some(f) => {
                let mut k: Vec<u64> = vec![0];
                let ghost start = k@;
                let mut i: usize = 0;
                while i < f.len()
                    invariant
                        0 <= i <= f@.len(),
                        k@ == start + f@.take(i as int),
                    decreases f.len() - i,
                {
                    k.push(f[i]);
                    i = i + 1;
                    proof {
                        assert(f@.take(i as int) =~= f@.take(i - 1).push(f@[i - 1]));
                    }
                }
                assert(f@.take(i as int) =~= f@);
                k
            },
            None => vec![1],
        },
    }
}

/// `e` put into `s` after every entry it does not come before, counting from
/// the end: the step of a stable insertion sort.
pub open spec fn insert_by_key(s: Seq<EntryView>, e: EntryView, key: SortKey) -> Seq<EntryView>
    decreases s.len(),
{
    if s.len() > 0 && seq_less(entry_key(e, key), entry_key(s.last(), key)) {
        insert_by_key(s.drop_last(), e, key).push(s.last())
    } else {
        s.push(e)
    }
}

/// The entries ordered by `key`, entries with equal keys in their first order.
pub open spec fn sort_by_key(s: Seq<EntryView>, key: SortKey) -> Seq<EntryView>
    decreases s.len(),
{
    if s.len() == 0 {
        s
    } else {
        insert_by_key(sort_by_key(s.drop_last(), key), s.last(), key)
    }
}

/// The entries an export holds: without repeats where asked, in the order
/// asked.
pub open spec fn processed_entries(entries: Seq<EntryView>, sort: Option<SortKey>, dedupe: bool) -> Seq<EntryView> {
    let kept = if dedupe {
        entries.remove_duplicates(seq![])
    } else {
        entries
    };
    match sort {
        Some(key) => sort_by_key(kept, key),
        None => kept,
    }
}

proof fn lemma_insert_at(s: Seq<EntryView>, e: EntryView, key: SortKey, j: int)
    requires
        0 <= j <= s.len(),
        forall|m: int| j <= m < s.len() ==> seq_less(entry_key(e, key), entry_key(#[trigger] s[m], key)),
        j == 0 || !seq_less(entry_key(e, key), entry_key(s[j - 1], key)),
    ensures
        insert_by_key(s, e, key) == s.take(j).push(e) + s.skip(j),
    decreases s.len() - j,
{
    if s.len() == j {
        assert(s.take(j) =~= s);
        assert(s.skip(j) =~= Seq::<EntryView>::empty());
        assert(s.take(j).push(e) + s.skip(j) =~= s.push(e));
    } else {
        let p = s.drop_last();
        assert(seq_less(entry_key(e, key), entry_key(s[s.len() - 1], key)));
        assert forall|m: int| j <= m < p.len() implies seq_less(entry_key(e, key), entry_key(#[trigger] p[m], key)) by {
            assert(p[m] == s[m]);
        }
        if j > 0 {
            assert(p[j - 1] == s[j - 1]);
        }
        lemma_insert_at(p, e, key, j);
        assert(p.take(j) =~= s.take(j));
        assert((p.take(j).push(e) + p.skip(j)).push(s.last()) =~= s.take(j).push(e) + s.skip(j));
    }
}

/// Returns whether two entries have the same text in every field.
pub fn same_entry(a: &KindleEntry, b: &KindleEntry) -> (r: bool)
    ensures
        r == (a@ == b@),
{
    a.title == b.title && a.author == b.author && a.entry_type == b.entry_type && a.location
        == b.location && a.date == b.date && a.content == b.content
}

/// Returns the entries in their order, each taken out of `entries`.
fn into_entries_in_order(entries: Vec<KindleEntry>) -> (out: Vec<KindleEntry>)
    ensures
        entry_views(out@) == entry_views(entries@).reverse(),
{
    let mut rest = entries;
    let ghost all = entry_views(rest@);
    let mut out: Vec<KindleEntry> = Vec::new();
    while rest.len() > 0
        invariant
            entry_views(rest@) == all.take(rest@.len() as int),
            entry_views(out@) == all.skip(rest@.len() as int).reverse(),
            rest@.len() <= all.len(),
        decreases rest.len(),
    {
        let ghost n = rest@.len();
        let ghost old_rest = rest@;
        let e = rest.pop().unwrap();
        let ghost before = entry_views(out@);
        out.push(e);
        proof {
            assert(entry_views(old_rest)[n - 1] == old_rest[n - 1]@);
            assert(all.take(n as int)[n - 1] == all[n - 1]);
            assert(entry_views(rest@) =~= all.take(n - 1));
            assert(e@ == all[n - 1]);
            assert(entry_views(out@) =~= before.push(e@));
            assert(all.skip(n - 1).reverse() =~= all.skip(n as int).reverse().push(all[n - 1]));
        }
    }
    assert(all.skip(0) =~= all);
    out
}

/// Returns the entries without repeats, each kept where it first occurs.
pub fn dedupe_entries(entries: Vec<KindleEntry>) -> (out: Vec<KindleEntry>)
    ensures
        entry_views(out@) == entry_views(entries@).remove_duplicates(seq![]),
{
    let ghost all = entry_views(entries@);
    let mut pending = into_entries_in_order(entries);
    assert(all.reverse().reverse() =~= all);
    let mut out: Vec<KindleEntry> = Vec::new();
    let ghost mut i: int = 0;
    assert(all.take(0).remove_duplicates(seq![]) =~= seq![]);
    while pending.len() > 0
        invariant
            0 <= i <= all.len(),
            entry_views(pending@) == all.skip(i).reverse(),
            entry_views(out@) == all.take(i).remove_duplicates(seq![]),
        decreases pending.len(),
    {
        let ghost n = pending@.len();
        let ghost old_pending = pending@;
        let e = pending.pop().unwrap();
        proof {
            assert(entry_views(old_pending).len() == n);
            assert(all.skip(i).len() == n);
            assert(entry_views(old_pending)[n - 1] == old_pending[n - 1]@);
            assert(all.skip(i).reverse()[n - 1] == all.skip(i)[0]);
            assert(all.skip(i)[0] == all[i]);
            assert(e@ == all[i]);
            assert(pending@ =~= old_pending.drop_last());
            assert forall|k: int| 0 <= k < n - 1 implies #[trigger] entry_views(pending@)[k]
                == all.skip(i + 1).reverse()[k] by {
                assert(entry_views(pending@)[k] == entry_views(old_pending)[k]);
                assert(all.skip(i).reverse()[k] == all.skip(i)[n - 1 - k]);
                assert(all.skip(i + 1).reverse()[k] == all.skip(i + 1)[n - 2 - k]);
            }
            assert(entry_views(pending@) =~= all.skip(i + 1).reverse());
        }
        let mut seen = false;
        let mut k: usize = 0;
        while k < out.len()
            invariant
                0 <= k <= out@.len(),
                seen <==> entry_views(out@).take(k as int).contains(e@),
            decreases out.len() - k,
        {
            let same = same_entry(&out[k], &e);
            proof {
                let prev = entry_views(out@).take(k as int);
                let t = entry_views(out@).take(k + 1);
                assert(t =~= prev.push(out@[k as int]@));
                if same {
                    assert(t[k as int] == e@);
                } else {
                    if prev.contains(e@) {
                        let m = choose|m: int| 0 <= m < prev.len() && prev[m] == e@;
                        assert(t[m] == e@);
                    }
                    if t.contains(e@) {
                        let m = choose|m: int| 0 <= m < t.len() && t[m] == e@;
                        assert(m != k);
                        assert(prev[m] == e@);
                    }
                }
            }
            if same {
                seen = true;
            }
            k = k + 1;
        }
        proof {
            assert(entry_views(out@).take(k as int) =~= entry_views(out@));
            let prefix = all.take(i);
            prefix.lemma_remove_duplicates_properties(seq![]);
            prefix.lemma_remove_duplicates_append(e@, seq![]);
            assert(prefix + seq![] =~= prefix);
            assert(all.take(i + 1) =~= prefix + seq![e@]);
        }
        if !seen {
            let ghost before = entry_views(out@);
            out.push(e);
            assert(entry_views(out@) =~= before + seq![e@]);
        }
        proof {
            i = i + 1;
        }
    }
    assert(all.take(i) =~= all);
    out
}

/// Returns the entries ordered by `key`, entries with equal keys in their
/// first order.
pub fn sort_entries(entries: Vec<KindleEntry>, key: SortKey) -> (out: Vec<KindleEntry>)
    ensures
        entry_views(out@) == sort_by_key(entry_views(entries@), key),
{
    let ghost all = entry_views(entries@);
    let mut pending = into_entries_in_order(entries);
    assert(all.reverse().reverse() =~= all);
    let mut sorted: Vec<KindleEntry> = Vec::new();
    let mut keys: Vec<Vec<u64>> = Vec::new();
    let ghost mut i: int = 0;
    assert(all.take(0) =~= Seq::<EntryView>::empty());
    while pending.len() > 0
        invariant
            0 <= i <= all.len(),
            entry_views(pending@) == all.skip(i).reverse(),
            entry_views(sorted@) == sort_by_key(all.take(i), key),
            keys@.len() == sorted@.len(),
            forall|m: int| 0 <= m < keys@.len() ==> #[trigger] keys@[m]@ == entry_key(sorted@[m]@, key),
        decreases pending.len(),
    {
        let ghost n = pending@.len();
        let ghost old_pending = pending@;
        let e = pending.pop().unwrap();
        proof {
            assert(entry_views(old_pending).len() == n);
            assert(all.skip(i).len() == n);
            assert(entry_views(old_pending)[n - 1] == old_pending[n - 1]@);
            assert(all.skip(i).reverse()[n - 1] == all.skip(i)[0]);
            assert(all.skip(i)[0] == all[i]);
            assert(e@ == all[i]);
            assert(pending@ =~= old_pending.drop_last());
            assert forall|k: int| 0 <= k < n - 1 implies #[trigger] entry_views(pending@)[k]
                == all.skip(i + 1).reverse()[k] by {
                assert(entry_views(pending@)[k] == entry_views(old_pending)[k]);
                assert(all.skip(i).reverse()[k] == all.skip(i)[n - 1 - k]);
                assert(all.skip(i + 1).reverse()[k] == all.skip(i + 1)[n - 2 - k]);
            }
            assert(entry_views(pending@) =~= all.skip(i + 1).reverse());
        }
        let k = entry_sort_key(&e, key);
        let mut j: usize = sorted.len();
        let ghost s = entry_views(sorted@);
        while j > 0 && less_than(&k, &keys[j - 1])
            invariant
                0 <= j <= sorted@.len(),
                keys@.len() == sorted@.len(),
                s == entry_views(sorted@),
                k@ == entry_key(e@, key),
                forall|m: int| 0 <= m < keys@.len() ==> #[trigger] keys@[m]@ == entry_key(sorted@[m]@, key),
                forall|m: int| j <= m < s.len() ==> seq_less(entry_key(e@, key), entry_key(#[trigger] s[m], key)),
            decreases j,
        {
            assert(keys@[j - 1]@ == entry_key(sorted@[j - 1]@, key));
            assert(s[j - 1] == sorted@[j - 1]@);
            j = j - 1;
        }
        proof {
            if j > 0 {
                assert(keys@[j - 1]@ == entry_key(sorted@[j - 1]@, key));
                assert(s[j - 1] == sorted@[j - 1]@);
            }
            lemma_insert_at(s, e@, key, j as int);
            assert(all.take(i + 1).drop_last() =~= all.take(i));
            assert(all.take(i + 1).last() == e@);
        }
        let ghost old_keys = keys@;
        let ghost old_sorted = sorted@;
        keys.insert(j, k);
        sorted.insert(j, e);
        proof {
            assert(entry_views(sorted@) =~= s.take(j as int).push(e@) + s.skip(j as int));
            assert forall|m: int| 0 <= m < keys@.len() implies #[trigger] keys@[m]@ == entry_key(sorted@[m]@, key) by {
                if m < j {
                    assert(keys@[m] == old_keys[m]);
                    assert(sorted@[m] == old_sorted[m]);
                } else if m > j {
                    assert(keys@[m] == old_keys[m - 1]);
                    assert(sorted@[m] == old_sorted[m - 1]);
                }
            }
            i = i + 1;
        }
    }
    assert(all.take(i) =~= all);
    sorted
}

/// Returns the entries an export holds: without repeats where `dedupe`
/// asks, and in the order of `sort_key` where one is given.
pub fn process_entries(entries: Vec<KindleEntry>, sort_key: Option<SortKey>, dedupe: bool) -> (out: Vec<KindleEntry>)
    ensures
        entry_views(out@) == processed_entries(entry_views(entries@), sort_key, dedupe),
{
    let kept = if dedupe {
        dedupe_entries(entries)
    } else {
        entries
    };
    match sort_key {
        Some(key) => sort_entries(kept, key),
        None => kept,
    }
}

/// No entry of `s` comes before an earlier one.
pub open spec fn sorted_by_key(s: Seq<EntryView>, key: SortKey) -> bool {
    forall|i: int, j: int|
        0 <= i < j < s.len() ==> !seq_less(entry_key(#[trigger] s[j], key), entry_key(#[trigger] s[i], key))
}

proof fn lemma_insert_by_key_elements(s: Seq<EntryView>, e: EntryView, key: SortKey)
    ensures
        insert_by_key(s, e, key).to_multiset() == s.to_multiset().insert(e),
        insert_by_key(s, e, key).len() == s.len() + 1,
    decreases s.len(),
{
    broadcast use vstd::seq_lib::group_seq_properties;

    if s.len() > 0 && seq_less(entry_key(e, key), entry_key(s.last(), key)) {
        let p = s.drop_last();
        lemma_insert_by_key_elements(p, e, key);
        assert(p.push(s.last()) =~= s);
        assert(insert_by_key(p, e, key).push(s.last()).to_multiset() =~= insert_by_key(p, e, key).to_multiset().insert(s.last()));
        assert(s.to_multiset() =~= p.to_multiset().insert(s.last()));
    }
}

proof fn lemma_insert_by_key_sorted(s: Seq<EntryView>, e: EntryView, key: SortKey)
    requires
        sorted_by_key(s, key),
    ensures
        sorted_by_key(insert_by_key(s, e, key), key),
    decreases s.len(),
{
    broadcast use vstd::seq_lib::group_seq_properties;

    let r = insert_by_key(s, e, key);
    if s.len() > 0 && seq_less(entry_key(e, key), entry_key(s.last(), key)) {
        let p = s.drop_last();
        let last = s.last();
        assert(sorted_by_key(p, key)) by {
            assert forall|i: int, j: int| 0 <= i < j < p.len() implies !seq_less(
                entry_key(#[trigger] p[j], key),
                entry_key(#[trigger] p[i], key),
            ) by {
                assert(p[i] == s[i] && p[j] == s[j]);
            }
        }
        lemma_insert_by_key_sorted(p, e, key);
        lemma_insert_by_key_elements(p, e, key);
        let q = insert_by_key(p, e, key);
        assert forall|i: int, j: int| 0 <= i < j < r.len() implies !seq_less(
            entry_key(#[trigger] r[j], key),
            entry_key(#[trigger] r[i], key),
        ) by {
            if j < q.len() {
                assert(r[i] == q[i] && r[j] == q[j]);
            } else {
                assert(r[j] == last);
                assert(r[i] == q[i]);
                let x = q[i];
                assert(q.to_multiset().count(x) > 0);
                if x == e {
                    if seq_less(entry_key(last, key), entry_key(e, key)) {
                        lemma_seq_less_transitive(entry_key(e, key), entry_key(last, key), entry_key(e, key));
                        lemma_seq_less_irreflexive(entry_key(e, key));
                    }
                } else {
                    assert(p.to_multiset().count(x) > 0);
                    let k = choose|k: int| 0 <= k < p.len() && p[k] == x;
                    assert(s[k] == x);
                    assert(s[s.len() - 1] == last);
                }
            }
        }
    } else {
        assert forall|i: int, j: int| 0 <= i < j < r.len() implies !seq_less(
            entry_key(#[trigger] r[j], key),
            entry_key(#[trigger] r[i], key),
        ) by {
            if j < s.len() {
                assert(r[i] == s[i] && r[j] == s[j]);
            } else {
                assert(r[j] == e);
                assert(r[i] == s[i]);
                let last = s.last();
                assert(s[s.len() - 1] == last);
                if seq_less(entry_key(e, key), entry_key(s[i], key)) {
                    if i < s.len() - 1 {
                        assert(!seq_less(entry_key(last, key), entry_key(s[i], key)));
                        lemma_seq_less_total(entry_key(last, key), entry_key(s[i], key));
                        if seq_less(entry_key(s[i], key), entry_key(last, key)) {
                            lemma_seq_less_transitive(entry_key(e, key), entry_key(s[i], key), entry_key(last, key));
                        }
                    }
                }
            }
        }
    }
}

/// Sorting by a key gives the same entries, as often as before, with no
/// entry before an earlier one whose key is smaller.
pub proof fn law_sort_by_key(s: Seq<EntryView>, key: SortKey)
    ensures
        sort_by_key(s, key).to_multiset() == s.to_multiset(),
        sorted_by_key(sort_by_key(s, key), key),
    decreases s.len(),
{
    broadcast use vstd::seq_lib::group_seq_properties;

    if s.len() > 0 {
        let p = s.drop_last();
        law_sort_by_key(p, key);
        lemma_insert_by_key_elements(sort_by_key(p, key), s.last(), key);
        lemma_insert_by_key_sorted(sort_by_key(p, key), s.last(), key);
        assert(p.push(s.last()) =~= s);
    } else {
        assert(sort_by_key(s, key) == s);
    }
}

/// Dropping repeats keeps every entry once: the result holds exactly the
/// entries of the input, none twice, and dropping repeats again changes nothing.
pub proof fn law_dedupe_entries(s: Seq<EntryView>)
    ensures
        forall|e: EntryView| s.contains(e) <==> #[trigger] s.remove_duplicates(seq![]).contains(e),
        s.remove_duplicates(seq![]).no_duplicates(),
        s.remove_duplicates(seq![]).remove_duplicates(seq![]) == s.remove_duplicates(seq![]),
{
    s.lemma_remove_duplicates_properties(seq![]);
    assert(s + seq![] =~= s);
    lemma_remove_duplicates_no_duplicates(s, seq![]);
    crate::text::lemma_remove_duplicates_unique(s.remove_duplicates(seq![]), seq![]);
    assert(seq![] + s.remove_duplicates(seq![]) =~= s.remove_duplicates(seq![]));
}

proof fn lemma_same_elements_no_duplicates(a: Seq<EntryView>, b: Seq<EntryView>)
    requires
        a.no_duplicates(),
        a.to_multiset() == b.to_multiset(),
    ensures
        b.no_duplicates(),
        forall|e: EntryView| a.contains(e) <==> b.contains(e),
{
    broadcast use vstd::seq_lib::group_seq_properties;

    a.lemma_multiset_has_no_duplicates();
    b.lemma_multiset_has_no_duplicates_conv();
    assert forall|e: EntryView| a.contains(e) <==> b.contains(e) by {
        vstd::seq_lib::to_multiset_contains(a, e);
        vstd::seq_lib::to_multiset_contains(b, e);
        assert(a.to_multiset().count(e) == b.to_multiset().count(e));
    }
}

/// What an export holds. With de-duplication, whatever the order asked for
/// (none included), it holds every entry of the input and no other, and none
/// twice. Without it, it holds the entries of the input, each as often as
/// the input does. Without an order, the entries keep the input's order.
pub proof fn law_processed_entries(s: Seq<EntryView>, sort: Option<SortKey>)
    ensures
        processed_entries(s, sort, true).no_duplicates(),
        forall|e: EntryView| s.contains(e) <==> #[trigger] processed_entries(s, sort, true).contains(e),
        processed_entries(s, sort, false).to_multiset() == s.to_multiset(),
        sort is None ==> processed_entries(s, sort, false) == s,
        sort is None ==> processed_entries(s, sort, true).len() <= s.len(),
{
    law_dedupe_entries(s);
    let kept = s.remove_duplicates(seq![]);
    s.lemma_remove_duplicates_properties(seq![]);
    match sort {
        Some(key) => {
            law_sort_by_key(kept, key);
            law_sort_by_key(s, key);
            lemma_same_elements_no_duplicates(kept, sort_by_key(kept, key));
        },
        None => {},
    }
}

proof fn lemma_leading_digits_of(d: Seq<char>, rest: Seq<char>)
    requires
        forall|i: int| 0 <= i < d.len() ==> is_digit(#[trigger] d[i]),
        rest.len() == 0 || !is_digit(rest[0]),
    ensures
        leading_digits(d + rest) == d,
    decreases d.len(),
{
    if d.len() == 0 {
        assert(d + rest =~= rest);
    } else {
        assert((d + rest)[0] == d[0]);
        assert((d + rest).drop_first() =~= d.drop_first() + rest);
        lemma_leading_digits_of(d.drop_first(), rest);
        assert(seq![d[0]] + d.drop_first() =~= d);
    }
}

/// An entry is ordered by location by the whole number its location starts
/// with: a location that starts with the digits `d` (at most eighteen of
/// them), followed by anything but a digit, has the key of the number `d`
/// writes. Locations that start with no digit come after every number.
pub proof fn law_location_key(e: EntryView, d: Seq<char>, rest: Seq<char>)
    requires
        e.location == d + rest,
        0 < d.len() <= 18,
        forall|i: int| 0 <= i < d.len() ==> is_digit(#[trigger] d[i]),
        rest.len() == 0 || !is_digit(rest[0]),
    ensures
        entry_key(e, SortKey::Location) == seq![0u64, digits_value(d) as u64],
        forall|f: EntryView|
            (f.location.len() == 0 || !is_digit(f.location[0])) ==> seq_less(
                entry_key(e, SortKey::Location),
                #[trigger] entry_key(f, SortKey::Location),
            ),
{
    lemma_leading_digits_of(d, rest);
    assert forall|f: EntryView|
        (f.location.len() == 0 || !is_digit(f.location[0])) implies seq_less(
        entry_key(e, SortKey::Location),
        #[trigger] entry_key(f, SortKey::Location),
    ) by {
        assert(leading_digits(f.location) =~= Seq::<char>::empty());
        assert(entry_key(f, SortKey::Location) == seq![1u64]);
    }
}

/// Entries sorted by location come in the order of the numbers their
/// locations start with: an entry whose location starts with a smaller
/// number never comes after one whose location starts with a larger one.
pub proof fn law_sort_by_location(s: Seq<EntryView>, i: int, j: int, di: Seq<char>, ri: Seq<char>, dj: Seq<char>, rj: Seq<char>)
    requires
        0 <= i < j < sort_by_key(s, SortKey::Location).len(),
        sort_by_key(s, SortKey::Location)[i].location == di + ri,
        sort_by_key(s, SortKey::Location)[j].location == dj + rj,
        0 < di.len() <= 18,
        0 < dj.len() <= 18,
        forall|k: int| 0 <= k < di.len() ==> is_digit(#[trigger] di[k]),
        forall|k: int| 0 <= k < dj.len() ==> is_digit(#[trigger] dj[k]),
        ri.len() == 0 || !is_digit(ri[0]),
        rj.len() == 0 || !is_digit(rj[0]),
    ensures
        digits_value(di) <= digits_value(dj),
{
    let r = sort_by_key(s, SortKey::Location);
    law_sort_by_key(s, SortKey::Location);
    law_location_key(r[i], di, ri);
    law_location_key(r[j], dj, rj);
    lemma_digits_value_bound(di);
    lemma_digits_value_bound(dj);
    lemma_ten_pow_monotone(di.len(), 18);
    lemma_ten_pow_monotone(dj.len(), 18);
    assert(ten_pow(18) == 1000000000000000000) by {
        reveal_with_fuel(ten_pow, 19);
    }
    assert(!seq_less(entry_key(r[j], SortKey::Location), entry_key(r[i], SortKey::Location)));
    let ki = entry_key(r[i], SortKey::Location);
    let kj = entry_key(r[j], SortKey::Location);
    if digits_value(dj) < digits_value(di) {
        assert(kj[0] == ki[0]);
        assert(kj.drop_first()[0] == digits_value(dj));
        assert(ki.drop_first()[0] == digits_value(di));
        assert(seq_less(kj.drop_first(), ki.drop_first()));
        assert(seq_less(kj, ki));
    }
}

/// The digit characters, read back, give their digits.
proof fn lemma_digit_char(d: nat)
    requires
        d < 10,
    ensures
        is_digit(digit_char(d)),
        (digit_char(d) as int) - ('0' as int) == d,
{
    let x = (48 + d) as u8;
    assert(x as int == 48 + d);
    assert((x as char) as u32 == x as u32);
}

/// Decimal notation reads back as its number: every character is a digit,
/// the digits have the value `n`, and there is no leading zero but in `0`.
pub proof fn law_decimal(n: nat)
    ensures
        decimal(n).len() > 0,
        forall|i: int| 0 <= i < decimal(n).len() ==> is_digit(#[trigger] decimal(n)[i]),
        digits_value(decimal(n)) == n,
        n > 0 ==> decimal(n)[0] != '0',
    decreases n,
{
    if n < 10 {
        lemma_digit_char(n);
        assert(seq![digit_char(n)].drop_last() =~= Seq::<char>::empty());
        assert(seq![digit_char(n)].last() == digit_char(n));
        assert(digits_value(Seq::<char>::empty()) == 0);
    } else {
        law_decimal(n / 10);
        lemma_digit_char(n % 10);
        let a = decimal(n / 10);
        let c = digit_char(n % 10);
        assert((a + seq![c]).drop_last() =~= a);
        assert((a + seq![c]).last() == c);
        assert((a + seq![c])[0] == a[0]);
        assert forall|i: int| 0 <= i < (a + seq![c]).len() implies is_digit(#[trigger] (a + seq![c])[i]) by {
            if i < a.len() {
                assert((a + seq![c])[i] == a[i]);
            }
        }
        assert((n / 10) * 10 + n % 10 == n);
    }
}

proof fn lemma_split_word(a: Seq<char>, rest: Seq<char>, c: char)
    requires
        forall|k: int| 0 <= k < a.len() ==> #[trigger] a[k] != c,
    ensures
        split_on(a + seq![c] + rest, seq![c]) == seq![a] + split_on(rest, seq![c]),
{
    assert forall|k: int| 0 <= k < seq![c].len() implies #[trigger] seq![c][k] == c by {}
    if a.len() > 0 {
        assert(a.last() == a[a.len() - 1]);
    }
    lemma_split_on_concat(a, rest, seq![c], c);
    lemma_split_on_absent(a, c);
}

/// The numbers of the English month names, in calendar order.
pub proof fn law_month_numbers()
    ensures
        month_number("January"@) == Some(1u64),
        month_number("February"@) == Some(2u64),
        month_number("March"@) == Some(3u64),
        month_number("April"@) == Some(4u64),
        month_number("May"@) == Some(5u64),
        month_number("June"@) == Some(6u64),
        month_number("July"@) == Some(7u64),
        month_number("August"@) == Some(8u64),
        month_number("September"@) == Some(9u64),
        month_number("October"@) == Some(10u64),
        month_number("November"@) == Some(11u64),
        month_number("December"@) == Some(12u64),
{
    reveal_strlit("January");
    reveal_strlit("February");
    reveal_strlit("March");
    reveal_strlit("April");
    reveal_strlit("May");
    reveal_strlit("June");
    reveal_strlit("July");
    reveal_strlit("August");
    reveal_strlit("September");
    reveal_strlit("October");
    reveal_strlit("November");
    reveal_strlit("December");
    assert("January"@[0] == 'J' && "January"@[1] == 'a' && "January"@[2] == 'n');
    assert("February"@[0] == 'F' && "February"@[1] == 'e' && "February"@[2] == 'b');
    assert("March"@[0] == 'M' && "March"@[1] == 'a' && "March"@[2] == 'r');
    assert("April"@[0] == 'A' && "April"@[1] == 'p' && "April"@[2] == 'r');
    assert("May"@[0] == 'M' && "May"@[1] == 'a' && "May"@[2] == 'y');
    assert("June"@[0] == 'J' && "June"@[1] == 'u' && "June"@[2] == 'n');
    assert("July"@[0] == 'J' && "July"@[1] == 'u' && "July"@[2] == 'l');
    assert("August"@[0] == 'A' && "August"@[1] == 'u' && "August"@[2] == 'g');
    assert("September"@[0] == 'S' && "September"@[1] == 'e' && "September"@[2] == 'p');
    assert("October"@[0] == 'O' && "October"@[1] == 'c' && "October"@[2] == 't');
    assert("November"@[0] == 'N' && "November"@[1] == 'o' && "November"@[2] == 'v');
    assert("December"@[0] == 'D' && "December"@[1] == 'e' && "December"@[2] == 'c');
}

/// `t` is one to eighteen decimal digits.
pub open spec fn is_number_text(t: Seq<char>) -> bool {
    0 < t.len() <= 18 && forall|i: int| 0 <= i < t.len() ==> is_digit(#[trigger] t[i])
}

/// An entry is ordered by date by the moment its Kindle date names: a date
/// written `weekday month day, year hour:minute:second AM|PM` has the key of
/// its year, month, day, hour of the day on a 24-hour clock (12 AM is hour
/// 0, 12 PM is hour 12, 1 PM is hour 13), minute and second.
pub proof fn law_date_key(
    e: EntryView,
    weekday: Seq<char>,
    month: Seq<char>,
    mo: u64,
    day: Seq<char>,
    year: Seq<char>,
    hour: Seq<char>,
    minute: Seq<char>,
    second: Seq<char>,
    half: Seq<char>,
)
    requires
        e.date == weekday + seq![' '] + month + seq![' '] + day + seq![',', ' '] + year + seq![' ']
            + hour + seq![':'] + minute + seq![':'] + second + seq![' '] + half,
        forall|k: int| 0 <= k < weekday.len() ==> #[trigger] weekday[k] != ' ',
        forall|k: int| 0 <= k < month.len() ==> #[trigger] month[k] != ' ',
        month_number(month) == Some(mo),
        is_number_text(day),
        is_number_text(year),
        is_number_text(hour),
        is_number_text(minute),
        is_number_text(second),
        half == "AM"@ || half == "PM"@,
    ensures
        entry_key(e, SortKey::Date) == seq![
            0u64,
            digits_value(year) as u64,
            mo,
            digits_value(day) as u64,
            (if half == "AM"@ {
                digits_value(hour) % 12
            } else {
                digits_value(hour) % 12 + 12
            }) as u64,
            digits_value(minute) as u64,
            digits_value(second) as u64,
        ],
{
    reveal_strlit("AM");
    reveal_strlit("PM");
    assert("AM"@[0] != "PM"@[0]);
    lemma_digits_value_bound(hour);
    lemma_ten_pow_monotone(hour.len(), 18);
    assert(ten_pow(18) == 1000000000000000000) by {
        reveal_with_fuel(ten_pow, 19);
    }
    let dayc = day + seq![','];
    let clock = hour + seq![':'] + minute + seq![':'] + second;
    let r5 = half;
    let r4 = clock + seq![' '] + r5;
    let r3 = year + seq![' '] + r4;
    let r2 = dayc + seq![' '] + r3;
    let r1 = month + seq![' '] + r2;
    assert(e.date =~= weekday + seq![' '] + r1);
    assert forall|k: int| 0 <= k < dayc.len() implies #[trigger] dayc[k] != ' ' by {
        if k < day.len() {
            assert(dayc[k] == day[k]);
            assert(is_digit(day[k]));
        }
    }
    assert forall|k: int| 0 <= k < year.len() implies #[trigger] year[k] != ' ' by {
        assert(is_digit(year[k]));
    }
    assert forall|k: int| 0 <= k < hour.len() implies #[trigger] hour[k] != ':' && hour[k] != ' ' by {
        assert(is_digit(hour[k]));
    }
    assert forall|k: int| 0 <= k < minute.len() implies #[trigger] minute[k] != ':' && minute[k] != ' ' by {
        assert(is_digit(minute[k]));
    }
    assert forall|k: int| 0 <= k < second.len() implies #[trigger] second[k] != ':' && second[k] != ' ' by {
        assert(is_digit(second[k]));
    }
    assert forall|k: int| 0 <= k < clock.len() implies #[trigger] clock[k] != ' ' by {
        if k < hour.len() {
            assert(clock[k] == hour[k]);
        } else if k == hour.len() {
        } else if k < hour.len() + 1 + minute.len() {
            assert(clock[k] == minute[k - hour.len() - 1]);
        } else if k == hour.len() + 1 + minute.len() {
        } else {
            assert(clock[k] == second[k - hour.len() - 2 - minute.len()]);
        }
    }
    assert forall|k: int| 0 <= k < r5.len() implies #[trigger] r5[k] != ' ' by {}
    lemma_split_word(weekday, r1, ' ');
    lemma_split_word(month, r2, ' ');
    lemma_split_word(dayc, r3, ' ');
    lemma_split_word(year, r4, ' ');
    lemma_split_word(clock, r5, ' ');
    lemma_split_on_absent(r5, ' ');
    let t = split_on(e.date, seq![' ']);
    assert(t =~= seq![weekday, month, dayc, year, clock, r5]);
    assert(dayc.last() == ',');
    assert(dayc.drop_last() =~= day);
    assert(clock =~= hour + seq![':'] + (minute + seq![':'] + second));
    lemma_split_word(hour, minute + seq![':'] + second, ':');
    lemma_split_word(minute, second, ':');
    lemma_split_on_absent(second, ':');
    assert(split_on(clock, seq![':']) =~= seq![hour, minute, second]);
}

proof fn lemma_seq_less_at(a: Seq<u64>, b: Seq<u64>, k: int)
    requires
        0 <= k < a.len(),
        k < b.len(),
        forall|i: int| 0 <= i < k ==> a[i] == b[i],
        a[k] < b[k],
    ensures
        seq_less(a, b),
    decreases k,
{
    if k > 0 {
        assert(a[0] == b[0]);
        assert forall|i: int| 0 <= i < k - 1 implies a.drop_first()[i] == b.drop_first()[i] by {
            assert(a[i + 1] == b[i + 1]);
        }
        lemma_seq_less_at(a.drop_first(), b.drop_first(), k - 1);
    }
}

/// Entries sorted by book are ordered by title first, compared character by
/// character by their codes, a title before a longer one that it begins: where the titles
/// first differ at `k`, or `e`'s title is the first `k` characters of
/// `f`'s, the smaller title comes first, whatever the authors.
pub proof fn law_book_order_by_title(e: EntryView, f: EntryView, k: int)
    requires
        0 <= k <= e.title.len(),
        k <= f.title.len(),
        e.title.take(k) == f.title.take(k),
        (k == e.title.len() && k < f.title.len()) || (k < e.title.len() && k < f.title.len()
            && (e.title[k] as u32) < (f.title[k] as u32)),
    ensures
        seq_less(entry_key(e, SortKey::Book), entry_key(f, SortKey::Book)),
{
    let a = entry_key(e, SortKey::Book);
    let b = entry_key(f, SortKey::Book);
    assert forall|i: int| 0 <= i < k implies a[i] == b[i] by {
        assert(e.title[i] == e.title.take(k)[i]);
        assert(f.title[i] == f.title.take(k)[i]);
    }
    let cf = f.title[k];
    assert(b[k] == (cf as u32) as u64 + 1);
    if k < e.title.len() {
        let ce = e.title[k];
        assert(a[k] == (ce as u32) as u64 + 1);
    } else {
        assert(a[k] == 0);
    }
    lemma_seq_less_at(a, b, k);
}

/// Entries of the same title are ordered by author, compared in the same
/// way: where the authors first differ at `j`, or `e`'s author is the first
/// `j` characters of `f`'s, the smaller author comes first.
pub proof fn law_book_order_by_author(e: EntryView, f: EntryView, j: int)
    requires
        e.title == f.title,
        0 <= j <= e.author.len(),
        j <= f.author.len(),
        e.author.take(j) == f.author.take(j),
        (j == e.author.len() && j < f.author.len()) || (j < e.author.len() && j < f.author.len()
            && (e.author[j] as u32) < (f.author[j] as u32)),
    ensures
        seq_less(entry_key(e, SortKey::Book), entry_key(f, SortKey::Book)),
{
    let x = entry_key(e, SortKey::Book);
    let y = entry_key(f, SortKey::Book);
    let n = e.title.len() + 1;
    assert forall|i: int| 0 <= i < n + j implies x[i] == y[i] by {
        if i >= n {
            assert(e.author[i - n] == e.author.take(j)[i - n]);
            assert(f.author[i - n] == f.author.take(j)[i - n]);
        }
    }
    if j < e.author.len() {
        let ce = e.author[j];
        let cf = f.author[j];

        assert(x[n + j] == (ce as u32) as u64 + 1);
        assert(y[n + j] == (cf as u32) as u64 + 1);
        lemma_seq_less_at(x, y, n + j);
    } else {
        assert(x.len() == n + j);
        assert(y.len() > n + j);
        assert(x =~= y.take(n + j));
        lemma_seq_less_prefix(x, y);
    }
}

proof fn lemma_seq_less_prefix(a: Seq<u64>, b: Seq<u64>)
    requires
        a.len() < b.len(),
        a == b.take(a.len() as int),
    ensures
        seq_less(a, b),
    decreases a.len(),
{
    if a.len() > 0 {
        assert(a.drop_first() =~= b.drop_first().take(a.len() - 1));
        lemma_seq_less_prefix(a.drop_first(), b.drop_first());
    }
}

/// The book of an entry: its title and author.
pub open spec fn book_of(e: EntryView) -> (Seq<char>, Seq<char>) {
    (e.title, e.author)
}

/// The books of `entries`, each once, in the order they first appear.
pub open spec fn books_in_order(entries: Seq<EntryView>) -> Seq<(Seq<char>, Seq<char>)> {
    entries.map_values(|e: EntryView| book_of(e)).remove_duplicates(seq![])
}

/// How many of `entries` belong to `book`.
pub open spec fn count_of_book(entries: Seq<EntryView>, book: (Seq<char>, Seq<char>)) -> nat
    decreases entries.len(),
{
    if entries.len() == 0 {
        0
    } else {
        count_of_book(entries.drop_last(), book) + if book_of(entries.last()) == book {
            1nat
        } else {
            0nat
        }
    }
}

/// The decimal digit `d`.
pub open spec fn digit_char(d: nat) -> char {
    ((48 + d) as u8) as char
}

/// The decimal notation of `n`.
pub open spec fn decimal(n: nat) -> Seq<char>
    decreases n,
{
    if n < 10 {
        seq![digit_char(n)]
    } else {
        decimal(n / 10) + seq![digit_char(n % 10)]
    }
}

/// Returns the decimal notation of `n`.
pub fn decimal_chars(n: usize) -> (v: Vec<char>)
    ensures
        v@ == decimal(n as nat),
    decreases n,
{
    let d = ((48 + n % 10) as u8) as char;
    if n < 10 {
        vec![d]
    } else {
        let mut v = decimal_chars(n / 10);
        v.push(d);
        v
    }
}

/// One line per book after the totals: the book and how many entries it has.
pub open spec fn book_stat_lines(entries: Seq<EntryView>, books: Seq<(Seq<char>, Seq<char>)>) -> Seq<char>
    decreases books.len(),
{
    if books.len() == 0 {
        seq![]
    } else {
        let b = books.last();
        book_stat_lines(entries, books.drop_last()) + "\n- "@ + b.0 + " by "@ + b.1 + ": "@
            + decimal(count_of_book(entries, b))
    }
}

/// The statistics of an export: how many entries across how many books,
/// then each book with its count, in the order books first appear.
pub open spec fn book_stats(entries: Seq<EntryView>) -> Seq<char> {
    "Statistics: "@ + decimal(entries.len()) + " entries across "@ + decimal(
        books_in_order(entries).len(),
    ) + " books"@ + book_stat_lines(entries, books_in_order(entries))
}

proof fn lemma_count_zero(entries: Seq<EntryView>, book: (Seq<char>, Seq<char>))
    requires
        !entries.map_values(|e: EntryView| book_of(e)).contains(book),
    ensures
        count_of_book(entries, book) == 0,
    decreases entries.len(),
{
    if entries.len() > 0 {
        let p = entries.drop_last();
        let m = entries.map_values(|e: EntryView| book_of(e));
        assert(p.map_values(|e: EntryView| book_of(e)) =~= m.drop_last());
        if p.map_values(|e: EntryView| book_of(e)).contains(book) {
            let k = choose|k: int| 0 <= k < m.drop_last().len() && m.drop_last()[k] == book;
            assert(m[k] == book);
        }
        lemma_count_zero(p, book);
        assert(m[m.len() - 1] == book_of(entries.last()));
    }
}

/// Returns the statistics of an export.
pub fn render_book_stats(entries: &[KindleEntry]) -> (s: String)
    ensures
        s@ == book_stats(entry_views(entries@)),
{
    let ghost all = entry_views(entries@);
    let ghost books_of_all = all.map_values(|e: EntryView| book_of(e));
    let mut firsts: Vec<usize> = Vec::new();
    let mut counts: Vec<usize> = Vec::new();
    let mut i: usize = 0;
    assert(books_of_all.take(0).remove_duplicates(seq![]) =~= seq![]);
    while i < entries.len()
        invariant
            0 <= i <= entries@.len(),
            all == entry_views(entries@),
            books_of_all == all.map_values(|e: EntryView| book_of(e)),
            firsts@.len() == counts@.len(),
            firsts@.map_values(|f: usize| book_of(all[f as int])) == books_of_all.take(i as int).remove_duplicates(seq![]),
            forall|k: int| 0 <= k < firsts@.len() ==> #[trigger] firsts@[k] < i,
            forall|k: int|
                0 <= k < counts@.len() ==> #[trigger] counts@[k] == count_of_book(
                    all.take(i as int),
                    book_of(all[firsts@[k] as int]),
                ) && counts@[k] <= i,
        decreases entries.len() - i,
    {
        let ghost books = firsts@.map_values(|f: usize| book_of(all[f as int]));
        let ghost b = book_of(all[i as int]);
        let ghost t = all.take(i + 1);
        proof {
            assert(t.drop_last() =~= all.take(i as int));
            assert(t.last() == all[i as int]);
            assert(books_of_all.take(i + 1) =~= books_of_all.take(i as int) + seq![b]);
            assert(books_of_all.take(i as int) =~= all.take(i as int).map_values(|e: EntryView| book_of(e)));
            books_of_all.take(i as int).lemma_remove_duplicates_properties(seq![]);
            books_of_all.take(i as int).lemma_remove_duplicates_append(b, seq![]);
            assert(books_of_all.take(i as int) + seq![] =~= books_of_all.take(i as int));
            lemma_remove_duplicates_no_duplicates(books_of_all.take(i as int), seq![]);
        }
        let mut found: usize = firsts.len();
        let mut k: usize = 0;
        while k < firsts.len()
            invariant
                0 <= k <= firsts@.len(),
                found == firsts@.len() || (found < k && books[found as int] == b),
                found == firsts@.len() ==> forall|m: int| 0 <= m < k ==> books[m] != b,
                books == firsts@.map_values(|f: usize| book_of(all[f as int])),
                forall|m: int| 0 <= m < firsts@.len() ==> #[trigger] firsts@[m] < i,
                b == book_of(all[i as int]),
                all == entry_views(entries@),
                i < entries@.len(),
            decreases firsts.len() - k,
        {
            if found == firsts.len() {
                let f = firsts[k];
                assert(books[k as int] == book_of(all[f as int]));
                if entries[f].title == entries[i].title && entries[f].author == entries[i].author {
                    found = k;
                }
            }
            k = k + 1;
        }
        let ghost old_counts = counts@;
        let ghost old_firsts = firsts@;
        if found < firsts.len() {
            let c = counts[found];
            counts.set(found, c + 1);
            proof {
                assert forall|m: int| 0 <= m < counts@.len() implies #[trigger] counts@[m]
                    == count_of_book(t, book_of(all[firsts@[m] as int])) && counts@[m] <= i + 1 by {
                    assert(books[m] == book_of(all[firsts@[m] as int]));
                    if m != found {
                        assert(books[m] != books[found as int]);
                    }
                }
                assert(books_of_all.take(i as int).remove_duplicates(seq![]).contains(b)) by {
                    assert(books[found as int] == b);
                }
            }
        } else {
            proof {
                assert(!books.contains(b)) by {
                    if books.contains(b) {
                        let m = choose|m: int| 0 <= m < books.len() && books[m] == b;
                        assert(books[m] != b);
                    }
                }
                assert(!(all.take(i as int).map_values(|e: EntryView| book_of(e))).contains(b));
                lemma_count_zero(all.take(i as int), b);
            }
            firsts.push(i);
            counts.push(1);
            proof {
                assert(firsts@.map_values(|f: usize| book_of(all[f as int])) =~= books.push(b));
                assert(books.push(b) =~= books + seq![b]);
                assert forall|m: int| 0 <= m < counts@.len() implies #[trigger] counts@[m]
                    == count_of_book(t, book_of(all[firsts@[m] as int])) && counts@[m] <= i + 1 by {
                    if m < old_counts.len() {
                        assert(counts@[m] == old_counts[m]);
                        assert(firsts@[m] == old_firsts[m]);
                        assert(books[m] == book_of(all[firsts@[m] as int]));
                        assert(books[m] != b);
                    }
                }
            }
        }
        i = i + 1;
    }
    let ghost books = firsts@.map_values(|f: usize| book_of(all[f as int]));
    assert(all.take(i as int) =~= all);
    assert(books_of_all.take(i as int) =~= books_of_all);
    assert(books == books_in_order(all));
    let mut out = chars_of("Statistics: ");
    append_chars(&mut out, &decimal_chars(entries.len()));
    append_str(&mut out, " entries across ");
    append_chars(&mut out, &decimal_chars(firsts.len()));
    append_str(&mut out, " books");
    let ghost head = out@;
    let mut k: usize = 0;
    while k < firsts.len()
        invariant
            0 <= k <= firsts@.len(),
            firsts@.len() == counts@.len(),
            books == firsts@.map_values(|f: usize| book_of(all[f as int])),
            all == entry_views(entries@),
            forall|m: int| 0 <= m < firsts@.len() ==> #[trigger] firsts@[m] < entries@.len(),
            forall|m: int|
                0 <= m < counts@.len() ==> #[trigger] counts@[m] == count_of_book(all, books[m]),
            out@ == head + book_stat_lines(all, books.take(k as int)),
        decreases firsts.len() - k,
    {
        let f = firsts[k];
        let ghost before = out@;
        append_str(&mut out, "\n- ");
        append_str(&mut out, entries[f].title.as_str());
        append_str(&mut out, " by ");
        append_str(&mut out, entries[f].author.as_str());
        append_str(&mut out, ": ");
        append_chars(&mut out, &decimal_chars(counts[k]));
        proof {
            assert(books[k as int] == book_of(all[f as int]));
            assert(all[f as int] == entries@[f as int]@);
            assert(books.take(k + 1).drop_last() =~= books.take(k as int));
            assert(books.take(k + 1).last() == books[k as int]);
            assert(counts@[k as int] == count_of_book(all, books[k as int]));
        }
        k = k + 1;
    }
    assert(books.take(k as int) =~= books);
    proof {
        assert(all.len() == entries@.len());
    }
    string_from_chars(&out)
}

} // verus!
