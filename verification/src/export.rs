//! Planning the Markdown files of an export: one file, or one file per book.

use vstd::prelude::*;
use crate::clippings::{EntryView, KindleEntry, copy_entry, entry_views};
use crate::process::{book_of, books_in_order, count_of_book};
use crate::markdown::{
    book_rule, book_title, convert_to_markdown, entry_markdown,
    law_markdown_concatenation, lemma_markdown_from_concat, markdown, markdown_from,
};
use crate::paths::{
    default_export_directory, file_name, is_drive_root, join_path, path_file_name, path_join,
    plain_name,
};
use crate::text::{
    append_str, ascii_lowercase, chars_of, concat_all, is_ascii_alphanumeric, is_ascii_text,
    is_ascii_upper, join, lemma_ascii_lower_char, lemma_remove_duplicates_no_duplicates,
    lowercase, string_from_chars, to_lowercase, trim_char, trim_char_chars, trim_char_end,
    trim_char_start,
};

verus! {

/// How an export lays out its Markdown.
#[derive(Debug, Clone, Copy, PartialEq, Eq, Structural)]
pub enum OutputLayout {
    SingleFile,
    ByBook,
}

/// The slug of lower-cased text: each ASCII letter or digit kept, each run
/// of other characters made one `-`. `after_dash` tells whether the text
/// so far ended in such a run.
pub open spec fn slug_chars(cs: Seq<char>, after_dash: bool) -> Seq<char>
    decreases cs.len(),
{
    if cs.len() == 0 {
        seq![]
    } else if is_ascii_alphanumeric(cs[0]) {
        seq![cs[0]] + slug_chars(cs.drop_first(), false)
    } else if !after_dash {
        seq!['-'] + slug_chars(cs.drop_first(), true)
    } else {
        slug_chars(cs.drop_first(), true)
    }
}

/// The slug of lower-cased text, made without dashes at either end;
/// `book` where nothing is left.
pub open spec fn slug_text(lowered: Seq<char>) -> Seq<char> {
    let s = trim_char(slug_chars(lowered, false), '-');
    if s.len() == 0 {
        "book"@
    } else {
        s
    }
}

/// The file name stem of a book: title and author, lower-cased, made a slug.
pub open spec fn book_slug(title: Seq<char>, author: Seq<char>) -> Seq<char> {
    slug_text(lowercase(title + seq![' '] + author))
}

/// `s` is a slug: not empty, made of ASCII letters, digits and single dashes,
/// with no dash at either end.
pub open spec fn is_slug(s: Seq<char>) -> bool {
    &&& s.len() > 0
    &&& forall|i: int| 0 <= i < s.len() ==> is_ascii_alphanumeric(#[trigger] s[i]) || s[i] == '-'
    &&& s[0] != '-'
    &&& s.last() != '-'
    &&& forall|i: int| 0 <= i < s.len() - 1 ==> !(#[trigger] s[i] == '-' && s[i + 1] == '-')
}

/// Returns the slug of lower-cased text.
pub fn slug_of_lowered(lowered: &str) -> (slug: String)
    ensures
        slug@ == slug_text(lowered@),
{
    let lower = chars_of(lowered);
    let ghost cs = lower@;
    let mut slug: Vec<char> = Vec::new();
    let mut after_dash = false;
    let mut i: usize = 0;
    assert(cs.skip(0) =~= cs);
    while i < lower.len()
        invariant
            0 <= i <= lower@.len(),
            cs == lower@,
            slug@ + slug_chars(cs.skip(i as int), after_dash) == slug_chars(cs, false),
        decreases lower.len() - i,
    {
        let ch = lower[i];
        let ghost rest = cs.skip(i as int);
        assert(rest[0] == ch);
        assert(rest.drop_first() =~= cs.skip(i + 1));
        let ghost before = slug@;
        if ('0' <= ch && ch <= '9') || ('a' <= ch && ch <= 'z') || ('A' <= ch && ch <= 'Z') {
            slug.push(ch);
            after_dash = false;
            assert(slug@ =~= before + seq![ch]);
        } else if !after_dash {
            slug.push('-');
            after_dash = true;
            assert(slug@ =~= before + seq!['-']);
        }
        i = i + 1;
    }
    assert(cs.skip(i as int) =~= seq![]);
    assert(slug@ + seq![] =~= slug@);
    let trimmed = trim_char_chars(&slug, '-');
    if trimmed.len() == 0 {
        "book".to_owned()
    } else {
        string_from_chars(&trimmed)
    }
}

/// Returns the slug of a book's title and author, the stem of its file name.
/// For ASCII text the lower-casing makes capital letters small and keeps
/// every other character.
pub fn slugify_book_title(title: &str, author: &str) -> (slug: String)
    ensures
        slug@ == book_slug(title@, author@),
        is_ascii_text(title@ + seq![' '] + author@) ==> slug@ == slug_text(
            ascii_lowercase(title@ + seq![' '] + author@),
        ),
{
    let mut combined = chars_of(title);
    combined.push(' ');
    let a = chars_of(author);
    let mut k: usize = 0;
    while k < a.len()
        invariant
            0 <= k <= a@.len(),
            a@ == author@,
            combined@ == title@ + seq![' '] + a@.take(k as int),
        decreases a.len() - k,
    {
        combined.push(a[k]);
        k = k + 1;
        proof {
            assert(a@.take(k as int) =~= a@.take(k - 1) + seq![a@[k - 1]]);
        }
    }
    assert(a@.take(k as int) =~= a@);
    let lower = to_lowercase(string_from_chars(&combined).as_str());
    slug_of_lowered(lower.as_str())
}

proof fn lemma_slug_chars_shape(cs: Seq<char>, after_dash: bool)
    ensures
        forall|i: int|
            0 <= i < slug_chars(cs, after_dash).len() ==> is_ascii_alphanumeric(
                #[trigger] slug_chars(cs, after_dash)[i],
            ) || slug_chars(cs, after_dash)[i] == '-',
        forall|i: int|
            0 <= i < slug_chars(cs, after_dash).len() - 1 ==> !(#[trigger] slug_chars(
                cs,
                after_dash,
            )[i] == '-' && slug_chars(cs, after_dash)[i + 1] == '-'),
        after_dash && slug_chars(cs, after_dash).len() > 0 ==> slug_chars(cs, after_dash)[0]
            != '-',
    decreases cs.len(),
{
    if cs.len() > 0 {
        let rest = cs.drop_first();
        if is_ascii_alphanumeric(cs[0]) {
            lemma_slug_chars_shape(rest, false);
            let t = slug_chars(rest, false);
            assert forall|i: int| 0 <= i < t.len() + 1 implies #[trigger] (seq![cs[0]] + t)[i]
                == cs[0] || (seq![cs[0]] + t)[i] == t[i - 1] by {}
        } else if !after_dash {
            lemma_slug_chars_shape(rest, true);
            let t = slug_chars(rest, true);
            assert forall|i: int| 0 <= i < t.len() + 1 implies #[trigger] (seq!['-'] + t)[i] == '-'
                || (seq!['-'] + t)[i] == t[i - 1] by {}
        } else {
            lemma_slug_chars_shape(rest, true);
        }
    }
}

proof fn lemma_trim_char_start_suffix(s: Seq<char>, c: char)
    ensures
        exists|k: int| 0 <= k <= s.len() && trim_char_start(s, c) == #[trigger] s.skip(k),
        trim_char_start(s, c).len() > 0 ==> trim_char_start(s, c)[0] != c,
    decreases s.len(),
{
    if s.len() > 0 && s[0] == c {
        lemma_trim_char_start_suffix(s.drop_first(), c);
        let k = choose|k: int|
            0 <= k <= s.drop_first().len() && trim_char_start(s.drop_first(), c)
                == #[trigger] s.drop_first().skip(k);
        assert(s.drop_first().skip(k) =~= s.skip(k + 1));
    } else {
        assert(s.skip(0) =~= s);
    }
}

proof fn lemma_trim_char_end_prefix(s: Seq<char>, c: char)
    ensures
        exists|k: int| 0 <= k <= s.len() && trim_char_end(s, c) == #[trigger] s.take(k),
        trim_char_end(s, c).len() > 0 ==> trim_char_end(s, c).last() != c,
    decreases s.len(),
{
    if s.len() > 0 && s.last() == c {
        lemma_trim_char_end_prefix(s.drop_last(), c);
        let k = choose|k: int|
            0 <= k <= s.drop_last().len() && trim_char_end(s.drop_last(), c)
                == #[trigger] s.drop_last().take(k);
        assert(s.drop_last().take(k) =~= s.take(k));
    } else {
        assert(s.take(s.len() as int) =~= s);
    }
}

proof fn lemma_slug_chars_no_upper(cs: Seq<char>, after_dash: bool)
    requires
        forall|i: int| 0 <= i < cs.len() ==> !is_ascii_upper(#[trigger] cs[i]),
    ensures
        forall|i: int|
            0 <= i < slug_chars(cs, after_dash).len() ==> !is_ascii_upper(
                #[trigger] slug_chars(cs, after_dash)[i],
            ),
    decreases cs.len(),
{
    if cs.len() > 0 {
        let rest = cs.drop_first();
        assert forall|i: int| 0 <= i < rest.len() implies !is_ascii_upper(#[trigger] rest[i]) by {
            assert(rest[i] == cs[i + 1]);
        }
        lemma_slug_chars_no_upper(rest, false);
        lemma_slug_chars_no_upper(rest, true);
        assert(!is_ascii_upper(cs[0]));
        if is_ascii_alphanumeric(cs[0]) {
            let t = slug_chars(rest, false);
            assert(slug_chars(cs, after_dash) == seq![cs[0]] + t);
            assert forall|i: int| 0 <= i < t.len() + 1 implies !is_ascii_upper(
                #[trigger] (seq![cs[0]] + t)[i],
            ) by {
                if i > 0 {
                    assert((seq![cs[0]] + t)[i] == t[i - 1]);
                }
            }
        } else if !after_dash {
            let t = slug_chars(rest, true);
            assert(slug_chars(cs, after_dash) == seq!['-'] + t);
            assert forall|i: int| 0 <= i < t.len() + 1 implies !is_ascii_upper(
                #[trigger] (seq!['-'] + t)[i],
            ) by {
                if i > 0 {
                    assert((seq!['-'] + t)[i] == t[i - 1]);
                }
            }
        } else {
            assert(slug_chars(cs, after_dash) == slug_chars(rest, true));
        }
    }
}

proof fn lemma_slug_text_shape(lowered: Seq<char>)
    ensures
        is_slug(slug_text(lowered)),
        (forall|i: int| 0 <= i < lowered.len() ==> !is_ascii_upper(#[trigger] lowered[i]))
            ==> forall|i: int|
            0 <= i < slug_text(lowered).len() ==> !is_ascii_upper(#[trigger] slug_text(lowered)[i]),
{
    let raw = slug_chars(lowered, false);
    lemma_slug_chars_shape(lowered, false);
    let front = trim_char_start(raw, '-');
    lemma_trim_char_start_suffix(raw, '-');
    let k1 = choose|k: int| 0 <= k <= raw.len() && front == #[trigger] raw.skip(k);
    let s = trim_char_end(front, '-');
    lemma_trim_char_end_prefix(front, '-');
    let k2 = choose|k: int| 0 <= k <= front.len() && s == #[trigger] front.take(k);
    assert forall|i: int| 0 <= i < s.len() implies s[i] == raw[i + k1] by {}
    if forall|i: int| 0 <= i < lowered.len() ==> !is_ascii_upper(#[trigger] lowered[i]) {
        lemma_slug_chars_no_upper(lowered, false);
        reveal_strlit("book");
        assert forall|i: int| 0 <= i < slug_text(lowered).len() implies !is_ascii_upper(
            #[trigger] slug_text(lowered)[i],
        ) by {
            if s.len() > 0 {
                assert(s[i] == raw[i + k1]);
            }
        }
    }
    if s.len() > 0 {
        assert(s[0] == front[0]);
        assert forall|i: int| 0 <= i < s.len() implies is_ascii_alphanumeric(#[trigger] s[i])
            || s[i] == '-' by {
            assert(s[i] == raw[i + k1]);
        }
        assert forall|i: int| 0 <= i < s.len() - 1 implies !(#[trigger] s[i] == '-' && s[i + 1]
            == '-') by {
            assert(s[i] == raw[i + k1]);
            assert(s[i + 1] == raw[i + 1 + k1]);
        }
        assert(is_slug(s));
    } else {
        reveal_strlit("book");
        assert("book"@[0] == 'b');
        assert("book"@.last() == 'k');
        assert(is_slug("book"@));
    }
}

/// Every book's file name stem is a slug: not empty, of ASCII letters,
/// digits and single dashes, with no dash at either end.
pub proof fn law_book_slug_shape(title: Seq<char>, author: Seq<char>)
    ensures
        is_slug(book_slug(title, author)),
{
    lemma_slug_text_shape(lowercase(title + seq![' '] + author));
}

proof fn lemma_slug_chars_of_slug(cs: Seq<char>, after_dash: bool)
    requires
        forall|i: int| 0 <= i < cs.len() ==> is_ascii_alphanumeric(#[trigger] cs[i]) || cs[i] == '-',
        forall|i: int| 0 <= i < cs.len() - 1 ==> !(#[trigger] cs[i] == '-' && cs[i + 1] == '-'),
        cs.len() > 0 ==> cs.last() != '-',
        after_dash && cs.len() > 0 ==> cs[0] != '-',
    ensures
        slug_chars(cs + seq![' '], after_dash) == cs + (if after_dash && cs.len() == 0 {
            Seq::<char>::empty()
        } else {
            seq!['-']
        }),
    decreases cs.len(),
{
    let x = cs + seq![' '];
    if cs.len() == 0 {
        assert(x =~= seq![' ']);
        assert(x.drop_first() =~= Seq::<char>::empty());
        assert(!is_ascii_alphanumeric(x[0]));
        assert(slug_chars(Seq::<char>::empty(), true) == Seq::<char>::empty());
        assert(cs + seq!['-'] =~= seq!['-']);
        assert(cs + Seq::<char>::empty() =~= Seq::<char>::empty());
    } else {
        let rest = cs.drop_first();
        assert(x.drop_first() =~= rest + seq![' ']);
        assert(x[0] == cs[0]);
        assert forall|i: int| 0 <= i < rest.len() implies is_ascii_alphanumeric(#[trigger] rest[i])
            || rest[i] == '-' by {
            assert(rest[i] == cs[i + 1]);
        }
        assert forall|i: int| 0 <= i < rest.len() - 1 implies !(#[trigger] rest[i] == '-' && rest[i
            + 1] == '-') by {
            assert(rest[i] == cs[i + 1]);
            assert(rest[i + 1] == cs[i + 2]);
        }
        if rest.len() > 0 {
            assert(rest.last() == cs.last());
        }
        if is_ascii_alphanumeric(cs[0]) {
            lemma_slug_chars_of_slug(rest, false);
            assert(seq![cs[0]] + (rest + seq!['-']) =~= cs + seq!['-']);
        } else {
            assert(cs.len() > 1);
            assert(rest[0] == cs[1]);
            lemma_slug_chars_of_slug(rest, true);
            assert(seq!['-'] + (rest + seq!['-']) =~= cs + seq!['-']);
        }
    }
}

/// Slugging a slug without capital letters again, with no author, gives it
/// back: the slug and a space are ASCII, lower-casing keeps them, and their
/// slug is the slug.
pub proof fn law_slug_of_slug(s: Seq<char>)
    requires
        is_slug(s),
        forall|i: int| 0 <= i < s.len() ==> !is_ascii_upper(#[trigger] s[i]),
    ensures
        is_ascii_text(s + seq![' '] + Seq::<char>::empty()),
        slug_text(ascii_lowercase(s + seq![' '] + Seq::<char>::empty())) == s,
{
    let x = s + seq![' '] + Seq::<char>::empty();
    assert(x =~= s + seq![' ']);
    assert forall|i: int| 0 <= i < x.len() implies (#[trigger] x[i] as u32) < 128 by {
        if i < s.len() {
            assert(x[i] == s[i]);
            assert(is_ascii_alphanumeric(s[i]) || s[i] == '-');
        }
    }
    assert forall|i: int| 0 <= i < x.len() implies !is_ascii_upper(#[trigger] x[i]) by {
        if i < s.len() {
            assert(x[i] == s[i]);
        }
    }
    assert forall|i: int| 0 <= i < x.len() implies #[trigger] ascii_lowercase(x)[i] == x[i] by {
        lemma_ascii_lower_char(x[i]);
    }
    assert(ascii_lowercase(x) =~= s + seq![' ']);
    lemma_slug_chars_of_slug(s, false);
    let t = s + seq!['-'];
    assert(t[0] == s[0]);
    assert(trim_char_start(t, '-') == t);
    assert(t.drop_last() =~= s);
    assert(trim_char_end(s, '-') == s);
    assert(trim_char_end(t, '-') == s);
}

/// Slugging is stable on ASCII text: the slug of a text made small is a slug
/// without capital letters, so slugging it again, with no author, gives it
/// back. `slugify_book_title` makes ASCII text small in this way, so a slug
/// that it returns comes back unchanged when it is slugged again.
pub proof fn law_reslug_is_stable(text: Seq<char>)
    ensures
        is_ascii_text(slug_text(ascii_lowercase(text)) + seq![' '] + Seq::<char>::empty()),
        slug_text(
            ascii_lowercase(slug_text(ascii_lowercase(text)) + seq![' '] + Seq::<char>::empty()),
        ) == slug_text(ascii_lowercase(text)),
{
    let lowered = ascii_lowercase(text);
    assert forall|i: int| 0 <= i < lowered.len() implies !is_ascii_upper(#[trigger] lowered[i]) by {
        lemma_ascii_lower_char(text[i]);
    }
    lemma_slug_text_shape(lowered);
    law_slug_of_slug(slug_text(lowered));
}

/// `a` and `b` belong to the same book: same title and same author.
pub open spec fn same_book(a: EntryView, b: EntryView) -> bool {
    a.title == b.title && a.author == b.author
}

/// The runs of consecutive entries of the same book, in order.
pub open spec fn book_runs(entries: Seq<EntryView>) -> Seq<Seq<EntryView>>
    decreases entries.len(),
{
    if entries.len() == 0 {
        seq![]
    } else {
        let runs = book_runs(entries.drop_last());
        let e = entries.last();
        if runs.len() > 0 && same_book(runs.last().last(), e) {
            runs.update(runs.len() - 1, runs.last().push(e))
        } else {
            runs.push(seq![e])
        }
    }
}

/// A Markdown file to write: where, and what.
pub struct MarkdownFile {
    pub path: String,
    pub content: String,
}

/// The text of a Markdown file's path and content.
pub struct MarkdownFileView {
    pub path: Seq<char>,
    pub content: Seq<char>,
}

impl View for MarkdownFile {
    type V = MarkdownFileView;

    open spec fn view(&self) -> MarkdownFileView {
        MarkdownFileView { path: self.path@, content: self.content@ }
    }
}

/// The views of a sequence of Markdown files.
pub open spec fn file_views(files: Seq<MarkdownFile>) -> Seq<MarkdownFileView> {
    files.map_values(|f: MarkdownFile| f@)
}

/// The file of one book: named by the book's slug under `dir`, holding the
/// Markdown of the book's entries.
pub open spec fn book_file(dir: Seq<char>, title: Seq<char>, author: Seq<char>, entries: Seq<EntryView>) -> MarkdownFileView {
    MarkdownFileView {
        path: path_join(dir, book_slug(title, author) + ".md"@),
        content: markdown(entries),
    }
}

/// The entries of one book, in order.
pub open spec fn entries_of_book(entries: Seq<EntryView>, book: (Seq<char>, Seq<char>)) -> Seq<
    EntryView,
>
    decreases entries.len(),
{
    if entries.len() == 0 {
        seq![]
    } else {
        let rest = entries_of_book(entries.drop_last(), book);
        if book_of(entries.last()) == book {
            rest.push(entries.last())
        } else {
            rest
        }
    }
}

/// The files of a by-book export: one per book, in the order in which the
/// books first appear, each holding all of that book's entries.
pub open spec fn book_files(dir: Seq<char>, entries: Seq<EntryView>) -> Seq<MarkdownFileView> {
    books_in_order(entries).map_values(
        |b: (Seq<char>, Seq<char>)| book_file(dir, b.0, b.1, entries_of_book(entries, b)),
    )
}

/// The file of a single-file export: `clippings.md` under `dir`.
pub open spec fn single_file(dir: Seq<char>, entries: Seq<EntryView>) -> MarkdownFileView {
    MarkdownFileView { path: path_join(dir, "clippings.md"@), content: markdown(entries) }
}

/// The files of an export under `dir` in `layout`.
pub open spec fn output_files(dir: Seq<char>, entries: Seq<EntryView>, layout: OutputLayout) -> Seq<
    MarkdownFileView,
> {
    match layout {
        OutputLayout::SingleFile => seq![single_file(dir, entries)],
        OutputLayout::ByBook => book_files(dir, entries),
    }
}

/// Returns the index of the first entry of each book, in order.
fn book_first_indices(entries: &[KindleEntry]) -> (firsts: Vec<usize>)
    ensures
        firsts@.map_values(|f: usize| book_of(entry_views(entries@)[f as int])) == books_in_order(
            entry_views(entries@),
        ),
        forall|k: int| 0 <= k < firsts@.len() ==> #[trigger] firsts@[k] < entries@.len(),
{
    let ghost all = entry_views(entries@);
    let ghost books_of_all = all.map_values(|e: EntryView| book_of(e));
    let mut firsts: Vec<usize> = Vec::new();
    let mut i: usize = 0;
    assert(books_of_all.take(0).remove_duplicates(seq![]) =~= seq![]);
    while i < entries.len()
        invariant
            0 <= i <= entries@.len(),
            all == entry_views(entries@),
            books_of_all == all.map_values(|e: EntryView| book_of(e)),
            firsts@.map_values(|f: usize| book_of(all[f as int])) == books_of_all.take(
                i as int,
            ).remove_duplicates(seq![]),
            forall|k: int| 0 <= k < firsts@.len() ==> #[trigger] firsts@[k] < i,
        decreases entries.len() - i,
    {
        let ghost books = firsts@.map_values(|f: usize| book_of(all[f as int]));
        let ghost b = book_of(all[i as int]);
        proof {
            assert(books_of_all.take(i + 1) =~= books_of_all.take(i as int) + seq![b]);
            books_of_all.take(i as int).lemma_remove_duplicates_properties(seq![]);
            books_of_all.take(i as int).lemma_remove_duplicates_append(b, seq![]);
            assert(books_of_all.take(i as int) + seq![] =~= books_of_all.take(i as int));
        }
        let mut found = false;
        let mut k: usize = 0;
        while k < firsts.len()
            invariant
                0 <= k <= firsts@.len(),
                found <==> exists|m: int| 0 <= m < k && books[m] == b,
                books == firsts@.map_values(|f: usize| book_of(all[f as int])),
                forall|m: int| 0 <= m < firsts@.len() ==> #[trigger] firsts@[m] < i,
                b == book_of(all[i as int]),
                all == entry_views(entries@),
                i < entries@.len(),
            decreases firsts.len() - k,
        {
            let f = firsts[k];
            assert(books[k as int] == book_of(all[f as int]));
            if entries[f].title == entries[i].title && entries[f].author == entries[i].author {
                found = true;
            }
            k = k + 1;
        }
        if !found {
            firsts.push(i);
            proof {
                assert(!books.contains(b));
                assert(firsts@.map_values(|f: usize| book_of(all[f as int])) =~= books + seq![b]);
            }
        } else {
            proof {
                let m = choose|m: int| 0 <= m < k && books[m] == b;
                assert(books.contains(b));
            }
        }
        i = i + 1;
    }
    assert(books_of_all.take(i as int) =~= books_of_all);
    firsts
}

/// Returns the entries of the book of `entries[first]`, in order.
fn book_entries(entries: &[KindleEntry], first: usize) -> (group: Vec<KindleEntry>)
    requires
        first < entries@.len(),
    ensures
        entry_views(group@) == entries_of_book(
            entry_views(entries@),
            book_of(entry_views(entries@)[first as int]),
        ),
{
    let ghost all = entry_views(entries@);
    let ghost b = book_of(all[first as int]);
    let mut group: Vec<KindleEntry> = Vec::new();
    let mut i: usize = 0;
    assert(all.take(0) =~= seq![]);
    while i < entries.len()
        invariant
            0 <= i <= entries@.len(),
            first < entries@.len(),
            all == entry_views(entries@),
            b == book_of(all[first as int]),
            entry_views(group@) == entries_of_book(all.take(i as int), b),
        decreases entries.len() - i,
    {
        let ghost before = entry_views(group@);
        proof {
            assert(all.take(i + 1).drop_last() =~= all.take(i as int));
            assert(all.take(i + 1).last() == entries@[i as int]@);
        }
        if entries[i].title == entries[first].title && entries[i].author == entries[first].author {
            let e = copy_entry(&entries[i]);
            group.push(e);
            assert(entry_views(group@) =~= before.push(e@));
        }
        i = i + 1;
    }
    assert(all.take(i as int) =~= all);
    group
}

/// Returns the file of one book: named by the book's slug under
/// `output_dir`, holding the Markdown of `entries`.
pub fn book_markdown_file(output_dir: &str, title: &str, author: &str, entries: &[KindleEntry]) -> (file: MarkdownFile)
    ensures
        file@ == book_file(output_dir@, title@, author@, entry_views(entries@)),
{
    let mut name = chars_of(slugify_book_title(title, author).as_str());
    append_str(&mut name, ".md");
    let path = join_path(output_dir, string_from_chars(&name).as_str());
    MarkdownFile { path, content: convert_to_markdown(entries) }
}

/// Returns the files of a by-book export under `output_dir`: one per book,
/// in the order in which the books first appear, each holding all of that
/// book's entries.
pub fn markdown_files_by_book(entries: &[KindleEntry], output_dir: &str) -> (files: Vec<MarkdownFile>)
    ensures
        file_views(files@) == book_files(output_dir@, entry_views(entries@)),
{
    let ghost all = entry_views(entries@);
    let firsts = book_first_indices(entries);
    let ghost books = books_in_order(all);
    let mut files: Vec<MarkdownFile> = Vec::new();
    let mut k: usize = 0;
    while k < firsts.len()
        invariant
            0 <= k <= firsts@.len(),
            all == entry_views(entries@),
            books == books_in_order(all),
            firsts@.map_values(|f: usize| book_of(all[f as int])) == books,
            forall|m: int| 0 <= m < firsts@.len() ==> #[trigger] firsts@[m] < entries@.len(),
            file_views(files@) == books.take(k as int).map_values(
                |b: (Seq<char>, Seq<char>)| book_file(output_dir@, b.0, b.1, entries_of_book(all, b)),
            ),
        decreases firsts.len() - k,
    {
        let f = firsts[k];
        let ghost b = books[k as int];
        assert(b == book_of(all[f as int]));
        let group = book_entries(entries, f);
        let file = book_markdown_file(output_dir, entries[f].title.as_str(), entries[f].author.as_str(), &group);
        let ghost before = file_views(files@);
        files.push(file);
        proof {
            assert(file_views(files@) =~= before.push(file@));
            assert(books.take(k + 1) =~= books.take(k as int).push(b));
        }
        k = k + 1;
    }
    assert(books.take(k as int) =~= books);
    files
}

/// Returns the file of a single-file export: `clippings.md` under
/// `output_dir`, holding the Markdown of all entries.
pub fn single_markdown_file(entries: &[KindleEntry], output_dir: &str) -> (file: MarkdownFile)
    ensures
        file@ == single_file(output_dir@, entry_views(entries@)),
{
    MarkdownFile {
        path: join_path(output_dir, "clippings.md"),
        content: convert_to_markdown(entries),
    }
}

/// Returns the files of an export under `output_dir` in `layout`.
pub fn markdown_output_files(entries: &[KindleEntry], output_dir: &str, layout: OutputLayout) -> (files: Vec<MarkdownFile>)
    ensures
        file_views(files@) == output_files(output_dir@, entry_views(entries@), layout),
{
    match layout {
        OutputLayout::SingleFile => {
            let mut files: Vec<MarkdownFile> = Vec::new();
            let file = single_markdown_file(entries, output_dir);
            files.push(file);
            assert(file_views(files@) =~= seq![file@]);
            files
        },
        OutputLayout::ByBook => markdown_files_by_book(entries, output_dir),
    }
}

proof fn lemma_entries_of_book(entries: Seq<EntryView>, b: (Seq<char>, Seq<char>))
    ensures
        forall|j: int|
            0 <= j < entries_of_book(entries, b).len() ==> book_of(
                #[trigger] entries_of_book(entries, b)[j],
            ) == b,
        entries_of_book(entries, b).len() == count_of_book(entries, b),
        forall|i: int|
            0 <= i < entries.len() && book_of(entries[i]) == b ==> entries_of_book(
                entries,
                b,
            ).contains(#[trigger] entries[i]),
    decreases entries.len(),
{
    if entries.len() > 0 {
        let prev = entries.drop_last();
        let rest = entries_of_book(prev, b);
        lemma_entries_of_book(prev, b);
        let group = entries_of_book(entries, b);
        assert forall|i: int|
            0 <= i < entries.len() && book_of(entries[i]) == b implies group.contains(
            #[trigger] entries[i],
        ) by {
            if i < entries.len() - 1 {
                assert(entries[i] == prev[i]);
                assert(rest.contains(prev[i]));
                let m = choose|m: int| 0 <= m < rest.len() && rest[m] == prev[i];
                if book_of(entries.last()) == b {
                    assert(group[m] == rest[m]);
                }
            } else {
                assert(group[group.len() - 1] == entries.last());
            }
        }
    }
}

/// A by-book export puts every entry in the file of its book and in no
/// other: the books are distinct, every entry's book has a file, the file
/// of a book holds that book's entries only, as many as the book has, and
/// among them every entry of the book.
pub proof fn law_book_files_group_entries(entries: Seq<EntryView>)
    ensures
        books_in_order(entries).no_duplicates(),
        forall|i: int|
            0 <= i < entries.len() ==> books_in_order(entries).contains(
                book_of(#[trigger] entries[i]),
            ),
        forall|b: (Seq<char>, Seq<char>), j: int|
            0 <= j < entries_of_book(entries, b).len() ==> book_of(
                #[trigger] entries_of_book(entries, b)[j],
            ) == b,
        forall|b: (Seq<char>, Seq<char>)|
            #[trigger] entries_of_book(entries, b).len() == count_of_book(entries, b),
        forall|i: int|
            0 <= i < entries.len() ==> entries_of_book(entries, book_of(entries[i])).contains(
                #[trigger] entries[i],
            ),
{
    let keys = entries.map_values(|e: EntryView| book_of(e));
    lemma_remove_duplicates_no_duplicates(keys, seq![]);
    keys.lemma_remove_duplicates_properties(seq![]);
    assert(keys + seq![] =~= keys);
    assert forall|i: int| 0 <= i < entries.len() implies books_in_order(entries).contains(
        book_of(#[trigger] entries[i]),
    ) by {
        assert(keys[i] == book_of(entries[i]));
        assert((keys + seq![]).contains(keys[i]));
    }
    assert forall|b: (Seq<char>, Seq<char>), j: int|
        0 <= j < entries_of_book(entries, b).len() implies book_of(
        #[trigger] entries_of_book(entries, b)[j],
    ) == b by {
        lemma_entries_of_book(entries, b);
    }
    assert forall|b: (Seq<char>, Seq<char>)|
        #[trigger] entries_of_book(entries, b).len() == count_of_book(entries, b) by {
        lemma_entries_of_book(entries, b);
    }
    assert forall|i: int| 0 <= i < entries.len() implies entries_of_book(
        entries,
        book_of(entries[i]),
    ).contains(#[trigger] entries[i]) by {
        lemma_entries_of_book(entries, book_of(entries[i]));
    }
}

/// The runs of a book split the entries: they are not empty, hold entries of
/// one book each, follow one another in the order of the entries, and two
/// neighbouring runs belong to different books.
pub proof fn law_book_runs_partition(entries: Seq<EntryView>)
    ensures
        concat_all(book_runs(entries)) == entries,
        forall|k: int| 0 <= k < book_runs(entries).len() ==> #[trigger] book_runs(entries)[k].len() > 0,
        forall|k: int, j: int|
            0 <= k < book_runs(entries).len() && 0 <= j < book_runs(entries)[k].len()
                ==> same_book(book_runs(entries)[k][0], #[trigger] book_runs(entries)[k][j]),
        forall|k: int|
            0 <= k < book_runs(entries).len() - 1 ==> !same_book(
                #[trigger] book_runs(entries)[k].last(),
                book_runs(entries)[k + 1][0],
            ),
    decreases entries.len(),
{
    if entries.len() > 0 {
        let prev = entries.drop_last();
        let x = entries.last();
        let runs = book_runs(prev);
        law_book_runs_partition(prev);
        let new_runs = book_runs(entries);
        if runs.len() > 0 && same_book(runs.last().last(), x) {
            let n = runs.len() - 1;
            assert(new_runs == runs.update(n, runs.last().push(x)));
            assert(new_runs.drop_last() =~= runs.drop_last());
            assert(concat_all(new_runs) =~= concat_all(runs).push(x));
            assert(prev.push(x) =~= entries);
            assert forall|k: int, j: int|
                0 <= k < new_runs.len() && 0 <= j < new_runs[k].len() implies same_book(
                new_runs[k][0],
                #[trigger] new_runs[k][j],
            ) by {
                if k == n && j == new_runs[k].len() - 1 {
                    assert(same_book(runs[n][0], runs[n][runs[n].len() - 1]));
                }
            }
            assert forall|k: int| 0 <= k < new_runs.len() - 1 implies !same_book(
                #[trigger] new_runs[k].last(),
                new_runs[k + 1][0],
            ) by {
                assert(new_runs[k] == runs[k]);
                if k + 1 == n {
                    assert(new_runs[k + 1][0] == runs[n][0]);
                }
            }
        } else {
            assert(new_runs == runs.push(seq![x]));
            assert(new_runs.drop_last() =~= runs);
            assert(prev + seq![x] =~= entries);
            assert forall|k: int| 0 <= k < new_runs.len() - 1 implies !same_book(
                #[trigger] new_runs[k].last(),
                new_runs[k + 1][0],
            ) by {
                assert(new_runs[k] == runs[k]);
            }
        }
    }
}

proof fn lemma_concat_all_last<A>(parts: Seq<Seq<A>>)
    requires
        parts.len() > 0,
        parts.last().len() > 0,
    ensures
        concat_all(parts).len() > 0,
        concat_all(parts).last() == parts.last().last(),
{
}

proof fn lemma_join_extend_last(parts: Seq<Seq<char>>, sep: Seq<char>, tail: Seq<char>)
    requires
        parts.len() > 0,
    ensures
        join(parts.update(parts.len() - 1, parts.last() + tail), sep) == join(parts, sep) + tail,
{
    let updated = parts.update(parts.len() - 1, parts.last() + tail);
    if parts.len() == 1 {
        assert(updated[0] == parts[0] + tail);
    } else {
        assert(updated.drop_last() =~= parts.drop_last());
        assert(join(updated, sep) =~= join(parts, sep) + tail);
    }
}

proof fn lemma_markdown_same_book_push(prev: Seq<EntryView>, x: EntryView)
    requires
        prev.len() > 0,
        book_title(prev.last()) == book_title(x),
    ensures
        markdown(prev.push(x)) == markdown(prev) + entry_markdown(x),
{
    lemma_markdown_from_concat(prev, seq![x], seq![]);
    assert(prev + seq![x] =~= prev.push(x));
    assert(seq![x].drop_first() =~= Seq::<EntryView>::empty());
    assert(seq![x][0] == x);
    assert(markdown_from(Seq::<EntryView>::empty(), book_title(x)) == Seq::<char>::empty());
    assert(markdown_from(seq![x], book_title(x)) =~= entry_markdown(x));
}

proof fn lemma_markdown_of_runs_extend(entries: Seq<EntryView>)
    requires
        entries.len() > 0,
        book_runs(entries.drop_last()).len() > 0,
        same_book(book_runs(entries.drop_last()).last().last(), entries.last()),
        markdown(entries.drop_last()) == join(
            run_markdowns(book_runs(entries.drop_last())),
            book_rule(),
        ),
    ensures
        markdown(entries) == join(run_markdowns(book_runs(entries)), book_rule()),
{
    let prev = entries.drop_last();
    let x = entries.last();
    let runs = book_runs(prev);
    let n = runs.len() - 1;
    let last_run = runs.last();
    law_book_runs_partition(prev);
    lemma_concat_all_last(runs);
    assert(prev.push(x) =~= entries);
    lemma_markdown_same_book_push(prev, x);
    lemma_markdown_same_book_push(last_run, x);
    let ms = run_markdowns(runs);
    assert(run_markdowns(book_runs(entries)) =~= ms.update(n, ms.last() + entry_markdown(x)));
    lemma_join_extend_last(ms, book_rule(), entry_markdown(x));
}

proof fn lemma_markdown_of_runs_new(entries: Seq<EntryView>)
    requires
        entries.len() > 1,
        book_runs(entries.drop_last()).len() > 0,
        !same_book(book_runs(entries.drop_last()).last().last(), entries.last()),
        book_title(entries.drop_last().last()) != book_title(entries.last()),
        markdown(entries.drop_last()) == join(
            run_markdowns(book_runs(entries.drop_last())),
            book_rule(),
        ),
    ensures
        markdown(entries) == join(run_markdowns(book_runs(entries)), book_rule()),
{
    let prev = entries.drop_last();
    let x = entries.last();
    let runs = book_runs(prev);
    let ms = run_markdowns(runs);
    assert(prev + seq![x] =~= entries);
    assert(run_markdowns(book_runs(entries)) =~= ms.push(markdown(seq![x])));
    law_markdown_concatenation(prev, seq![x]);
    assert(ms.push(markdown(seq![x])).drop_last() =~= ms);
}

/// No book has two runs: the entries of each book stand together.
pub open spec fn books_stand_together(entries: Seq<EntryView>) -> bool {
    forall|k: int, j: int|
        0 <= k < j < book_runs(entries).len() ==> !same_book(
            #[trigger] book_runs(entries)[k][0],
            #[trigger] book_runs(entries)[j][0],
        )
}

/// The file of each run of entries of one book.
pub open spec fn run_files(dir: Seq<char>, runs: Seq<Seq<EntryView>>) -> Seq<MarkdownFileView> {
    runs.map_values(|run: Seq<EntryView>| book_file(dir, run[0].title, run[0].author, run))
}

proof fn lemma_concat_all_index<A>(parts: Seq<Seq<A>>, i: int)
    requires
        0 <= i < concat_all(parts).len(),
    ensures
        exists|k: int, j: int|
            0 <= k < parts.len() && 0 <= j < parts[k].len() && concat_all(parts)[i] == #[trigger] parts[k][j],
    decreases parts.len(),
{
    if parts.len() > 0 {
        let front = concat_all(parts.drop_last());
        if i < front.len() {
            lemma_concat_all_index(parts.drop_last(), i);
            let (k, j) = choose|k: int, j: int|
                0 <= k < parts.drop_last().len() && 0 <= j < parts.drop_last()[k].len()
                    && front[i] == #[trigger] parts.drop_last()[k][j];
            assert(parts[k] == parts.drop_last()[k]);
            assert(concat_all(parts)[i] == parts[k][j]);
        } else {
            let k = parts.len() - 1;
            assert(concat_all(parts)[i] == parts[k][i - front.len()]);
        }
    }
}

proof fn lemma_entries_of_absent_book(entries: Seq<EntryView>, b: (Seq<char>, Seq<char>))
    requires
        forall|i: int| 0 <= i < entries.len() ==> book_of(#[trigger] entries[i]) != b,
    ensures
        entries_of_book(entries, b) == Seq::<EntryView>::empty(),
    decreases entries.len(),
{
    if entries.len() > 0 {
        let prev = entries.drop_last();
        assert forall|i: int| 0 <= i < prev.len() implies book_of(#[trigger] prev[i]) != b by {
            assert(prev[i] == entries[i]);
        }
        lemma_entries_of_absent_book(prev, b);
        assert(book_of(entries[entries.len() - 1]) != b);
    }
}

proof fn lemma_groups_of_separate_runs(entries: Seq<EntryView>)
    requires
        books_stand_together(entries),
    ensures
        books_in_order(entries) == book_runs(entries).map_values(
            |run: Seq<EntryView>| book_of(run[0]),
        ),
        forall|k: int|
            0 <= k < book_runs(entries).len() ==> entries_of_book(
                entries,
                book_of(#[trigger] book_runs(entries)[k][0]),
            ) == book_runs(entries)[k],
    decreases entries.len(),
{
    let runs = book_runs(entries);
    law_book_runs_partition(entries);
    if entries.len() == 0 {
        assert(books_in_order(entries) =~= Seq::<(Seq<char>, Seq<char>)>::empty());
    } else {
        let prev = entries.drop_last();
        let x = entries.last();
        let old_runs = book_runs(prev);
        law_book_runs_partition(prev);
        let keys = entries.map_values(|e: EntryView| book_of(e));
        let old_keys = prev.map_values(|e: EntryView| book_of(e));
        assert(keys =~= old_keys + seq![book_of(x)]);
        old_keys.lemma_remove_duplicates_properties(seq![]);
        old_keys.lemma_remove_duplicates_append(book_of(x), seq![]);
        assert(old_keys + seq![] =~= old_keys);
        if old_runs.len() > 0 && same_book(old_runs.last().last(), x) {
            let n = old_runs.len() - 1;
            assert(runs == old_runs.update(n, old_runs.last().push(x)));
            assert forall|k: int| 0 <= k < runs.len() implies #[trigger] runs[k][0] == old_runs[k][0] by {
                if k == n {
                    assert(old_runs[n].len() > 0);
                }
            }
            assert(books_stand_together(prev)) by {
                assert forall|k: int, j: int| 0 <= k < j < old_runs.len() implies !same_book(
                    #[trigger] old_runs[k][0],
                    #[trigger] old_runs[j][0],
                ) by {
                    assert(runs[k][0] == old_runs[k][0]);
                    assert(runs[j][0] == old_runs[j][0]);
                }
            }
            lemma_groups_of_separate_runs(prev);
            lemma_concat_all_last(old_runs);
            assert(prev.last() == old_runs.last().last());
            assert(old_keys[prev.len() - 1] == book_of(x));
            assert(old_keys.contains(book_of(x)));
            assert(books_in_order(entries) == books_in_order(prev));
            assert(same_book(old_runs[n][0], old_runs[n][old_runs[n].len() - 1]));
            assert(runs.map_values(|run: Seq<EntryView>| book_of(run[0])) =~= old_runs.map_values(
                |run: Seq<EntryView>| book_of(run[0]),
            ));
            assert forall|k: int| 0 <= k < runs.len() implies entries_of_book(
                entries,
                book_of(#[trigger] runs[k][0]),
            ) == runs[k] by {
                assert(runs[k][0] == old_runs[k][0]);
                let b = book_of(old_runs[k][0]);
                assert(entries_of_book(prev, b) == old_runs[k]);
                if k == n {
                    assert(book_of(x) == b);
                } else {
                    assert(!same_book(runs[k][0], runs[n][0]));
                    assert(book_of(x) != b);
                }
            }
        } else {
            assert(runs == old_runs.push(seq![x]));
            let n = old_runs.len() as int;
            assert forall|k: int| 0 <= k < old_runs.len() implies #[trigger] runs[k] == old_runs[k] by {}
            assert(books_stand_together(prev)) by {
                assert forall|k: int, j: int| 0 <= k < j < old_runs.len() implies !same_book(
                    #[trigger] old_runs[k][0],
                    #[trigger] old_runs[j][0],
                ) by {
                    assert(runs[k] == old_runs[k]);
                    assert(runs[j] == old_runs[j]);
                }
            }
            lemma_groups_of_separate_runs(prev);
            assert(runs[n][0] == x);
            assert forall|i: int| 0 <= i < prev.len() implies book_of(#[trigger] prev[i]) != book_of(x) by {
                lemma_concat_all_index(old_runs, i);
                let (k, j) = choose|k: int, j: int|
                    0 <= k < old_runs.len() && 0 <= j < old_runs[k].len() && concat_all(old_runs)[i]
                        == #[trigger] old_runs[k][j];
                assert(same_book(old_runs[k][0], old_runs[k][j]));
                assert(runs[k] == old_runs[k]);
                assert(!same_book(runs[k][0], runs[n][0]));
            }
            assert(!old_keys.contains(book_of(x))) by {
                if old_keys.contains(book_of(x)) {
                    let i = choose|i: int| 0 <= i < old_keys.len() && old_keys[i] == book_of(x);
                    assert(old_keys[i] == book_of(prev[i]));
                }
            }
            lemma_entries_of_absent_book(prev, book_of(x));
            assert(runs.map_values(|run: Seq<EntryView>| book_of(run[0])) =~= old_runs.map_values(
                |run: Seq<EntryView>| book_of(run[0]),
            ).push(book_of(x)));
            assert forall|k: int| 0 <= k < runs.len() implies entries_of_book(
                entries,
                book_of(#[trigger] runs[k][0]),
            ) == runs[k] by {
                if k == n {
                    assert(entries_of_book(entries, book_of(x)) =~= seq![x]);
                } else {
                    assert(runs[k] == old_runs[k]);
                    let b = book_of(old_runs[k][0]);
                    assert(entries_of_book(prev, b) == old_runs[k]);
                    assert(!same_book(runs[k][0], runs[n][0]));
                    assert(book_of(x) != b);
                }
            }
        }
    }
}

/// Where the entries of each book stand together, the by-book export is one
/// file per run of entries, in order, each holding its run.
pub proof fn law_book_files_of_runs(dir: Seq<char>, entries: Seq<EntryView>)
    requires
        books_stand_together(entries),
    ensures
        book_files(dir, entries) == run_files(dir, book_runs(entries)),
{
    let runs = book_runs(entries);
    lemma_groups_of_separate_runs(entries);
    assert(book_files(dir, entries) =~= run_files(dir, runs));
}

/// The Markdown of the book runs.
pub open spec fn run_markdowns(runs: Seq<Seq<EntryView>>) -> Seq<Seq<char>> {
    runs.map_values(|run: Seq<EntryView>| markdown(run))
}

/// Whether two neighbouring entries of different books never share the
/// heading text `title by author`.
pub open spec fn headings_tell_books_apart(entries: Seq<EntryView>) -> bool {
    forall|i: int|
        0 <= i < entries.len() - 1 ==> (book_title(#[trigger] entries[i]) == book_title(
            entries[i + 1],
        ) ==> same_book(entries[i], entries[i + 1]))
}

/// The Markdown document is the documents of the runs of consecutive entries
/// of one book, joined with a horizontal rule: each run is a section of its
/// own. This fails only where two neighbouring entries of different books
/// share the heading text `title by author`.
pub proof fn law_markdown_of_runs(entries: Seq<EntryView>)
    requires
        headings_tell_books_apart(entries),
    ensures
        markdown(entries) == join(run_markdowns(book_runs(entries)), book_rule()),
    decreases entries.len(),
{
    if entries.len() > 0 {
        let prev = entries.drop_last();
        let x = entries.last();
        let runs = book_runs(prev);
        assert(headings_tell_books_apart(prev)) by {
            assert forall|i: int| 0 <= i < prev.len() - 1 implies (book_title(#[trigger] prev[i])
                == book_title(prev[i + 1]) ==> same_book(prev[i], prev[i + 1])) by {
                assert(prev[i] == entries[i]);
                assert(prev[i + 1] == entries[i + 1]);
            }
        }
        law_markdown_of_runs(prev);
        if runs.len() == 0 {
            law_book_runs_partition(prev);
            assert(prev =~= seq![]);
            assert(entries =~= seq![x]);
        } else if same_book(runs.last().last(), x) {
            lemma_markdown_of_runs_extend(entries);
        } else {
            law_book_runs_partition(prev);
            lemma_concat_all_last(runs);
            let i = prev.len() - 1;
            assert(entries[i] == prev.last());
            assert(entries[i + 1] == x);
            lemma_markdown_of_runs_new(entries);
        }
    }
}

/// Where an export goes: one file, or a folder.
#[derive(Debug, Clone, PartialEq, Eq)]
pub enum OutputTarget {
    File(String),
    Directory(String),
}

/// The text of an output target: whether it is a file, and its path.
pub open spec fn target_view(t: OutputTarget) -> (bool, Seq<char>) {
    match t {
        OutputTarget::File(p) => (true, p@),
        OutputTarget::Directory(p) => (false, p@),
    }
}

/// The target of an export: an explicit output is a file for a single-file
/// export and a folder for a by-book one; without one, the default folder.
pub open spec fn spec_output_target(layout: OutputLayout, output: Option<Seq<char>>) -> (bool, Seq<char>) {
    match output {
        Some(p) => (layout == OutputLayout::SingleFile, p),
        None => (false, "clippings"@),
    }
}

/// Returns the target of an export in `layout` to `output`, or to the
/// default folder.
pub fn resolve_output_target(layout: OutputLayout, output: Option<&str>) -> (t: OutputTarget)
    ensures
        target_view(t) == spec_output_target(
            layout,
            match output {
                Some(p) => Some(p@),
                None => None,
            },
        ),
{
    match output {
        Some(p) => match layout {
            OutputLayout::SingleFile => OutputTarget::File(p.to_owned()),
            OutputLayout::ByBook => OutputTarget::Directory(p.to_owned()),
        },
        None => OutputTarget::Directory(default_export_directory()),
    }
}

/// The characters of `p` before its last `/`; none where it has no `/`.
pub open spec fn before_last_slash(p: Seq<char>) -> Seq<char>
    decreases p.len(),
{
    if p.len() == 0 {
        seq![]
    } else if p.last() == '/' {
        p.drop_last()
    } else {
        before_last_slash(p.drop_last())
    }
}

/// The folder that holds the file at `p`: the text before its last `/`, or
/// `/` for a file at the root.
pub open spec fn containing_folder(p: Seq<char>) -> Seq<char> {
    let b = before_last_slash(p);
    if b.len() == 0 && p.len() > 0 && p[0] == '/' {
        seq!['/']
    } else {
        b
    }
}

proof fn lemma_before_last_slash_of_join(d: Seq<char>, n: Seq<char>)
    requires
        forall|i: int| 0 <= i < n.len() ==> #[trigger] n[i] != '/',
    ensures
        before_last_slash(d + seq!['/'] + n) == d,
    decreases n.len(),
{
    let p = d + seq!['/'] + n;
    if n.len() == 0 {
        assert(p.drop_last() =~= d);
    } else {
        assert(p.last() == n[n.len() - 1]);
        assert(p.drop_last() =~= d + seq!['/'] + n.drop_last());
        assert forall|i: int| 0 <= i < n.drop_last().len() implies #[trigger] n.drop_last()[i]
            != '/' by {
            assert(n.drop_last()[i] == n[i]);
        }
        lemma_before_last_slash_of_join(d, n.drop_last());
    }
}

/// The folder of a file is the path without its last component: a file
/// named `n` joined onto a folder `d` lies in `d`, so a raw copy next to it
/// goes into `d` under the raw file's name. This holds for every folder but
/// an empty one, one that ends in `/` other than the root itself, and a
/// Windows drive root.
pub proof fn law_containing_folder_of_join(d: Seq<char>, n: Seq<char>, input: Seq<char>)
    requires
        plain_name(n),
        d.len() > 0,
        d.last() != '/' || d == seq!['/'],
        !is_drive_root(d),
    ensures
        containing_folder(path_join(d, n)) == d,
        raw_destination(input, (true, path_join(d, n))) == path_join(d, raw_file_name(input)),
{
    assert(n[0] != '/');
    if d == seq!['/'] {
        assert(path_join(d, n) == d + n);
        assert(d + n =~= Seq::<char>::empty() + seq!['/'] + n);
        lemma_before_last_slash_of_join(Seq::<char>::empty(), n);
        assert((d + n)[0] == '/');
    } else {
        assert(path_join(d, n) == d + seq!['/'] + n);
        lemma_before_last_slash_of_join(d, n);
    }
}

/// A by-book export writes one file per book, whatever the number of books:
/// the file of the `k`-th book to appear is named by the slug of its title
/// and author under `dir` and holds the Markdown of that book's entries, and
/// every entry's book has its file. A single-file export writes
/// `clippings.md` under `dir`, holding the Markdown of all entries.
pub proof fn law_output_files(dir: Seq<char>, entries: Seq<EntryView>)
    ensures
        output_files(dir, entries, OutputLayout::ByBook).len() == books_in_order(entries).len(),
        forall|k: int|
            0 <= k < books_in_order(entries).len() ==> (#[trigger] output_files(
                dir,
                entries,
                OutputLayout::ByBook,
            )[k]).path == path_join(
                dir,
                book_slug(books_in_order(entries)[k].0, books_in_order(entries)[k].1) + ".md"@,
            ) && output_files(dir, entries, OutputLayout::ByBook)[k].content == markdown(
                entries_of_book(entries, books_in_order(entries)[k]),
            ),
        forall|i: int|
            0 <= i < entries.len() ==> exists|k: int|
                0 <= k < books_in_order(entries).len() && books_in_order(entries)[k] == book_of(
                    #[trigger] entries[i],
                ) && output_files(dir, entries, OutputLayout::ByBook)[k].path == path_join(
                    dir,
                    book_slug(entries[i].title, entries[i].author) + ".md"@,
                ),
        output_files(dir, entries, OutputLayout::SingleFile).len() == 1,
        output_files(dir, entries, OutputLayout::SingleFile)[0].path == path_join(
            dir,
            "clippings.md"@,
        ),
        output_files(dir, entries, OutputLayout::SingleFile)[0].content == markdown(entries),
{
    let books = books_in_order(entries);
    let files = output_files(dir, entries, OutputLayout::ByBook);
    law_book_files_group_entries(entries);
    assert forall|i: int| 0 <= i < entries.len() implies exists|k: int|
        0 <= k < books.len() && books[k] == book_of(#[trigger] entries[i]) && files[k].path
            == path_join(dir, book_slug(entries[i].title, entries[i].author) + ".md"@) by {
        assert(books.contains(book_of(entries[i])));
        let k = choose|k: int| 0 <= k < books.len() && books[k] == book_of(entries[i]);
        assert(files[k].path == path_join(dir, book_slug(books[k].0, books[k].1) + ".md"@));
    }
}

/// Returns the characters of `cs` before its last `/`.
fn before_last_slash_chars(cs: &Vec<char>) -> (b: Vec<char>)
    ensures
        b@ == before_last_slash(cs@),
{
    let mut k: usize = cs.len();
    assert(cs@.take(k as int) =~= cs@);
    while k > 0 && cs[k - 1] != '/'
        invariant
            k <= cs@.len(),
            before_last_slash(cs@) == before_last_slash(cs@.take(k as int)),
        decreases k,
    {
        assert(cs@.take(k as int).drop_last() =~= cs@.take(k - 1));
        k = k - 1;
    }
    if k > 0 {
        assert(cs@.take(k as int).drop_last() =~= cs@.take(k - 1));
        crate::text::slice_chars(cs, 0, k - 1)
    } else {
        assert(cs@.take(0) =~= Seq::<char>::empty());
        Vec::new()
    }
}

/// Returns the folder that holds the file at `p`.
pub fn containing_folder_of(p: &str) -> (f: String)
    ensures
        f@ == containing_folder(p@),
{
    let cs = chars_of(p);
    let b = before_last_slash_chars(&cs);
    if b.len() == 0 && cs.len() > 0 && cs[0] == '/' {
        proof {
            reveal_strlit("/");
            assert("/"@ =~= seq!['/']);
        }
        "/".to_owned()
    } else {
        string_from_chars(&b)
    }
}

/// The name a raw copy of the clippings at `input` keeps: the input's file
/// name, or `My Clippings.txt` where it has none.
pub open spec fn raw_file_name(input: Seq<char>) -> Seq<char> {
    match file_name(input) {
        Some(n) => n,
        None => "My Clippings.txt"@,
    }
}

/// Where the raw copy of the clippings at `input` goes for an export to
/// `target`: next to the exported file, or inside the export folder.
pub open spec fn raw_destination(input: Seq<char>, target: (bool, Seq<char>)) -> Seq<char> {
    if target.0 {
        path_join(containing_folder(target.1), raw_file_name(input))
    } else {
        path_join(target.1, raw_file_name(input))
    }
}

/// Returns the name that a raw copy of the clippings at `input` keeps.
pub fn raw_file_name_of(input: &str) -> (n: String)
    ensures
        n@ == raw_file_name(input@),
{
    match path_file_name(input) {
        Some(n) => n,
        None => "My Clippings.txt".to_owned(),
    }
}

/// Returns where the raw copy of the clippings at `input_path` goes for an
/// export to `target`: next to the exported file, or inside the export folder.
pub fn raw_destination_for_output(input_path: &str, target: &OutputTarget) -> (p: String)
    ensures
        p@ == raw_destination(input_path@, target_view(*target)),
{
    let name = raw_file_name_of(input_path);
    match target {
        OutputTarget::File(path) => {
            let folder = containing_folder_of(path.as_str());
            join_path(folder.as_str(), name.as_str())
        },
        OutputTarget::Directory(dir) => join_path(dir.as_str(), name.as_str()),
    }
}

} // verus!
