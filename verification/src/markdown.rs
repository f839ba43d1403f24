//! Rendering entries as Markdown.

use vstd::prelude::*;
use crate::clippings::{EntryView, KindleEntry, entry_views};
use crate::text::{
    append_chars, append_str, chars_equal, chars_of, join, split_chars, split_on, string_from_chars,
    views_of,
};

verus! {

/// The rule written between two books.
pub open spec fn book_rule() -> Seq<char> {
    "\n---\n\n"@
}

/// The title of an entry's book as its heading shows it.
pub open spec fn book_title(e: EntryView) -> Seq<char> {
    e.title + " by "@ + e.author
}

/// The heading line that opens a book.
pub open spec fn book_heading(title: Seq<char>) -> Seq<char> {
    "# "@ + title + "\n\n"@
}

/// The line with an entry's location and date.
pub open spec fn location_line(e: EntryView) -> Seq<char> {
    "*Location: "@ + e.location + " | Added: "@ + e.date + "*\n\n"@
}

/// One line of a quote.
pub open spec fn quote_line(line: Seq<char>) -> Seq<char> {
    "> "@ + line
}

/// The quoted lines of a text: each of its lines behind `> `, the lines
/// joined by line feeds again.
pub open spec fn quoted(text: Seq<char>) -> Seq<char> {
    join(split_on(text, seq!['\n']).map_values(|line: Seq<char>| quote_line(line)), seq!['\n'])
}

/// The Markdown of one entry, without its book's heading: a quote of every
/// line for a highlight, a bold callout for a note, a marker for a bookmark, and
/// nothing for any other kind.
pub open spec fn entry_markdown(e: EntryView) -> Seq<char> {
    if e.entry_type == "Highlight"@ {
        quoted(e.content) + "\n\n"@ + location_line(e)
    } else if e.entry_type == "Note"@ {
        "**Note:** "@ + e.content + "\n\n"@ + location_line(e)
    } else if e.entry_type == "Bookmark"@ {
        "**Bookmark** at Location: "@ + e.location + "\n\n"@ + "*Added: "@ + e.date + "*\n\n"@
    } else {
        seq![]
    }
}

/// The Markdown of `entries` when the book last headed is `current`: a
/// heading wherever the book changes, and a rule before each heading but
/// the first.
pub open spec fn markdown_from(entries: Seq<EntryView>, current: Seq<char>) -> Seq<char>
    decreases entries.len(),
{
    if entries.len() == 0 {
        seq![]
    } else {
        let e = entries[0];
        let title = book_title(e);
        if title != current {
            (if current.len() > 0 {
                book_rule()
            } else {
                seq![]
            }) + book_heading(title) + entry_markdown(e) + markdown_from(entries.drop_first(), title)
        } else {
            entry_markdown(e) + markdown_from(entries.drop_first(), current)
        }
    }
}

/// The Markdown document of `entries`.
pub open spec fn markdown(entries: Seq<EntryView>) -> Seq<char> {
    markdown_from(entries, seq![])
}

/// Appends the lines of `text`, each behind `> `.
fn append_quoted(out: &mut Vec<char>, text: &[char])
    ensures
        final(out)@ == old(out)@ + quoted(text@),
{
    let ghost before = out@;
    let newline: Vec<char> = vec!['\n'];
    assert(newline@ =~= seq!['\n']);
    let pieces = split_chars(text, &newline);
    let ghost quotes = split_on(text@, seq!['\n']).map_values(|line: Seq<char>| quote_line(line));
    let mut k: usize = 0;
    assert(quotes.take(0) =~= seq![]);
    while k < pieces.len()
        invariant
            0 <= k <= pieces@.len(),
            views_of(pieces@) == split_on(text@, seq!['\n']),
            quotes == split_on(text@, seq!['\n']).map_values(|line: Seq<char>| quote_line(line)),
            quotes.len() == pieces@.len(),
            out@ == before + join(quotes.take(k as int), seq!['\n']),
        decreases pieces.len() - k,
    {
        let ghost mid = out@;
        if k > 0 {
            out.push('\n');
        }
        append_str(out, "> ");
        append_chars(out, &pieces[k]);
        proof {
            let t = quotes.take(k + 1);
            assert(t.drop_last() =~= quotes.take(k as int));
            assert(views_of(pieces@)[k as int] == pieces@[k as int]@);
            assert(t.last() == quote_line(pieces@[k as int]@));
            if k == 0 {
                assert(t.len() == 1);
                assert(out@ =~= before + t[0]);
            } else {
                assert(out@ =~= mid + seq!['\n'] + t.last());
            }
        }
        k = k + 1;
    }
    assert(quotes.take(k as int) =~= quotes);
}

/// Appends the Markdown of one entry, without its book's heading.
fn append_entry_markdown(out: &mut Vec<char>, entry: &KindleEntry)
    ensures
        final(out)@ == old(out)@ + entry_markdown(entry@),
{
    let ghost e = entry@;
    let ghost before = out@;
    let kind = chars_of(entry.entry_type.as_str());
    if chars_equal(&kind, &chars_of("Highlight")) {
        append_quoted(out, &chars_of(entry.content.as_str()));
        append_str(out, "\n\n");
        append_str(out, "*Location: ");
        append_str(out, entry.location.as_str());
        append_str(out, " | Added: ");
        append_str(out, entry.date.as_str());
        append_str(out, "*\n\n");
        assert(out@ =~= before + entry_markdown(e));
    } else if chars_equal(&kind, &chars_of("Note")) {
        append_str(out, "**Note:** ");
        append_str(out, entry.content.as_str());
        append_str(out, "\n\n");
        append_str(out, "*Location: ");
        append_str(out, entry.location.as_str());
        append_str(out, " | Added: ");
        append_str(out, entry.date.as_str());
        append_str(out, "*\n\n");
        assert(out@ =~= before + entry_markdown(e));
    } else if chars_equal(&kind, &chars_of("Bookmark")) {
        append_str(out, "**Bookmark** at Location: ");
        append_str(out, entry.location.as_str());
        append_str(out, "\n\n");
        append_str(out, "*Added: ");
        append_str(out, entry.date.as_str());
        append_str(out, "*\n\n");
        assert(out@ =~= before + entry_markdown(e));
    } else {
        assert(out@ =~= before + entry_markdown(e));
    }
}

/// Renders entries as one Markdown document, grouped into sections by book.
pub fn convert_to_markdown(entries: &[KindleEntry]) -> (md: String)
    ensures
        md@ == markdown(entry_views(entries@)),
{
    let ghost all = entry_views(entries@);
    let mut out: Vec<char> = Vec::new();
    let mut current: Vec<char> = Vec::new();
    let mut i: usize = 0;
    assert(all.skip(0) =~= all);
    assert(out@ + markdown_from(all, current@) =~= markdown(all));
    while i < entries.len()
        invariant
            0 <= i <= entries@.len(),
            all == entry_views(entries@),
            out@ + markdown_from(all.skip(i as int), current@) == markdown(all),
        decreases entries.len() - i,
    {
        let entry = &entries[i];
        let ghost e = entry@;
        let ghost rest = all.skip(i as int);
        assert(rest[0] == e);
        assert(rest.drop_first() =~= all.skip(i + 1));
        let ghost before = out@;
        let mut title = chars_of(entry.title.as_str());
        append_str(&mut title, " by ");
        append_chars(&mut title, &chars_of(entry.author.as_str()));
        assert(title@ == book_title(e));
        if !chars_equal(&title, &current) {
            if current.len() > 0 {
                append_str(&mut out, "\n---\n\n");
            }
            append_str(&mut out, "# ");
            append_chars(&mut out, &title);
            append_str(&mut out, "\n\n");
            assert(out@ =~= before + (if current@.len() > 0 {
                book_rule()
            } else {
                seq![]
            }) + book_heading(title@));
            current = title;
        }
        let ghost mid = out@;
        append_entry_markdown(&mut out, entry);
        assert(out@ =~= mid + entry_markdown(e));
        i = i + 1;
    }
    assert(all.skip(i as int) =~= seq![]);
    assert(out@ + seq![] =~= out@);
    string_from_chars(&out)
}

/// The book last headed after rendering `entries` from `current`.
pub open spec fn last_book(entries: Seq<EntryView>, current: Seq<char>) -> Seq<char> {
    if entries.len() == 0 {
        current
    } else {
        book_title(entries.last())
    }
}

pub(crate) proof fn lemma_book_title_nonempty(e: EntryView)
    ensures
        book_title(e).len() > 0,
{
    reveal_strlit(" by ");
}

pub(crate) proof fn lemma_markdown_from_concat(a: Seq<EntryView>, b: Seq<EntryView>, current: Seq<char>)
    ensures
        markdown_from(a + b, current) == markdown_from(a, current) + markdown_from(
            b,
            last_book(a, current),
        ),
    decreases a.len(),
{
    if a.len() == 0 {
        assert(a + b =~= b);
    } else {
        let e = a[0];
        let title = book_title(e);
        assert((a + b)[0] == e);
        assert((a + b).drop_first() =~= a.drop_first() + b);
        lemma_markdown_from_concat(a.drop_first(), b, title);
        if a.len() > 1 {
            assert(a.drop_first().last() == a.last());
        }
        assert(last_book(a.drop_first(), title) == last_book(a, current));
    }
}

proof fn lemma_markdown_from_new_book(b: Seq<EntryView>, current: Seq<char>)
    requires
        current.len() > 0,
        b.len() > 0,
        book_title(b[0]) != current,
    ensures
        markdown_from(b, current) == book_rule() + markdown(b),
{
    lemma_book_title_nonempty(b[0]);
    assert(book_title(b[0]) != Seq::<char>::empty());
}

/// Rendering two runs of entries where the book changes between them gives
/// the document of the first, a horizontal rule, and the document of the
/// second: books are separated by a rule, whatever comes before them.
pub proof fn law_markdown_concatenation(a: Seq<EntryView>, b: Seq<EntryView>)
    requires
        a.len() > 0,
        b.len() > 0,
        book_title(a.last()) != book_title(b[0]),
    ensures
        markdown(a + b) == markdown(a) + book_rule() + markdown(b),
{
    lemma_markdown_from_concat(a, b, seq![]);
    lemma_book_title_nonempty(a.last());
    lemma_markdown_from_new_book(b, book_title(a.last()));
}

/// Every entry's Markdown appears in the document, in full.
pub proof fn law_markdown_contains_entries(entries: Seq<EntryView>, i: int)
    requires
        0 <= i < entries.len(),
    ensures
        exists|k: int|
            0 <= k && k + entry_markdown(entries[i]).len() <= markdown(entries).len() && #[trigger] markdown(
                entries,
            ).subrange(k, k + entry_markdown(entries[i]).len()) == entry_markdown(entries[i]),
{
    let a = entries.take(i);
    let b = entries.skip(i);
    assert(a + b =~= entries);
    lemma_markdown_from_concat(a, b, seq![]);
    let current = last_book(a, seq![]);
    let e = b[0];
    assert(e == entries[i]);
    let title = book_title(e);
    let head = if title != current {
        (if current.len() > 0 {
            book_rule()
        } else {
            seq![]
        }) + book_heading(title)
    } else {
        seq![]
    };
    let tail = markdown_from(b.drop_first(), title);
    assert(markdown_from(b, current) =~= head + entry_markdown(e) + tail);
    let k: int = (markdown(a).len() + head.len()) as int;
    let doc = markdown(entries);
    assert(doc =~= markdown(a) + head + entry_markdown(e) + tail);
    assert(doc.subrange(k, k + entry_markdown(e).len()) =~= entry_markdown(e));
}

} // verus!
