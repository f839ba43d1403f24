//! Parsing `My Clippings.txt` into entries.

use vstd::prelude::*;
use crate::error::KindleError;
use crate::pattern::{
    CompiledRegex, capture_groups, compile_regex, group_views, regex_capture_groups,
    regex_compiles,
};
use crate::text::{
    append_chars, chars_of, join, join_from, lines, lines_of, lemma_lines_nonempty,
    lemma_split_on_concat, occurs_at, occurs_at_index, split_chars, split_on, string_from_chars,
    lemma_trim_idempotent, trim, trim_chars, views_of,
};

verus! {

/// The line that separates two clippings.
pub const CLIPPING_SEPARATOR: &'static str = "==========";

/// How the second line of a header that Kindle writes on two lines begins.
pub const HEADER_CONTINUATION: &'static str = "- Your ";

/// The pattern of a clipping's header, written on one line: title, author, kind of
/// entry, an optional page (or a bare `on`), location and date.
pub const HEADER_PATTERN: &'static str = r"^(.+?) \((.+?)\) - Your (Highlight|Note|Bookmark) (?:on page \d+ \| |on )?Location ([^|]+) \| Added on (.+)$";

/// One highlight, note or bookmark.
#[derive(Debug, Clone, PartialEq, Eq)]
pub struct KindleEntry {
    pub title: String,
    pub author: String,
    pub entry_type: String,
    pub location: String,
    pub date: String,
    pub content: String,
}

/// The text of an entry's fields.
pub struct EntryView {
    pub title: Seq<char>,
    pub author: Seq<char>,
    pub entry_type: Seq<char>,
    pub location: Seq<char>,
    pub date: Seq<char>,
    pub content: Seq<char>,
}

impl View for KindleEntry {
    type V = EntryView;

    open spec fn view(&self) -> EntryView {
        EntryView {
            title: self.title@,
            author: self.author@,
            entry_type: self.entry_type@,
            location: self.location@,
            date: self.date@,
            content: self.content@,
        }
    }
}

/// Returns a copy of an entry.
pub(crate) fn copy_entry(e: &KindleEntry) -> (c: KindleEntry)
    ensures
        c@ == e@,
{
    KindleEntry {
        title: e.title.clone(),
        author: e.author.clone(),
        entry_type: e.entry_type.clone(),
        location: e.location.clone(),
        date: e.date.clone(),
        content: e.content.clone(),
    }
}

/// The views of a sequence of entries.
pub open spec fn entry_views(entries: Seq<KindleEntry>) -> Seq<EntryView> {
    entries.map_values(|e: KindleEntry| e@)
}

/// The entry that the capture groups of a header and the clipping's text
/// make: title, author and kind from groups 1 to 3, location and date from
/// groups 4 and 5 without surrounding white space; none where one of these
/// groups is missing.
pub open spec fn entry_from_groups(groups: Seq<Option<Seq<char>>>, content: Seq<char>) -> Option<
    EntryView,
> {
    if groups.len() >= 6 && groups[1] is Some && groups[2] is Some && groups[3] is Some
        && groups[4] is Some && groups[5] is Some {
        Some(
            EntryView {
                title: groups[1]->0,
                author: groups[2]->0,
                entry_type: groups[3]->0,
                location: trim(groups[4]->0),
                date: trim(groups[5]->0),
                content,
            },
        )
    } else {
        None
    }
}

/// The lines of a clipping begin with a header on two lines: the second
/// line starts with `HEADER_CONTINUATION`.
pub open spec fn two_line_header(ls: Seq<Seq<char>>) -> bool {
    ls.len() >= 2 && occurs_at(ls[1], HEADER_CONTINUATION@, 0)
}

/// The number of lines that the header of a clipping takes: one where its
/// first line matches `HEADER_PATTERN` on its own; else two where the
/// second line continues the header; else one.
pub open spec fn header_lines(clipping: Seq<char>) -> int {
    let ls = lines(trim(clipping));
    if regex_capture_groups(HEADER_PATTERN@, ls[0]) is None && two_line_header(ls) {
        2
    } else {
        1
    }
}

/// The text of a clipping below its header.
pub open spec fn clipping_body(clipping: Seq<char>) -> Seq<char> {
    trim(join(lines(trim(clipping)).skip(header_lines(clipping)), seq!['\n']))
}

/// The header of a clipping on one line: its first line, and where the
/// header takes two lines, a space and the second.
pub open spec fn clipping_header(clipping: Seq<char>) -> Seq<char> {
    let ls = lines(trim(clipping));
    if header_lines(clipping) == 2 {
        ls[0] + seq![' '] + ls[1]
    } else {
        ls[0]
    }
}

/// The entry of one clipping, if it has one: a clipping that is blank, or
/// whose header does not match `HEADER_PATTERN`, has none.
pub open spec fn clipping_entry(clipping: Seq<char>) -> Option<EntryView> {
    if trim(clipping).len() == 0 {
        None
    } else {
        match regex_capture_groups(HEADER_PATTERN@, clipping_header(clipping)) {
            Some(groups) => entry_from_groups(groups, clipping_body(clipping)),
            None => None,
        }
    }
}

/// The entries of a sequence of clippings, in order.
pub open spec fn entries_of_clippings(clippings: Seq<Seq<char>>) -> Seq<EntryView>
    decreases clippings.len(),
{
    if clippings.len() == 0 {
        seq![]
    } else {
        let rest = entries_of_clippings(clippings.drop_last());
        match clipping_entry(clippings.last()) {
            Some(e) => rest.push(e),
            None => rest,
        }
    }
}

/// The entries of a clippings file, in the order of its clippings.
pub open spec fn parsed_entries(content: Seq<char>) -> Seq<EntryView> {
    entries_of_clippings(split_on(content, CLIPPING_SEPARATOR@))
}

proof fn lemma_entries_of_clippings_concat(x: Seq<Seq<char>>, y: Seq<Seq<char>>)
    ensures
        entries_of_clippings(x + y) == entries_of_clippings(x) + entries_of_clippings(y),
    decreases y.len(),
{
    if y.len() == 0 {
        assert(x + y =~= x);
        assert(entries_of_clippings(x) + seq![] =~= entries_of_clippings(x));
    } else {
        assert((x + y).drop_last() =~= x + y.drop_last());
        lemma_entries_of_clippings_concat(x, y.drop_last());
        match clipping_entry(y.last()) {
            Some(e) => {
                assert(entries_of_clippings(x + y) =~= entries_of_clippings(x)
                    + entries_of_clippings(y));
            },
            None => {},
        }
    }
}

/// Two clippings files joined by a separator line parse to the entries of
/// the first followed by those of the second, wherever the first does not
/// end with `=`: each clipping is read on its own, whatever stands around it.
pub proof fn law_parse_concatenation(a: Seq<char>, b: Seq<char>)
    requires
        a.len() == 0 || a.last() != '=',
    ensures
        parsed_entries(a + CLIPPING_SEPARATOR@ + b) == parsed_entries(a) + parsed_entries(b),
{
    reveal_strlit("==========");
    let sep = CLIPPING_SEPARATOR@;
    assert forall|k: int| 0 <= k < sep.len() implies sep[k] == '=' by {}
    lemma_split_on_concat(a, b, sep, '=');
    lemma_entries_of_clippings_concat(split_on(a, sep), split_on(b, sep));
}

/// A parsed entry's location, date and text have no white space at either
/// end.
pub open spec fn fields_trimmed(e: EntryView) -> bool {
    &&& trim(e.location) == e.location
    &&& trim(e.date) == e.date
    &&& trim(e.content) == e.content
}

proof fn lemma_entries_of_clippings_trimmed(clippings: Seq<Seq<char>>)
    ensures
        forall|i: int|
            0 <= i < entries_of_clippings(clippings).len() ==> fields_trimmed(
                #[trigger] entries_of_clippings(clippings)[i],
            ),
    decreases clippings.len(),
{
    if clippings.len() > 0 {
        let rest = entries_of_clippings(clippings.drop_last());
        lemma_entries_of_clippings_trimmed(clippings.drop_last());
        let c = clippings.last();
        if let Some(e) = clipping_entry(c) {
            let groups = regex_capture_groups(HEADER_PATTERN@, clipping_header(c))->0;
            lemma_trim_idempotent(groups[4]->0);
            lemma_trim_idempotent(groups[5]->0);
            lemma_trim_idempotent(join(lines(trim(c)).skip(header_lines(c)), seq!['\n']));
            assert(fields_trimmed(e));
            assert forall|i: int| 0 <= i < rest.push(e).len() implies fields_trimmed(
                #[trigger] rest.push(e)[i],
            ) by {
                if i < rest.len() {
                    assert(rest.push(e)[i] == rest[i]);
                }
            }
        }
    }
}

/// Every parsed entry's location, date and text are trimmed: none of them
/// begins or ends with white space.
pub proof fn law_parsed_fields_trimmed(content: Seq<char>)
    ensures
        forall|i: int|
            0 <= i < parsed_entries(content).len() ==> fields_trimmed(
                #[trigger] parsed_entries(content)[i],
            ),
{
    lemma_entries_of_clippings_trimmed(split_on(content, CLIPPING_SEPARATOR@));
}

/// Builds the entry that the capture groups of a header describe, with
/// `content` as its text.
pub fn entry_from_captures(groups: &[Option<String>], content: String) -> (r: Option<KindleEntry>)
    ensures
        r is Some <==> entry_from_groups(group_views(groups@), content@) is Some,
        r matches Some(e) ==> e@ == entry_from_groups(group_views(groups@), content@)->0,
{
    let ghost gv = group_views(groups@);
    if groups.len() < 6 {
        return None;
    }
    match (&groups[1], &groups[2], &groups[3], &groups[4], &groups[5]) {
        (Some(title), Some(author), Some(entry_type), Some(location), Some(date)) => {
            assert(gv[1] == Some(title@));
            assert(gv[2] == Some(author@));
            assert(gv[3] == Some(entry_type@));
            assert(gv[4] == Some(location@));
            assert(gv[5] == Some(date@));
            let location = string_from_chars(&trim_chars(&chars_of(location.as_str())));
            let date = string_from_chars(&trim_chars(&chars_of(date.as_str())));
            Some(
                KindleEntry {
                    title: title.clone(),
                    author: author.clone(),
                    entry_type: entry_type.clone(),
                    location,
                    date,
                    content,
                },
            )
        },
        _ => {
            assert(gv[1] is None || gv[2] is None || gv[3] is None || gv[4] is None || gv[5]
                is None);
            None
        },
    }
}

/// Returns the entry of one clipping, using the compiled header pattern.
fn parse_clipping(re: &CompiledRegex, clipping: &[char]) -> (r: Option<KindleEntry>)
    requires
        re.pattern() == HEADER_PATTERN@,
    ensures
        r is Some <==> clipping_entry(clipping@) is Some,
        r matches Some(e) ==> e@ == clipping_entry(clipping@)->0,
{
    let chunk = trim_chars(clipping);
    if chunk.len() == 0 {
        return None;
    }
    let lines = lines_of(&chunk);
    proof {
        lemma_lines_nonempty(chunk@);
    }
    assert(views_of(lines@)[0] == lines@[0]@);
    let first = string_from_chars(&lines[0]);
    let newline = ['\n'];
    assert(newline@ =~= seq!['\n']);
    let mut groups = capture_groups(re, first.as_str());
    let mut skip: usize = 1;
    if groups.is_none() && lines.len() >= 2 {
        let continuation = chars_of(HEADER_CONTINUATION);
        assert(views_of(lines@)[1] == lines@[1]@);
        if occurs_at_index(&lines[1], &continuation, 0) {
            let mut header_chars: Vec<char> = Vec::new();
            append_chars(&mut header_chars, &lines[0]);
            header_chars.push(' ');
            append_chars(&mut header_chars, &lines[1]);
            assert(header_chars@ =~= clipping_header(clipping@));
            let header = string_from_chars(&header_chars);
            groups = capture_groups(re, header.as_str());
            skip = 2;
        }
    }
    assert(skip == header_lines(clipping@));
    let body = trim_chars(&join_from(&lines, skip, &newline));
    let content = string_from_chars(&body);
    match groups {
        Some(groups) => entry_from_captures(&groups, content),
        None => None,
    }
}

/// Parses the text of a `My Clippings.txt` file. Blank clippings and those
/// whose header does not match are skipped.
pub fn parse_kindle_clippings(content: &str) -> (r: Result<Vec<KindleEntry>, KindleError>)
    ensures
        r is Ok <==> regex_compiles(HEADER_PATTERN@),
        r matches Ok(entries) ==> entry_views(entries@) == parsed_entries(content@),
        r matches Err(e) ==> e == KindleError::InvalidHeaderPattern,
{
    let text = chars_of(content);
    let separator = chars_of(CLIPPING_SEPARATOR);
    proof {
        reveal_strlit("==========");
    }
    let chunks = split_chars(&text, &separator);
    let re = match compile_regex(HEADER_PATTERN) {
        Ok(re) => re,
        Err(_) => return Err(KindleError::InvalidHeaderPattern),
    };
    let ghost cs = split_on(content@, CLIPPING_SEPARATOR@);
    let mut entries: Vec<KindleEntry> = Vec::new();
    let mut i: usize = 0;
    while i < chunks.len()
        invariant
            re.pattern() == HEADER_PATTERN@,
            views_of(chunks@) == cs,
            0 <= i <= chunks@.len(),
            entry_views(entries@) == entries_of_clippings(cs.take(i as int)),
        decreases chunks.len() - i,
    {
        let ghost before = entry_views(entries@);
        let parsed = parse_clipping(&re, &chunks[i]);
        proof {
            assert(cs.take(i + 1).drop_last() =~= cs.take(i as int));
            assert(cs.take(i + 1).last() == chunks@[i as int]@);
        }
        let ghost t = cs.take(i + 1);
        assert(t.last() == cs[i as int]);
        assert(views_of(chunks@)[i as int] == chunks@[i as int]@);
        match parsed {
            Some(e) => {
                entries.push(e);
                assert(entry_views(entries@) =~= before + seq![e@]);
                assert(entry_views(entries@) =~= entries_of_clippings(t));
            },
            None => {
                assert(entry_views(entries@) =~= entries_of_clippings(t));
            },
        }
        i = i + 1;
    }
    assert(cs.take(i as int) =~= cs);
    Ok(entries)
}

} // verus!
