//! Paths as text, and where a connected Kindle keeps its clippings.
//!
//! A path is the text of a `/`-separated path. Joining follows
//! `std::path::Path::join` on Unix-like systems, and joins onto a Windows
//! drive root such as `E:\` as Windows does.

use vstd::prelude::*;
use crate::text::{
    append_chars, chars_equal, chars_of, concat_all, lemma_split_on_absent,
    lemma_split_on_concat, lemma_split_on_nonempty, option_view, split_chars, split_on,
    string_from_chars, string_views, views_of,
};

verus! {

/// The platform the program runs on.
#[derive(Debug, Clone, Copy, PartialEq, Eq, Structural)]
pub enum HostPlatform {
    Windows,
    MacOs,
    Linux,
    Wsl,
}

/// `p` is a Windows drive root such as `E:\`.
pub open spec fn is_drive_root(p: Seq<char>) -> bool {
    &&& p.len() == 3
    &&& (('A' <= p[0] && p[0] <= 'Z') || ('a' <= p[0] && p[0] <= 'z'))
    &&& p[1] == ':'
    &&& p[2] == '\\'
}

/// `part` appended to `base` with a `/` between them where needed; an
/// absolute `part` replaces `base`. A base that ends in `/`, or is a
/// Windows drive root such as `E:\`, needs none.
pub open spec fn path_join(base: Seq<char>, part: Seq<char>) -> Seq<char> {
    if part.len() > 0 && part[0] == '/' {
        part
    } else if base.len() == 0 {
        part
    } else if base.last() == '/' || is_drive_root(base) {
        base + part
    } else {
        base + seq!['/'] + part
    }
}

/// Returns `part` appended to `base` as a path.
pub fn join_path(base: &str, part: &str) -> (p: String)
    ensures
        p@ == path_join(base@, part@),
{
    let b = chars_of(base);
    let q = chars_of(part);
    if q.len() > 0 && q[0] == '/' {
        return string_from_chars(&q);
    }
    let drive_root = b.len() == 3 && (('A' <= b[0] && b[0] <= 'Z') || ('a' <= b[0] && b[0] <= 'z'))
        && b[1] == ':' && b[2] == '\\';
    let mut out = b;
    if out.len() > 0 && out[out.len() - 1] != '/' && !drive_root {
        out.push('/');
    }
    append_chars(&mut out, &q);
    string_from_chars(&out)
}

/// The characters after the last `/` of `p`.
pub open spec fn after_last_slash(p: Seq<char>) -> Seq<char>
    decreases p.len(),
{
    if p.len() == 0 || p.last() == '/' {
        seq![]
    } else {
        after_last_slash(p.drop_last()).push(p.last())
    }
}

/// The last component of `p`, as `std::path::Path::file_name` gives it on
/// Unix-like systems: trailing `/` and `.` components are skipped, and there
/// is none where the path ends in `..`, is a root, or is empty.
pub open spec fn file_name(p: Seq<char>) -> Option<Seq<char>>
    decreases p.len(),
{
    if p.len() == 0 {
        None
    } else if p.last() == '/' {
        file_name(p.drop_last())
    } else {
        let c = after_last_slash(p);
        if c == seq!['.'] {
            if c.len() == p.len() {
                None
            } else {
                file_name(p.drop_last())
            }
        } else if c == seq!['.', '.'] {
            None
        } else {
            Some(c)
        }
    }
}

proof fn lemma_after_last_slash_len(p: Seq<char>)
    ensures
        after_last_slash(p).len() <= p.len(),
        after_last_slash(p) == p.skip(p.len() - after_last_slash(p).len()),
    decreases p.len(),
{
    if p.len() > 0 && p.last() != '/' {
        lemma_after_last_slash_len(p.drop_last());
        let a = after_last_slash(p.drop_last());
        assert(p.drop_last().skip(p.drop_last().len() - a.len()).push(p.last()) =~= p.skip(
            p.len() - a.len() - 1,
        ));
    } else {
        assert(p.skip(p.len() as int) =~= seq![]);
    }
}

/// Returns the characters after the last `/` of `p`.
fn after_last_slash_chars(p: &Vec<char>, end: usize) -> (c: Vec<char>)
    requires
        end <= p@.len(),
    ensures
        c@ == after_last_slash(p@.take(end as int)),
{
    let mut k: usize = end;
    while k > 0 && p[k - 1] != '/'
        invariant
            k <= end <= p@.len(),
            after_last_slash(p@.take(end as int)) == after_last_slash(p@.take(k as int)) + p@.subrange(
                k as int,
                end as int,
            ),
        decreases k,
    {
        proof {
            let t = p@.take(k as int);
            assert(t.drop_last() =~= p@.take(k - 1));
            assert(p@.subrange(k - 1, end as int) =~= seq![p@[k - 1]] + p@.subrange(
                k as int,
                end as int,
            ));
        }
        k = k - 1;
    }
    let mut c: Vec<char> = Vec::new();
    let mut m: usize = k;
    while m < end
        invariant
            k <= m <= end <= p@.len(),
            c@ == p@.subrange(k as int, m as int),
        decreases end - m,
    {
        c.push(p[m]);
        m = m + 1;
        proof {
            assert(p@.subrange(k as int, m as int) =~= p@.subrange(k as int, m - 1) + seq![p@[m - 1]]);
        }
    }
    proof {
        assert(after_last_slash(p@.take(k as int)) =~= seq![]);
    }
    c
}

/// Returns the last component of `p`.
pub fn path_file_name(p: &str) -> (r: Option<String>)
    ensures
        r is Some <==> file_name(p@) is Some,
        r matches Some(n) ==> n@ == file_name(p@)->0,
{
    let cs = chars_of(p);
    let mut end: usize = cs.len();
    assert(cs@.take(end as int) =~= cs@);
    loop
        invariant
            end <= cs@.len(),
            file_name(cs@.take(end as int)) == file_name(p@),
            cs@ == p@,
        decreases end,
    {
        if end == 0 {
            return None;
        }
        let ghost t = cs@.take(end as int);
        assert(t.drop_last() =~= cs@.take(end - 1));
        if cs[end - 1] == '/' {
            end = end - 1;
        } else {
            let c = after_last_slash_chars(&cs, end);
            proof {
                lemma_after_last_slash_len(t);
            }
            if c.len() == 1 && c[0] == '.' {
                assert(c@ =~= seq!['.']);
                if c.len() == end {
                    return None;
                }
                end = end - 1;
            } else if c.len() == 2 && c[0] == '.' && c[1] == '.' {
                assert(c@ =~= seq!['.', '.']);
                return None;
            } else {
                assert(c@ != seq!['.']);
                assert(c@ != seq!['.', '.']);
                return Some(string_from_chars(&c));
            }
        }
    }
}

/// A file name as `file_name` gives it: not empty, without `/`, and
/// neither `.` nor `..`.
pub open spec fn plain_name(n: Seq<char>) -> bool {
    &&& n.len() > 0
    &&& forall|i: int| 0 <= i < n.len() ==> #[trigger] n[i] != '/'
    &&& n != seq!['.']
    &&& n != seq!['.', '.']
}

proof fn lemma_after_last_slash_shape(p: Seq<char>)
    ensures
        forall|i: int| 0 <= i < after_last_slash(p).len() ==> #[trigger] after_last_slash(p)[i]
            != '/',
        p.len() > 0 && p.last() != '/' ==> after_last_slash(p).len() > 0,
    decreases p.len(),
{
    if p.len() > 0 && p.last() != '/' {
        lemma_after_last_slash_shape(p.drop_last());
        let a = after_last_slash(p.drop_last());
        assert forall|i: int| 0 <= i < a.push(p.last()).len() implies #[trigger] a.push(p.last())[i]
            != '/' by {
            if i < a.len() {
                assert(a.push(p.last())[i] == a[i]);
            }
        }
    }
}

proof fn lemma_file_name_plain(p: Seq<char>)
    ensures
        file_name(p) matches Some(n) ==> plain_name(n),
    decreases p.len(),
{
    if p.len() > 0 {
        if p.last() == '/' {
            lemma_file_name_plain(p.drop_last());
        } else {
            lemma_after_last_slash_shape(p);
            let c = after_last_slash(p);
            if c == seq!['.'] {
                if c.len() != p.len() {
                    lemma_file_name_plain(p.drop_last());
                }
            }
        }
    }
}

proof fn lemma_after_last_slash_of_name(prefix: Seq<char>, n: Seq<char>)
    requires
        prefix.len() == 0 || prefix.last() == '/',
        forall|i: int| 0 <= i < n.len() ==> #[trigger] n[i] != '/',
    ensures
        after_last_slash(prefix + n) == n,
    decreases n.len(),
{
    if n.len() == 0 {
        assert(prefix + n =~= prefix);
    } else {
        assert((prefix + n).drop_last() =~= prefix + n.drop_last());
        assert(n.last() == n[n.len() - 1]);
        lemma_after_last_slash_of_name(prefix, n.drop_last());
        assert(n.drop_last().push(n.last()) =~= n);
    }
}

/// The last component of a path joined from a folder and a file name is
/// that file name.
pub proof fn lemma_file_name_of_join(dir: Seq<char>, n: Seq<char>)
    requires
        plain_name(n),
        !is_drive_root(dir),
    ensures
        file_name(path_join(dir, n)) == Some(n),
{
    let p = path_join(dir, n);
    assert(n[0] != '/');
    let prefix = if dir.len() == 0 {
        Seq::<char>::empty()
    } else if dir.last() == '/' {
        dir
    } else {
        dir + seq!['/']
    };
    assert(p =~= prefix + n);
    lemma_after_last_slash_of_name(prefix, n);
    assert(p.last() == n[n.len() - 1]);
}

/// The name `file_name` gives is always a plain name.
pub proof fn lemma_file_name_is_plain(p: Seq<char>)
    ensures
        file_name(p) matches Some(n) ==> plain_name(n),
{
    lemma_file_name_plain(p);
}

/// The directory where a pulled clippings file goes by default.
pub open spec fn spec_default_pull_destination() -> Seq<char> {
    path_join("local"@, "my-clippings.txt"@)
}

/// Returns the default destination of a pulled clippings file.
pub fn default_pull_destination() -> (p: String)
    ensures
        p@ == spec_default_pull_destination(),
{
    join_path("local", "my-clippings.txt")
}

/// Returns the default directory of an export.
pub fn default_export_directory() -> (p: String)
    ensures
        p@ == "clippings"@,
{
    "clippings".to_owned()
}

/// The places where a Kindle mounted at `root` keeps `My Clippings.txt`:
/// the root itself, then its `documents` folder.
pub open spec fn clippings_paths(root: Seq<char>) -> Seq<Seq<char>> {
    seq![
        path_join(root, "My Clippings.txt"@),
        path_join(path_join(root, "documents"@), "My Clippings.txt"@),
    ]
}

/// Returns where a Kindle mounted at `root` may keep its clippings.
pub fn clippings_paths_for_device_root(root: &str) -> (paths: [String; 2])
    ensures
        paths@[0]@ == clippings_paths(root@)[0],
        paths@[1]@ == clippings_paths(root@)[1],
{
    let first = join_path(root, "My Clippings.txt");
    let documents = join_path(root, "documents");
    let second = join_path(documents.as_str(), "My Clippings.txt");
    [first, second]
}

/// The drive roots `A:\` to `Z:\` of Windows.
pub open spec fn windows_roots() -> Seq<Seq<char>> {
    Seq::new(26, |i: int| seq![(65 + i) as char, ':', '\\'])
}

/// The drive mounts `/mnt/a` to `/mnt/z` of WSL.
pub open spec fn wsl_roots() -> Seq<Seq<char>> {
    Seq::new(26, |i: int| "/mnt/"@ + seq![(97 + i) as char])
}

/// Returns the drive roots of Windows, from `A:\` to `Z:\`.
pub fn windows_drive_roots() -> (roots: Vec<String>)
    ensures
        string_views(roots@) == windows_roots(),
{
    let mut roots: Vec<String> = Vec::new();
    let mut letter: u8 = 65;
    while letter <= 90
        invariant
            65 <= letter <= 91,
            string_views(roots@) =~= windows_roots().take(letter - 65),
        decreases 91 - letter,
    {
        let root = [letter as char, ':', '\\'];
        let s = string_from_chars(&root);
        let ghost prev = string_views(roots@);
        proof {
            assert(root@ =~= seq![(65 + (letter - 65)) as char, ':', '\\']);
            assert(windows_roots()[letter - 65] == root@);
            assert(windows_roots().take(letter - 64) =~= windows_roots().take(letter - 65).push(
                root@,
            ));
        }
        roots.push(s);
        assert(string_views(roots@) =~= prev.push(s@));
        letter = letter + 1;
    }
    roots
}

/// Returns the drive mounts of WSL, from `/mnt/a` to `/mnt/z`.
pub fn wsl_drive_roots() -> (roots: Vec<String>)
    ensures
        string_views(roots@) == wsl_roots(),
{
    let mut roots: Vec<String> = Vec::new();
    let mut letter: u8 = 97;
    while letter <= 122
        invariant
            97 <= letter <= 123,
            string_views(roots@) =~= wsl_roots().take(letter - 97),
        decreases 123 - letter,
    {
        let mut root = chars_of("/mnt/");
        root.push(letter as char);
        let s = string_from_chars(&root);
        let ghost prev = string_views(roots@);
        proof {
            assert(root@ =~= "/mnt/"@ + seq![(97 + (letter - 97)) as char]);
            assert(wsl_roots()[letter - 97] == root@);
            assert(wsl_roots().take(letter - 96) =~= wsl_roots().take(letter - 97).push(root@));
        }
        roots.push(s);
        assert(string_views(roots@) =~= prev.push(s@));
        letter = letter + 1;
    }
    roots
}

/// The names among path pieces: the empty pieces that repeated or trailing
/// `/` leave, and `.`, dropped.
pub open spec fn named_pieces(pieces: Seq<Seq<char>>) -> Seq<Seq<char>>
    decreases pieces.len(),
{
    if pieces.len() == 0 {
        seq![]
    } else {
        let rest = named_pieces(pieces.drop_last());
        let p = pieces.last();
        if p.len() == 0 || p == seq!['.'] {
            rest
        } else {
            rest.push(p)
        }
    }
}

/// The components of `p`, each as text, as `std::path::Path::components`
/// gives them on Unix-like systems: `/` for the root, `.` for a leading
/// current folder, then the names, without empty pieces and other `.`.
pub open spec fn path_components(p: Seq<char>) -> Seq<Seq<char>> {
    let pieces = split_on(p, seq!['/']);
    let head = pieces[0];
    let first: Seq<Seq<char>> = if p.len() > 0 && p[0] == '/' {
        seq![seq!['/']]
    } else if head.len() == 0 {
        seq![]
    } else {
        seq![head]
    };
    first + named_pieces(pieces.drop_first())
}

/// Returns a copy of the characters of `v`.
fn copy_chars(v: &Vec<char>) -> (c: Vec<char>)
    ensures
        c@ == v@,
{
    let mut c: Vec<char> = Vec::new();
    append_chars(&mut c, v);
    c
}

/// Returns the components of `p`, each as text.
pub fn path_components_of(p: &str) -> (cs: Vec<Vec<char>>)
    ensures
        views_of(cs@) == path_components(p@),
{
    let chars = chars_of(p);
    let slash: Vec<char> = vec!['/'];
    assert(slash@ =~= seq!['/']);
    let pieces = split_chars(&chars, &slash);
    let ghost ps = split_on(p@, seq!['/']);
    proof {
        lemma_split_on_nonempty(p@, seq!['/']);
        assert(views_of(pieces@)[0] == pieces@[0]@);
    }
    let mut cs: Vec<Vec<char>> = Vec::new();
    if chars.len() > 0 && chars[0] == '/' {
        cs.push(vec!['/']);
        assert(views_of(cs@) =~= seq![seq!['/']]);
    } else if pieces[0].len() > 0 {
        cs.push(copy_chars(&pieces[0]));
        assert(views_of(cs@) =~= seq![ps[0]]);
    } else {
        assert(views_of(cs@) =~= Seq::<Seq<char>>::empty());
    }
    let ghost first = views_of(cs@);
    let ghost rest = ps.drop_first();
    let mut k: usize = 1;
    assert(rest.take(0) =~= seq![]);
    assert(first + named_pieces(rest.take(0)) =~= first);
    while k < pieces.len()
        invariant
            1 <= k <= pieces@.len(),
            views_of(pieces@) == ps,
            ps.len() == pieces@.len(),
            rest == ps.drop_first(),
            views_of(cs@) == first + named_pieces(rest.take(k - 1)),
        decreases pieces.len() - k,
    {
        let piece = &pieces[k];
        let ghost before = views_of(cs@);
        proof {
            assert(views_of(pieces@)[k as int] == piece@);
            assert(rest.take(k as int).drop_last() =~= rest.take(k - 1));
            assert(rest.take(k as int).last() == piece@);
        }
        if piece.len() > 0 && !(piece.len() == 1 && piece[0] == '.') {
            assert(piece@ != seq!['.']);
            cs.push(copy_chars(piece));
            assert(views_of(cs@) =~= before.push(piece@));
        } else {
            if piece.len() == 1 {
                assert(piece@ =~= seq!['.']);
            }
        }
        k = k + 1;
    }
    assert(rest.take(k - 1) =~= rest);
    cs
}

/// Returns whether two lists of components are the same.
fn components_equal(a: &Vec<Vec<char>>, b: &Vec<Vec<char>>) -> (r: bool)
    ensures
        r == (views_of(a@) == views_of(b@)),
{
    if a.len() != b.len() {
        assert(views_of(a@).len() != views_of(b@).len());
        return false;
    }
    let mut k: usize = 0;
    while k < a.len()
        invariant
            a@.len() == b@.len(),
            0 <= k <= a@.len(),
            forall|m: int| 0 <= m < k ==> views_of(a@)[m] == views_of(b@)[m],
        decreases a.len() - k,
    {
        if !chars_equal(&a[k], &b[k]) {
            assert(views_of(a@)[k as int] != views_of(b@)[k as int]);
            return false;
        }
        k = k + 1;
    }
    assert(views_of(a@) =~= views_of(b@));
    true
}

/// Returns whether `a` and `b` name the same path: whether they have the
/// same components, as `std::path::Path` compares paths.
pub fn same_path(a: &str, b: &str) -> (r: bool)
    ensures
        r == (path_components(a@) == path_components(b@)),
{
    let ca = path_components_of(a);
    let cb = path_components_of(b);
    components_equal(&ca, &cb)
}

/// The components of each path.
pub open spec fn components_of_all(paths: Seq<Seq<char>>) -> Seq<Seq<Seq<char>>> {
    paths.map_values(|q: Seq<char>| path_components(q))
}

/// `paths` without repeats, each kept where it first occurs; two paths
/// repeat each other where they have the same components.
pub open spec fn dedupe_by_components(paths: Seq<Seq<char>>) -> Seq<Seq<char>>
    decreases paths.len(),
{
    if paths.len() == 0 {
        seq![]
    } else {
        let kept = dedupe_by_components(paths.drop_last());
        if components_of_all(kept).contains(path_components(paths.last())) {
            kept
        } else {
            kept.push(paths.last())
        }
    }
}

/// Returns `paths` without repeats, each kept where it first occurs; two
/// paths repeat each other where they have the same components.
pub fn dedupe_paths(paths: Vec<String>) -> (deduped: Vec<String>)
    ensures
        string_views(deduped@) == dedupe_by_components(string_views(paths@)),
{
    let ghost all = string_views(paths@);
    let mut deduped: Vec<String> = Vec::new();
    let mut keys: Vec<Vec<Vec<char>>> = Vec::new();
    let mut i: usize = 0;
    assert(all.take(0) =~= seq![]);
    while i < paths.len()
        invariant
            0 <= i <= paths@.len(),
            all == string_views(paths@),
            string_views(deduped@) == dedupe_by_components(all.take(i as int)),
            keys@.len() == deduped@.len(),
            forall|m: int|
                0 <= m < keys@.len() ==> views_of(#[trigger] keys@[m]@) == path_components(
                    deduped@[m]@,
                ),
        decreases paths.len() - i,
    {
        let path = &paths[i];
        let key = path_components_of(path.as_str());
        let ghost kept = string_views(deduped@);
        let ghost ks = components_of_all(kept);
        let mut seen = false;
        let mut k: usize = 0;
        while k < keys.len()
            invariant
                0 <= k <= keys@.len(),
                keys@.len() == deduped@.len(),
                kept == string_views(deduped@),
                ks == components_of_all(kept),
                forall|m: int|
                    0 <= m < keys@.len() ==> views_of(#[trigger] keys@[m]@) == path_components(
                        deduped@[m]@,
                    ),
                seen <==> ks.take(k as int).contains(views_of(key@)),
            decreases keys.len() - k,
        {
            let same = components_equal(&keys[k], &key);
            proof {
                let prev = ks.take(k as int);
                let t = ks.take(k + 1);
                assert(ks[k as int] == path_components(deduped@[k as int]@));
                assert(t =~= prev.push(ks[k as int]));
                if same {
                    assert(t[k as int] == views_of(key@));
                } else {
                    if prev.contains(views_of(key@)) {
                        let m = choose|m: int| 0 <= m < prev.len() && prev[m] == views_of(key@);
                        assert(t[m] == views_of(key@));
                    }
                    if t.contains(views_of(key@)) {
                        let m = choose|m: int| 0 <= m < t.len() && t[m] == views_of(key@);
                        assert(m != k);
                        assert(prev[m] == views_of(key@));
                    }
                }
            }
            if same {
                seen = true;
            }
            k = k + 1;
        }
        proof {
            assert(ks.take(k as int) =~= ks);
            assert(all.take(i + 1).drop_last() =~= all.take(i as int));
            assert(all.take(i + 1).last() == path@);
        }
        if !seen {
            let ghost before = string_views(deduped@);
            let ghost old_keys = keys@;
            let ghost old_deduped = deduped@;
            deduped.push(path.clone());
            keys.push(key);
            proof {
                assert(string_views(deduped@) =~= before.push(path@));
                assert forall|m: int|
                    0 <= m < keys@.len() implies views_of(#[trigger] keys@[m]@) == path_components(
                    deduped@[m]@,
                ) by {
                    if m < old_keys.len() {
                        assert(keys@[m] == old_keys[m]);
                        assert(deduped@[m] == old_deduped[m]);
                    }
                }
            }
        }
        i = i + 1;
    }
    assert(all.take(i as int) =~= all);
    deduped
}

proof fn lemma_dedupe_distinct(paths: Seq<Seq<char>>)
    ensures
        components_of_all(dedupe_by_components(paths)).no_duplicates(),
    decreases paths.len(),
{
    if paths.len() > 0 {
        let kept = dedupe_by_components(paths.drop_last());
        lemma_dedupe_distinct(paths.drop_last());
        let ks = components_of_all(kept);
        let c = path_components(paths.last());
        if !ks.contains(c) {
            let ks2 = components_of_all(kept.push(paths.last()));
            assert(ks2 =~= ks.push(c));
            assert forall|a: int, b: int| 0 <= a < ks2.len() && 0 <= b < ks2.len() && a != b
                implies ks2[a] != ks2[b] by {
                if a == ks.len() {
                    assert(ks2[b] == ks[b]);
                } else if b == ks.len() {
                    assert(ks2[a] == ks[a]);
                }
            }
        }
    }
}

proof fn lemma_dedupe_of_distinct(paths: Seq<Seq<char>>)
    requires
        components_of_all(paths).no_duplicates(),
    ensures
        dedupe_by_components(paths) == paths,
    decreases paths.len(),
{
    if paths.len() > 0 {
        let prev = paths.drop_last();
        let ks = components_of_all(paths);
        assert(components_of_all(prev) =~= ks.drop_last());
        lemma_dedupe_of_distinct(prev);
        if components_of_all(prev).contains(path_components(paths.last())) {
            let m = choose|m: int|
                0 <= m < components_of_all(prev).len() && components_of_all(prev)[m]
                    == path_components(paths.last());
            assert(ks[m] == ks[ks.len() - 1]);
        }
        assert(prev.push(paths.last()) =~= paths);
    }
}

/// Removing repeats twice removes no more than removing them once.
pub proof fn law_dedupe_idempotent(paths: Seq<Seq<char>>)
    ensures
        dedupe_by_components(dedupe_by_components(paths)) == dedupe_by_components(paths),
{
    lemma_dedupe_distinct(paths);
    lemma_dedupe_of_distinct(dedupe_by_components(paths));
}

/// The folders under which Linux mounts removable drives, for `user`.
pub open spec fn linux_mount_parents(user: Option<Seq<char>>) -> Seq<Seq<char>> {
    match user {
        Some(u) => seq![
            "/mnt"@,
            path_join("/run/media"@, u),
            path_join("/media"@, u),
            "/run/media"@,
            "/media"@,
        ],
        None => seq!["/mnt"@, "/run/media"@, "/media"@],
    }
}

/// The folders whose subfolders may be a mounted Kindle on `platform`.
pub open spec fn mount_parents(platform: HostPlatform, user: Option<Seq<char>>) -> Seq<Seq<char>> {
    match platform {
        HostPlatform::MacOs => seq!["/Volumes"@],
        HostPlatform::Linux => linux_mount_parents(user),
        _ => seq![],
    }
}

/// `outs` are what `list_subdirs` returned, one call per folder of `parents`.
pub open spec fn listed<F: Fn(&String) -> Vec<String>>(
    list_subdirs: F,
    parents: Seq<String>,
    outs: Seq<Vec<String>>,
) -> bool {
    &&& outs.len() == parents.len()
    &&& forall|i: int|
        0 <= i < parents.len() ==> #[trigger] call_ensures(list_subdirs, (&parents[i],), outs[i])
}

/// The views of what each call returned, one after another.
pub open spec fn listed_paths(outs: Seq<Vec<String>>) -> Seq<Seq<char>> {
    concat_all(outs.map_values(|o: Vec<String>| string_views(o@)))
}

/// `roots` are the subfolders that `list_subdirs` reported for the folders
/// `parents`, one call per folder, in order.
pub open spec fn children_of<F: Fn(&String) -> Vec<String>>(
    list_subdirs: F,
    parents: Seq<Seq<char>>,
    roots: Seq<Seq<char>>,
) -> bool {
    exists|ps: Seq<String>, outs: Seq<Vec<String>>|
        #[trigger] listed(list_subdirs, ps, outs) && string_views(ps) == parents && roots
            == listed_paths(outs)
}

/// Returns the subfolders of each of `parents`, in order, as `list_subdirs`
/// reports them.
pub fn mounted_children<F: Fn(&String) -> Vec<String>>(parents: &Vec<String>, list_subdirs: &F) -> (roots: Vec<String>)
    requires
        forall|p: &String| call_requires(*list_subdirs, (p,)),
    ensures
        children_of(*list_subdirs, string_views(parents@), string_views(roots@)),
{
    let ghost ps = parents@;
    let ghost mut outs: Seq<Vec<String>> = seq![];
    let mut roots: Vec<String> = Vec::new();
    let mut i: usize = 0;
    while i < parents.len()
        invariant
            forall|p: &String| call_requires(*list_subdirs, (p,)),
            ps == parents@,
            0 <= i <= parents@.len(),
            listed(*list_subdirs, ps.take(i as int), outs),
            string_views(roots@) == listed_paths(outs),
        decreases parents.len() - i,
    {
        let children = list_subdirs(&parents[i]);
        let ghost before = string_views(roots@);
        let ghost old_outs = outs;
        let mut k: usize = 0;
        while k < children.len()
            invariant
                0 <= k <= children@.len(),
                string_views(roots@) == before + string_views(children@).take(k as int),
            decreases children.len() - k,
        {
            let ghost prev = string_views(roots@);
            roots.push(children[k].clone());
            proof {
                assert(string_views(roots@) =~= prev.push(children@[k as int]@));
                assert(string_views(children@).take(k + 1) =~= string_views(children@).take(
                    k as int,
                ).push(children@[k as int]@));
            }
            k = k + 1;
        }
        proof {
            assert(string_views(children@).take(k as int) =~= string_views(children@));
            outs = old_outs.push(children);
            assert(outs.drop_last() =~= old_outs);
            assert(outs.map_values(|o: Vec<String>| string_views(o@)).drop_last()
                =~= old_outs.map_values(|o: Vec<String>| string_views(o@)));
            assert(string_views(roots@) == listed_paths(outs));
            let t = ps.take(i + 1);
            assert forall|j: int| 0 <= j < t.len() implies #[trigger] call_ensures(
                *list_subdirs,
                (&t[j],),
                outs[j],
            ) by {
                if j < i {
                    assert(t[j] == ps.take(i as int)[j]);
                    assert(outs[j] == old_outs[j]);
                } else {
                    assert(t[j] == parents@[j]);
                }
            }
            assert(outs.len() == t.len());
            assert(listed(*list_subdirs, t, outs));
        }
        i = i + 1;
    }
    assert(ps.take(i as int) =~= ps);
    assert(listed(*list_subdirs, parents@, outs));
    roots
}

/// Returns the subfolders of the folders under which Linux mounts
/// removable drives, for `user`.
pub fn linux_mount_roots<F: Fn(&String) -> Vec<String>>(user: Option<String>, list_subdirs: &F) -> (roots: Vec<String>)
    requires
        forall|p: &String| call_requires(*list_subdirs, (p,)),
    ensures
        children_of(
            *list_subdirs,
            linux_mount_parents(
option_view(user),
            ),
            string_views(roots@),
        ),
{
    let mut parents: Vec<String> = Vec::new();
    parents.push("/mnt".to_owned());
    let ghost uv: Option<Seq<char>> = option_view(user);
    match &user {
        Some(u) => {
            parents.push(join_path("/run/media", u.as_str()));
            parents.push(join_path("/media", u.as_str()));
        },
        None => {},
    }
    parents.push("/run/media".to_owned());
    parents.push("/media".to_owned());
    assert(string_views(parents@) =~= linux_mount_parents(uv));
    mounted_children(&parents, list_subdirs)
}

/// Returns the folders that may be a mounted Kindle on `platform`: the drive
/// roots on Windows and WSL, else the subfolders of the mount folders as
/// `list_subdirs` reports them; without repeats.
pub fn device_roots_for_platform<F: Fn(&String) -> Vec<String>>(
    platform: HostPlatform,
    user: Option<String>,
    list_subdirs: &F,
) -> (roots: Vec<String>)
    requires
        forall|p: &String| call_requires(*list_subdirs, (p,)),
    ensures
        platform == HostPlatform::Windows ==> string_views(roots@) == windows_roots(),
        platform == HostPlatform::Wsl ==> string_views(roots@) == wsl_roots(),
        platform == HostPlatform::MacOs || platform == HostPlatform::Linux ==> exists|
            found: Seq<Seq<char>>,
        |
            #[trigger] children_of(
                *list_subdirs,
                mount_parents(platform, option_view(user)),
                found,
            ) && string_views(roots@) == dedupe_by_components(found),
{
    let ghost uv: Option<Seq<char>> = option_view(user);
    let roots = match platform {
        HostPlatform::Windows => windows_drive_roots(),
        HostPlatform::Wsl => wsl_drive_roots(),
        HostPlatform::MacOs => {
            let mut parents: Vec<String> = Vec::new();
            parents.push("/Volumes".to_owned());
            assert(string_views(parents@) =~= mount_parents(platform, uv));
            mounted_children(&parents, list_subdirs)
        },
        HostPlatform::Linux => linux_mount_roots(user, list_subdirs),
    };
    let ghost found = string_views(roots@);
    let deduped = dedupe_paths(roots);
    proof {
        if platform == HostPlatform::Windows {
            lemma_windows_roots_distinct();
            lemma_dedupe_of_distinct(windows_roots());
        } else if platform == HostPlatform::Wsl {
            lemma_wsl_roots_distinct();
            lemma_dedupe_of_distinct(wsl_roots());
        }
    }
    deduped
}

proof fn lemma_windows_roots_distinct()
    ensures
        components_of_all(windows_roots()).no_duplicates(),
{
    let rs = windows_roots();
    let ks = components_of_all(rs);
    assert forall|i: int| 0 <= i < rs.len() implies #[trigger] ks[i] == seq![rs[i]] by {
        let r = rs[i];
        assert(r == seq![(65 + i) as char, ':', '\\']);
        assert forall|k: int| 0 <= k < r.len() implies #[trigger] r[k] != '/' by {}
        lemma_split_on_absent(r, '/');
        assert(split_on(r, seq!['/']).drop_first() =~= Seq::<Seq<char>>::empty());
        assert(path_components(r) =~= seq![r]);
    }
    assert forall|i: int, j: int| 0 <= i < ks.len() && 0 <= j < ks.len() && i != j implies ks[i]
        != ks[j] by {
        assert(ks[i] == seq![rs[i]]);
        assert(ks[j] == seq![rs[j]]);
        assert(rs[i][0] != rs[j][0]);
        if ks[i] == ks[j] {
            assert(seq![rs[i]][0] == seq![rs[j]][0]);
        }
    }
}

proof fn lemma_wsl_root_components(x: char)
    requires
        'a' <= x <= 'z',
    ensures
        path_components("/mnt/"@ + seq![x]) == seq![seq!['/'], "mnt"@, seq![x]],
{
    reveal_strlit("/mnt/");
    reveal_strlit("mnt");
    let m = "mnt"@;
    let r = "/mnt/"@ + seq![x];
    let tail = m + seq!['/'] + seq![x];
    assert(r =~= Seq::<char>::empty() + seq!['/'] + tail);
    assert forall|k: int| 0 <= k < 1 implies #[trigger] seq!['/'][k] == '/' by {}
    lemma_split_on_concat(Seq::<char>::empty(), tail, seq!['/'], '/');
    lemma_split_on_concat(m, seq![x], seq!['/'], '/');
    assert forall|k: int| 0 <= k < m.len() implies #[trigger] m[k] != '/' by {}
    lemma_split_on_absent(m, '/');
    assert forall|k: int| 0 <= k < 1 implies #[trigger] seq![x][k] != '/' by {}
    lemma_split_on_absent(seq![x], '/');
    lemma_split_on_absent(Seq::<char>::empty(), '/');
    let pieces = split_on(r, seq!['/']);
    assert(pieces =~= seq![Seq::<char>::empty(), m, seq![x]]);
    assert(pieces.drop_first() =~= seq![m, seq![x]]);
    assert(seq![m, seq![x]].drop_last() =~= seq![m]);
    assert(seq![m].drop_last() =~= Seq::<Seq<char>>::empty());
    assert(m.len() == 3);
    assert(m != seq!['.']);
    assert(seq![x][0] != seq!['.'][0]);
    assert(seq![x] != seq!['.']);
    assert(seq![m].last() == m);
    assert(named_pieces(Seq::<Seq<char>>::empty()) == Seq::<Seq<char>>::empty());
    assert(named_pieces(seq![m]) =~= seq![m]);
    assert(seq![m, seq![x]].last() == seq![x]);
    assert(named_pieces(seq![m, seq![x]]) =~= seq![m, seq![x]]);
    assert(path_components(r) =~= seq![seq!['/'], m, seq![x]]);
}

proof fn lemma_wsl_roots_distinct()
    ensures
        components_of_all(wsl_roots()).no_duplicates(),
{
    let rs = wsl_roots();
    let ks = components_of_all(rs);
    assert forall|i: int| 0 <= i < rs.len() implies #[trigger] ks[i] == seq![seq!['/'], "mnt"@, seq![(97 + i) as char]] by {
        lemma_wsl_root_components((97 + i) as char);
    }
    assert forall|i: int, j: int| 0 <= i < ks.len() && 0 <= j < ks.len() && i != j implies ks[i]
        != ks[j] by {
        assert(ks[i] == seq![seq!['/'], "mnt"@, seq![(97 + i) as char]]);
        assert(ks[j] == seq![seq!['/'], "mnt"@, seq![(97 + j) as char]]);
        if ks[i] == ks[j] {
            assert(ks[i][2][0] == ks[j][2][0]);
        }
    }
}

/// Where the clippings file may be, for each root in order: at the root,
/// then in its `documents` folder.
pub open spec fn clippings_candidates(roots: Seq<Seq<char>>) -> Seq<Seq<char>> {
    Seq::new(2 * roots.len(), |i: int| clippings_paths(roots[i / 2])[i % 2])
}

/// `is_file` answered `answer` when asked about `path`.
pub open spec fn reported<F: Fn(&String) -> bool>(is_file: F, path: Seq<char>, answer: bool) -> bool {
    exists|p: String| p@ == path && #[trigger] call_ensures(is_file, (&p,), answer)
}

/// Returns the first place, among the clippings candidates of `roots`, that
/// `is_file` reports as a file: it asks about each candidate in order, and
/// stops at the first yes.
pub fn find_kindle_clippings_path_from_roots<F: Fn(&String) -> bool>(roots: &[String], is_file: &F) -> (found: Option<String>)
    requires
        forall|p: &String| call_requires(*is_file, (p,)),
    ensures
        found matches Some(p) ==> exists|i: int|
            #![trigger clippings_candidates(string_views(roots@))[i]]
            0 <= i < clippings_candidates(string_views(roots@)).len() && p@ == clippings_candidates(
                string_views(roots@),
            )[i] && call_ensures(*is_file, (&p,), true) && forall|j: int|
                0 <= j < i ==> #[trigger] reported(
                    *is_file,
                    clippings_candidates(string_views(roots@))[j],
                    false,
                ),
        found is None ==> forall|j: int|
            0 <= j < clippings_candidates(string_views(roots@)).len() ==> #[trigger] reported(
                *is_file,
                clippings_candidates(string_views(roots@))[j],
                false,
            ),
{
    let ghost cands = clippings_candidates(string_views(roots@));
    let mut r: usize = 0;
    while r < roots.len()
        invariant
            forall|p: &String| call_requires(*is_file, (p,)),
            cands == clippings_candidates(string_views(roots@)),
            0 <= r <= roots@.len(),
            forall|j: int| 0 <= j < 2 * r ==> #[trigger] reported(*is_file, cands[j], false),
        decreases roots.len() - r,
    {
        let paths = clippings_paths_for_device_root(roots[r].as_str());
        let ghost i0 = 2 * r as int;
        assert(cands[i0] == clippings_paths(roots@[r as int]@)[0]);
        assert(cands[i0 + 1] == clippings_paths(roots@[r as int]@)[1]);
        let first = &paths[0];
        if is_file(first) {
            let p = first.clone();
            assert(p@ == cands[i0]);
            return Some(p);
        }
        assert(reported(*is_file, cands[i0], false));
        let second = &paths[1];
        if is_file(second) {
            let p = second.clone();
            assert(p@ == cands[i0 + 1]);
            assert(forall|j: int| 0 <= j < i0 + 1 ==> #[trigger] reported(*is_file, cands[j], false));
            return Some(p);
        }
        assert(reported(*is_file, cands[i0 + 1], false));
        r = r + 1;
    }
    None
}

/// The platform, from whether the program was built for Windows, whether
/// WSL's environment variables are set, and whether it was built for macOS.
pub open spec fn spec_host_platform(windows: bool, wsl: bool, macos: bool) -> HostPlatform {
    if windows {
        HostPlatform::Windows
    } else if wsl {
        HostPlatform::Wsl
    } else if macos {
        HostPlatform::MacOs
    } else {
        HostPlatform::Linux
    }
}

/// Returns the platform: Windows where the program was built for it, else
/// WSL where its environment variables are set, else macOS where the
/// program was built for it, else Linux.
pub fn host_platform_from(windows: bool, wsl: bool, macos: bool) -> (p: HostPlatform)
    ensures
        p == spec_host_platform(windows, wsl, macos),
{
    if windows {
        HostPlatform::Windows
    } else if wsl {
        HostPlatform::Wsl
    } else if macos {
        HostPlatform::MacOs
    } else {
        HostPlatform::Linux
    }
}

} // verus!
