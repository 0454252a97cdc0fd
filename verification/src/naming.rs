//! How an uploaded file gets its table name and its format.

use vstd::prelude::*;
use crate::text::{ascii_lower, ascii_lower_char, chars_of, ends_with_ignoring_ascii_case, has_suffix};

verus! {

/// The format of a file, told by its extension alone, case aside:
/// `.json` gives `json`, `.csv` gives `csv`, anything else gives nothing.
pub open spec fn kind_from_filename(filename: Seq<char>) -> Option<Seq<char>> {
    if has_suffix(ascii_lower(filename), seq!['.', 'j', 's', 'o', 'n']) {
        Some(seq!['j', 's', 'o', 'n'])
    } else if has_suffix(ascii_lower(filename), seq!['.', 'c', 's', 'v']) {
        Some(seq!['c', 's', 'v'])
    } else {
        None
    }
}

/// Infers a file's format from its name: `Some("json")` for a name that ends
/// in `.json` and `Some("csv")` for one that ends in `.csv`, in any case of
/// ASCII letters; `None` otherwise.
pub fn infer_kind(filename: &str) -> (kind: Option<String>)
    ensures
        match kind {
            Some(k) => kind_from_filename(filename@) == Some(k@),
            None => kind_from_filename(filename@) is None,
        },
{
    let chars: Vec<char> = chars_of(filename);
    if ends_with_ignoring_ascii_case(&chars, &vec!['.', 'j', 's', 'o', 'n']) {
        let k: String = String::from_str("json");
        proof {
            reveal_strlit("json");
        }
        Some(k)
    } else if ends_with_ignoring_ascii_case(&chars, &vec!['.', 'c', 's', 'v']) {
        let k: String = String::from_str("csv");
        proof {
            reveal_strlit("csv");
        }
        Some(k)
    } else {
        None
    }
}


/// `path` without what ends it but names nothing: trailing separators,
/// trailing `.` components, and a lone `.` (the current directory).
pub open spec fn trim_tail(path: Seq<char>) -> Seq<char>
    decreases path.len(),
{
    if path.len() == 0 {
        path
    } else if path.last() == '/' {
        trim_tail(path.drop_last())
    } else if path.len() == 1 && path[0] == '.' {
        Seq::empty()
    } else if path.len() >= 2 && path.last() == '.' && path[path.len() - 2] == '/' {
        trim_tail(path.drop_last())
    } else {
        path
    }
}

/// The index of the last `c` in `s`, or -1 where `s` holds none.
pub open spec fn last_index_of(s: Seq<char>, c: char) -> int
    decreases s.len(),
{
    if s.len() == 0 {
        -1
    } else if s.last() == c {
        s.len() - 1
    } else {
        last_index_of(s.drop_last(), c)
    }
}

/// The last component of a `/`-separated path, if it names something: none
/// for an empty path, the root, the current directory, or a path that ends
/// in `..`.
pub open spec fn file_name_of(path: Seq<char>) -> Option<Seq<char>> {
    let t = trim_tail(path);
    let name = t.subrange(last_index_of(t, '/') + 1, t.len() as int);
    if t.len() == 0 || name == seq!['.', '.'] {
        None
    } else {
        Some(name)
    }
}

/// A file name without its extension: the part before the last `.`, or the
/// whole name where it has no `.` or its only `.` comes first.
pub open spec fn stem_of_name(name: Seq<char>) -> Seq<char> {
    let d = last_index_of(name, '.');
    if d <= 0 {
        name
    } else {
        name.subrange(0, d)
    }
}

/// The stem of the file a path names, or the empty string where it names none.
pub open spec fn stem_of_path(path: Seq<char>) -> Seq<char> {
    match file_name_of(path) {
        Some(name) => stem_of_name(name),
        None => Seq::empty(),
    }
}

/// Where no `c` stands at `k` or after it, and `k` is the start or follows a
/// `c`, the last `c` is at `k - 1`.
proof fn lemma_last_index_of(s: Seq<char>, c: char, k: int)
    requires
        0 <= k <= s.len(),
        forall|j: int| k <= j < s.len() ==> s[j] != c,
        k == 0 || s[k - 1] == c,
    ensures
        last_index_of(s, c) == k - 1,
    decreases s.len(),
{
    if s.len() > k {
        lemma_last_index_of(s.drop_last(), c, k);
    }
}

/// The number of leading characters of `v` that remain once `trim_tail` is applied.
fn trimmed_len(v: &Vec<char>) -> (end: usize)
    ensures
        end <= v.len(),
        v@.subrange(0, end as int) == trim_tail(v@),
{
    let mut end: usize = v.len();
    assert(v@.subrange(0, end as int) =~= v@);
    loop
        invariant_except_break
            end <= v.len(),
            trim_tail(v@.subrange(0, end as int)) == trim_tail(v@),
        ensures
            end <= v.len(),
            v@.subrange(0, end as int) == trim_tail(v@),
        decreases end,
    {
        let ghost sub = v@.subrange(0, end as int);
        if end > 0 && v[end - 1] == '/' {
            assert(sub.drop_last() =~= v@.subrange(0, end - 1));
            end = end - 1;
        } else if end == 1 && v[0] == '.' {
            assert(v@.subrange(0, 0) =~= Seq::<char>::empty());
            end = 0;
        } else if end >= 2 && v[end - 1] == '.' && v[end - 2] == '/' {
            assert(sub.drop_last() =~= v@.subrange(0, end - 1));
            end = end - 1;
        } else {
            break;
        }
    }
    end
}

/// The stem of the file that `filename` names: its last path component
/// without the extension, or the empty string where the path names no file.
pub fn stem(filename: &str) -> (s: String)
    ensures
        s@ == stem_of_path(filename@),
{
    let v: Vec<char> = chars_of(filename);
    let end: usize = trimmed_len(&v);
    let ghost t = v@.subrange(0, end as int);
    if end == 0 {
        return String::new();
    }
    let mut start: usize = end;
    while start > 0 && v[start - 1] != '/'
        invariant
            start <= end <= v.len(),
            forall|j: int| start <= j < end ==> v@[j] != '/',
        decreases start,
    {
        start = start - 1;
    }
    proof {
        lemma_last_index_of(t, '/', start as int);
    }
    let ghost name = v@.subrange(start as int, end as int);
    assert(name =~= t.subrange(last_index_of(t, '/') + 1, t.len() as int));
    if end - start == 2 && v[start] == '.' && v[start + 1] == '.' {
        assert(name =~= seq!['.', '.']);
        return String::new();
    }
    assert(name != seq!['.', '.']) by {
        if name == seq!['.', '.'] {
            assert(name[0] == v@[start as int]);
            assert(name[1] == v@[start + 1]);
        }
    }
    let mut dot: usize = end;
    while dot > start && v[dot - 1] != '.'
        invariant
            start <= dot <= end <= v.len(),
            forall|j: int| dot <= j < end ==> v@[j] != '.',
        decreases dot,
    {
        dot = dot - 1;
    }
    proof {
        lemma_last_index_of(name, '.', dot - start);
    }
    let stop: usize = if dot - start <= 1 { end } else { dot - 1 };
    assert(v@.subrange(start as int, stop as int) =~= stem_of_name(name));
    String::from_str(filename.substring_char(start, stop))
}


/// The last `c` in `s` is the last one: no `c` follows it.
proof fn lemma_last_index_of_is_last(s: Seq<char>, c: char)
    ensures
        -1 <= last_index_of(s, c) < s.len(),
        forall|j: int| last_index_of(s, c) < j < s.len() ==> s[j] != c,
    decreases s.len(),
{
    if s.len() > 0 && s.last() != c {
        let shorter = s.drop_last();
        lemma_last_index_of_is_last(shorter, c);
        assert forall|j: int| last_index_of(s, c) < j < s.len() implies s[j] != c by {
            if j < shorter.len() {
                assert(s[j] == shorter[j]);
            }
        }
    }
}

/// A table name taken from a file name holds no path separator.
pub proof fn law_stem_has_no_separator(path: Seq<char>)
    ensures
        forall|i: int| 0 <= i < stem_of_path(path).len() ==> stem_of_path(path)[i] != '/',
{
    let t = trim_tail(path);
    let li = last_index_of(t, '/');
    lemma_last_index_of_is_last(t, '/');
    let name = t.subrange(li + 1, t.len() as int);
    match file_name_of(path) {
        Some(n) => {
            assert(n == name);
            assert forall|i: int| 0 <= i < name.len() implies name[i] != '/' by {
                assert(name[i] == t[li + 1 + i]);
            }
            lemma_last_index_of_is_last(name, '.');
            let st = stem_of_path(path);
            assert forall|i: int| 0 <= i < st.len() implies st[i] != '/' by {
                assert(st[i] == name[i]);
            }
        },
        None => {},
    }
}

/// Lower-casing a lower-cased character changes nothing.
proof fn lemma_ascii_lower_char_idempotent(c: char)
    ensures
        ascii_lower_char(ascii_lower_char(c)) == ascii_lower_char(c),
{
}

/// The format told by a file name does not depend on the case of its ASCII
/// letters.
pub proof fn law_kind_ignores_ascii_case(filename: Seq<char>)
    ensures
        kind_from_filename(ascii_lower(filename)) == kind_from_filename(filename),
{
    assert forall|i: int| 0 <= i < filename.len() implies #[trigger] ascii_lower(
        ascii_lower(filename),
    )[i] == ascii_lower(filename)[i] by {
        lemma_ascii_lower_char_idempotent(filename[i]);
    }
    assert(ascii_lower(ascii_lower(filename)) =~= ascii_lower(filename));
}

/// Why an upload cannot become a table.
#[derive(Debug, Clone, Copy, PartialEq, Eq, Structural)]
pub enum UploadError {
    /// The request carries no file.
    MissingFile,
    /// No format was given and the file name tells none.
    UnknownKind,
    /// No table name was given and the file name yields none.
    MissingName,
}

impl UploadError {
    /// The text shown to the user for this error.
    pub open spec fn message_text(self) -> Seq<char> {
        match self {
            UploadError::MissingFile => "missing `file` field"@,
            UploadError::UnknownKind => "could not determine kind; pass json or csv"@,
            UploadError::MissingName => "missing table name"@,
        }
    }

    /// The text shown to the user for this error.
    pub fn message(&self) -> (m: String)
        ensures
            m@ == self.message_text(),
    {
        match self {
            UploadError::MissingFile => String::from_str("missing `file` field"),
            UploadError::UnknownKind => String::from_str("could not determine kind; pass json or csv"),
            UploadError::MissingName => String::from_str("missing table name"),
        }
    }
}

/// The table that an upload becomes: its name and its format.
pub struct UploadTarget {
    pub name: String,
    pub kind: String,
}

/// What an upload resolves to. An explicit, non-empty format wins over the
/// one told by the file name, and an explicit, non-empty table name wins
/// over the file's stem. The checks come in this order: a file must be
/// present, a format must be known, and the name must not be empty.
pub open spec fn upload_target(
    has_file: bool,
    name: Seq<char>,
    kind: Seq<char>,
    filename: Seq<char>,
) -> Result<(Seq<char>, Seq<char>), UploadError> {
    if !has_file {
        Err(UploadError::MissingFile)
    } else {
        let k = if kind.len() > 0 {
            Some(kind)
        } else {
            kind_from_filename(filename)
        };
        match k {
            None => Err(UploadError::UnknownKind),
            Some(k) => {
                let n = if name.len() > 0 {
                    name
                } else {
                    stem_of_path(filename)
                };
                if n.len() == 0 {
                    Err(UploadError::MissingName)
                } else {
                    Ok((n, k))
                }
            },
        }
    }
}

/// Decides the name and format of an uploaded file. An empty `name` or
/// `kind` counts as not given; `filename` is the name the file was sent
/// under, empty where there was none.
pub fn resolve_upload(has_file: bool, name: &str, kind: &str, filename: &str) -> (r: Result<
    UploadTarget,
    UploadError,
>)
    ensures
        match r {
            Ok(t) => upload_target(has_file, name@, kind@, filename@) == Ok::<
                (Seq<char>, Seq<char>),
                UploadError,
            >((t.name@, t.kind@)),
            Err(e) => upload_target(has_file, name@, kind@, filename@) == Err::<
                (Seq<char>, Seq<char>),
                UploadError,
            >(e),
        },
{
    if !has_file {
        return Err(UploadError::MissingFile);
    }
    let resolved_kind: String = if !kind.is_empty() {
        String::from_str(kind)
    } else {
        match infer_kind(filename) {
            Some(k) => k,
            None => {
                return Err(UploadError::UnknownKind);
            },
        }
    };
    let resolved_name: String = if !name.is_empty() {
        String::from_str(name)
    } else {
        stem(filename)
    };
    if resolved_name.as_str().is_empty() {
        return Err(UploadError::MissingName);
    }
    Ok(UploadTarget { name: resolved_name, kind: resolved_kind })
}


/// A name ending in `.csv`, in any case of its letters, is a CSV file,
/// whatever comes before: other dots and directories too.
pub proof fn law_csv_extension(prefix: Seq<char>, c: char, s: char, v: char)
    requires
        c == 'c' || c == 'C',
        s == 's' || s == 'S',
        v == 'v' || v == 'V',
    ensures
        kind_from_filename(prefix + seq!['.', c, s, v]) == Some(seq!['c', 's', 'v']),
{
    let f = prefix + seq!['.', c, s, v];
    let low = ascii_lower(f);
    let n = f.len() as int;
    assert(f[n - 4] == '.' && f[n - 3] == c && f[n - 2] == s && f[n - 1] == v);
    assert(low.subrange(n - 4, n) =~= seq!['.', 'c', 's', 'v']) by {
        assert(low[n - 4] == ascii_lower_char(f[n - 4]));
        assert(low[n - 3] == ascii_lower_char(f[n - 3]));
        assert(low[n - 2] == ascii_lower_char(f[n - 2]));
        assert(low[n - 1] == ascii_lower_char(f[n - 1]));
    }
    assert(!has_suffix(low, seq!['.', 'j', 's', 'o', 'n'])) by {
        assert(low[n - 1] == 'v');
        if has_suffix(low, seq!['.', 'j', 's', 'o', 'n']) {
            assert(low.subrange(n - 5, n)[4] == low[n - 1]);
        }
    }
}

/// A name ending in `.json`, in any case of its letters, is a JSON file,
/// whatever comes before: other dots and directories too.
pub proof fn law_json_extension(prefix: Seq<char>, j: char, s: char, o: char, n: char)
    requires
        j == 'j' || j == 'J',
        s == 's' || s == 'S',
        o == 'o' || o == 'O',
        n == 'n' || n == 'N',
    ensures
        kind_from_filename(prefix + seq!['.', j, s, o, n]) == Some(seq!['j', 's', 'o', 'n']),
{
    let f = prefix + seq!['.', j, s, o, n];
    let low = ascii_lower(f);
    let l = f.len() as int;
    assert(f[l - 5] == '.' && f[l - 4] == j && f[l - 3] == s && f[l - 2] == o && f[l - 1] == n);
    assert(low.subrange(l - 5, l) =~= seq!['.', 'j', 's', 'o', 'n']) by {
        assert(low[l - 5] == ascii_lower_char(f[l - 5]));
        assert(low[l - 4] == ascii_lower_char(f[l - 4]));
        assert(low[l - 3] == ascii_lower_char(f[l - 3]));
        assert(low[l - 2] == ascii_lower_char(f[l - 2]));
        assert(low[l - 1] == ascii_lower_char(f[l - 1]));
    }
}

/// A name that does not end in an `n` or a `v` of either case tells no format.
pub proof fn law_other_names_tell_no_kind(f: Seq<char>)
    requires
        f.len() == 0 || (f.last() != 'n' && f.last() != 'N' && f.last() != 'v' && f.last()
            != 'V'),
    ensures
        kind_from_filename(f) is None,
{
    let low = ascii_lower(f);
    let l = f.len() as int;
    if l > 0 {
        assert(low[l - 1] == ascii_lower_char(f[l - 1]));
        if has_suffix(low, seq!['.', 'j', 's', 'o', 'n']) {
            assert(low.subrange(l - 5, l)[4] == low[l - 1]);
        }
        if has_suffix(low, seq!['.', 'c', 's', 'v']) {
            assert(low.subrange(l - 4, l)[3] == low[l - 1]);
        }
    }
}

/// The stem of a name is everything before its last dot, whatever the length
/// of the extension that follows.
pub proof fn law_stem_drops_last_extension(n: Seq<char>, e: Seq<char>)
    requires
        n.len() > 0,
        forall|i: int| 0 <= i < n.len() ==> n[i] != '/',
        forall|i: int| 0 <= i < e.len() ==> e[i] != '.' && e[i] != '/',
        !(n == seq!['.'] && e.len() == 0),
    ensures
        stem_of_path(n + seq!['.'] + e) == n,
{
    let p = n + seq!['.'] + e;
    let l = p.len() as int;
    let k = n.len() as int;
    assert(p[k] == '.');
    assert forall|i: int| 0 <= i < l implies p[i] != '/' by {
        if i < k {
            assert(p[i] == n[i]);
        } else if i > k {
            assert(p[i] == e[i - k - 1]);
        }
    }
    if e.len() > 0 {
        assert(p.last() == e[e.len() - 1]);
    } else {
        assert(p[l - 2] == n[k - 1]);
    }
    assert(trim_tail(p) == p);
    lemma_last_index_of(p, '/', 0);
    assert(p.subrange(0, l) =~= p);
    assert(p != seq!['.', '.']) by {
        if p == seq!['.', '.'] {
            assert(n =~= seq!['.']);
        }
    }
    assert forall|i: int| k + 1 <= i < l implies p[i] != '.' by {
        assert(p[i] == e[i - k - 1]);
    }
    lemma_last_index_of(p, '.', k + 1);
    assert(p.subrange(0, k) =~= n);
}

/// A name without dots is its own stem.
pub proof fn law_stem_without_dot(n: Seq<char>)
    requires
        n.len() > 0,
        forall|i: int| 0 <= i < n.len() ==> n[i] != '/' && n[i] != '.',
    ensures
        stem_of_path(n) == n,
{
    let l = n.len() as int;
    assert(n[l - 1] != '/' && n[l - 1] != '.');
    assert(trim_tail(n) == n);
    lemma_last_index_of(n, '/', 0);
    lemma_last_index_of(n, '.', 0);
    assert(n.subrange(0, l) =~= n);
    assert(n != seq!['.', '.']) by {
        if n == seq!['.', '.'] {
            assert(n[0] == '.');
        }
    }
}

/// The directories in front of a file name do not change its stem.
pub proof fn law_stem_ignores_directory(dir: Seq<char>, name: Seq<char>)
    requires
        name.len() > 0,
        forall|i: int| 0 <= i < name.len() ==> name[i] != '/',
        name != seq!['.'],
    ensures
        stem_of_path(dir + seq!['/'] + name) == stem_of_path(name),
{
    let p = dir + seq!['/'] + name;
    let l = p.len() as int;
    let k = dir.len() as int;
    let m = name.len() as int;
    assert(p[k] == '/');
    assert forall|i: int| k + 1 <= i < l implies p[i] != '/' by {
        assert(p[i] == name[i - k - 1]);
    }
    assert(p.last() == name[m - 1]);
    if m == 1 {
        assert(name[0] != '.') by {
            if name[0] == '.' {
                assert(name =~= seq!['.']);
            }
        }
    } else {
        assert(p[l - 2] == name[m - 2]);
    }
    assert(trim_tail(p) == p);
    assert(trim_tail(name) == name);
    lemma_last_index_of(p, '/', k + 1);
    lemma_last_index_of(name, '/', 0);
    assert(p.subrange(k + 1, l) =~= name);
    assert(name.subrange(0, m) =~= name);
}

/// An upload with a table name but no format takes its format from the file
/// name, whatever the table name is.
pub proof fn law_given_name_keeps_inferred_kind(name: Seq<char>, filename: Seq<char>, k: Seq<char>)
    requires
        name.len() > 0,
        kind_from_filename(filename) == Some(k),
    ensures
        upload_target(true, name, Seq::empty(), filename) == Ok::<
            (Seq<char>, Seq<char>),
            UploadError,
        >((name, k)),
{
}

/// An upload named `name` of a file whose name ends in `.csv` becomes the CSV
/// table `name`, whatever else the file name holds.
pub proof fn law_named_csv_upload(name: Seq<char>, prefix: Seq<char>)
    requires
        name.len() > 0,
    ensures
        upload_target(true, name, Seq::empty(), prefix + seq!['.', 'c', 's', 'v']) == Ok::<
            (Seq<char>, Seq<char>),
            UploadError,
        >((name, seq!['c', 's', 'v'])),
{
    law_csv_extension(prefix, 'c', 's', 'v');
}

/// A given format and a given table name are taken as they are.
pub proof fn law_given_name_and_kind_win(name: Seq<char>, kind: Seq<char>, filename: Seq<char>)
    requires
        name.len() > 0,
        kind.len() > 0,
    ensures
        upload_target(true, name, kind, filename) == Ok::<(Seq<char>, Seq<char>), UploadError>(
            (name, kind),
        ),
{
}

/// With no table name given, an upload of `n.e` with a given format becomes
/// the table `n`.
pub proof fn law_unnamed_upload_takes_stem(n: Seq<char>, e: Seq<char>, kind: Seq<char>)
    requires
        kind.len() > 0,
        n.len() > 0,
        forall|i: int| 0 <= i < n.len() ==> n[i] != '/',
        forall|i: int| 0 <= i < e.len() ==> e[i] != '.' && e[i] != '/',
        !(n == seq!['.'] && e.len() == 0),
    ensures
        upload_target(true, Seq::empty(), kind, n + seq!['.'] + e) == Ok::<
            (Seq<char>, Seq<char>),
            UploadError,
        >((n, kind)),
{
    law_stem_drops_last_extension(n, e);
}

/// Without a file there is no table, whatever else is given.
pub proof fn law_no_file_no_table(name: Seq<char>, kind: Seq<char>, filename: Seq<char>)
    ensures
        upload_target(false, name, kind, filename) == Err::<(Seq<char>, Seq<char>), UploadError>(
            UploadError::MissingFile,
        ),
{
}


/// Trailing separators do not change the stem of a path.
pub proof fn law_stem_ignores_trailing_separator(path: Seq<char>)
    ensures
        stem_of_path(path + seq!['/']) == stem_of_path(path),
{
    let p = path + seq!['/'];
    assert(p.last() == '/');
    assert(p.drop_last() =~= path);
}

/// A trailing `/.` does not change the stem of a path.
pub proof fn law_stem_ignores_trailing_current_dir(path: Seq<char>)
    ensures
        stem_of_path(path + seq!['/', '.']) == stem_of_path(path),
{
    let p = path + seq!['/', '.'];
    let l = p.len() as int;
    assert(p.last() == '.' && p[l - 2] == '/');
    assert(p.drop_last() =~= path + seq!['/']);
    law_stem_ignores_trailing_separator(path);
}

/// A path that ends in `/..` names no file: its stem is empty.
pub proof fn law_stem_of_parent_dir_is_empty(path: Seq<char>)
    ensures
        stem_of_path(path + seq!['/', '.', '.']) == Seq::<char>::empty(),
{
    let p = path + seq!['/', '.', '.'];
    let l = p.len() as int;
    assert(p.last() == '.' && p[l - 2] == '.' && p[l - 3] == '/');
    assert(trim_tail(p) == p);
    lemma_last_index_of(p, '/', l - 2);
    assert(p.subrange(l - 2, l) =~= seq!['.', '.']);
}

/// A hidden file without another dot keeps its whole name as its stem.
pub proof fn law_stem_of_hidden_file(n: Seq<char>)
    requires
        n.len() > 0,
        forall|i: int| 0 <= i < n.len() ==> n[i] != '/' && n[i] != '.',
    ensures
        stem_of_path(seq!['.'] + n) == seq!['.'] + n,
{
    let p = seq!['.'] + n;
    let l = p.len() as int;
    assert(p.last() == n[n.len() - 1]);
    assert forall|i: int| 0 <= i < l implies p[i] != '/' by {
        if i > 0 {
            assert(p[i] == n[i - 1]);
        }
    }
    assert forall|i: int| 1 <= i < l implies p[i] != '.' by {
        assert(p[i] == n[i - 1]);
    }
    assert(trim_tail(p) == p);
    lemma_last_index_of(p, '/', 0);
    lemma_last_index_of(p, '.', 1);
    assert(p.subrange(0, l) =~= p);
    assert(p != seq!['.', '.']) by {
        if p == seq!['.', '.'] {
            assert(p[1] == n[0]);
        }
    }
}

} // verus!
