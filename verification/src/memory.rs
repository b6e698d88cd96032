//! Memory notes: their front matter, and the projects that hold them.
use vstd::prelude::*;
use crate::text::{
    chars_of,
    string_of,
    trimmed,
    find_char,
    trim,
    lemma_find_char_at,
    lemma_find_char,
    lemma_trim,
    str_le,
    str_le_exec,
    str_eq,
    lemma_str_le_total,
    lemma_str_le_trans,
};
use crate::sort::{
    SortKey,
    sort_by,
    key_order,
    sort_by_key,
    lemma_sort_by_map,
    lemma_sort_by_sorted,
    lemma_sort_by_contains,
    lemma_sort_by_permutation,
    is_sorted,
    total_preorder,
};
use crate::paths::{ClaudeJson, lookup_of, project_keys, resolved, build_lookup, resolve};

verus! {

/// `std::time::SystemTime`, carried as the modification time of a note and
/// never looked into.
#[verifier::external_type_specification]
#[verifier::external_body]
pub struct ExSystemTime(std::time::SystemTime);

/// A project with memory notes.
pub struct Project {
    pub real_path: String,
    pub encoded: String,
    pub files: Vec<MemoryFile>,
}

/// One memory note.
pub struct MemoryFile {
    pub name: String,
    pub frontmatter: Vec<(String, String)>,
    pub body: String,
    pub mtime: std::time::SystemTime,
}

pub open spec fn close_marker() -> Seq<char> {
    seq!['\n', '-', '-', '-', '\n']
}

/// A line `---` between two line breaks starts at `i`.
pub open spec fn close_at(s: Seq<char>, i: int) -> bool {
    0 <= i && i + 5 <= s.len() && s.subrange(i, i + 5) == close_marker()
}

/// The first `\n---\n` in `s` at or after `i`.
pub open spec fn find_close(s: Seq<char>, i: int) -> Option<int>
    decreases s.len() - i,
{
    if i < 0 || i + 5 > s.len() {
        None
    } else if close_at(s, i) {
        Some(i)
    } else {
        find_close(s, i + 1)
    }
}

/// The entry of one front matter line: split at its first `:`, both sides
/// trimmed; none where the line has no `:`.
pub open spec fn line_entry(line: Seq<char>) -> Seq<(Seq<char>, Seq<char>)> {
    match find_char(line, ':', 0) {
        Some(k) => seq![(trim(line.take(k)), trim(line.skip(k + 1)))],
        None => seq![],
    }
}

/// The entries of the lines of `text`, in order.
pub open spec fn entries(text: Seq<char>) -> Seq<(Seq<char>, Seq<char>)>
    decreases text.len(),
{
    match find_char(text, '\n', 0) {
        Some(j) => {
            if 0 <= j < text.len() {
                line_entry(text.take(j)) + entries(text.skip(j + 1))
            } else {
                seq![]
            }
        },
        None => line_entry(text),
    }
}

/// Content starts with a `---` line.
pub open spec fn opens_frontmatter(c: Seq<char>) -> bool {
    c.len() >= 4 && c[0] == '-' && c[1] == '-' && c[2] == '-' && c[3] == '\n'
}

/// The front matter entries and the body of a note's content.
pub open spec fn parsed(c: Seq<char>) -> (Seq<(Seq<char>, Seq<char>)>, Seq<char>) {
    if opens_frontmatter(c) {
        match find_close(c, 4) {
            Some(i) => (entries(c.subrange(4, i)), c.skip(i + 5)),
            None => (seq![], c),
        }
    } else {
        (seq![], c)
    }
}

pub open spec fn pairs_view(v: Seq<(String, String)>) -> Seq<(Seq<char>, Seq<char>)> {
    v.map_values(|p: (String, String)| (p.0@, p.1@))
}

/// Splits a note into its front matter entries and its body.
pub fn parse_file(content: &str) -> (res: (Vec<(String, String)>, String))
    ensures
        pairs_view(res.0@) == parsed(content@).0,
        res.1@ == parsed(content@).1,
{
    let v = chars_of(content);
    let n = v.len();
    if !(n >= 4 && v[0] == '-' && v[1] == '-' && v[2] == '-' && v[3] == '\n') {
        return (Vec::new(), string_of(&v, 0, n));
    }
    let mut i: usize = 4;
    while n >= 5 && i <= n - 5 && !(v[i] == '\n' && v[i + 1] == '-' && v[i + 2] == '-' && v[i + 3] == '-'
        && v[i + 4] == '\n')
        invariant
            v@ == content@,
            n == v@.len(),
            4 <= i <= n,
            find_close(v@, 4) == find_close(v@, i as int),
        decreases n - i,
    {
        assert(!close_at(v@, i as int)) by {
            if close_at(v@, i as int) {
                assert(v@.subrange(i as int, i + 5)[0] == v@[i as int]);
                assert(v@.subrange(i as int, i + 5)[1] == v@[i + 1]);
                assert(v@.subrange(i as int, i + 5)[2] == v@[i + 2]);
                assert(v@.subrange(i as int, i + 5)[3] == v@[i + 3]);
                assert(v@.subrange(i as int, i + 5)[4] == v@[i + 4]);
            }
        }
        i = i + 1;
    }
    if n < 5 || i > n - 5 {
        return (Vec::new(), string_of(&v, 0, n));
    }
    assert(close_at(v@, i as int)) by {
        assert(v@.subrange(i as int, i + 5) =~= close_marker());
    }
    let close = i;
    let body = string_of(&v, close + 5, n);
    assert(v@.subrange(close + 5, n as int) =~= v@.skip(close + 5));
    let ghost text = v@.subrange(4, close as int);
    let mut fm: Vec<(String, String)> = Vec::new();
    let mut start: usize = 4;
    loop
        invariant
            v@ == content@,
            n == v@.len(),
            close + 5 <= n,
            4 <= start <= close,
            opens_frontmatter(v@),
            find_close(v@, 4) == Some(close as int),
            body@ == v@.skip(close + 5),
            text == v@.subrange(4, close as int),
            entries(text) == pairs_view(fm@) + entries(v@.subrange(start as int, close as int)),
        decreases close - start,
    {
        let ghost rest = v@.subrange(start as int, close as int);
        let mut j = start;
        while j < close && v[j] != '\n'
            invariant
                start <= j <= close,
                close + 5 <= n == v@.len(),
                forall|k: int| start <= k < j ==> v@[k] != '\n',
            decreases close - j,
        {
            j = j + 1;
        }
        proof {
            lemma_find_char_at(rest, '\n', 0, (j - start) as int);
        }
        let ghost line = v@.subrange(start as int, j as int);
        assert(line =~= rest.take(j - start));
        let mut k = start;
        while k < j && v[k] != ':'
            invariant
                start <= k <= j <= close,
                close + 5 <= n == v@.len(),
                forall|m: int| start <= m < k ==> v@[m] != ':',
            decreases j - k,
        {
            k = k + 1;
        }
        proof {
            lemma_find_char_at(line, ':', 0, (k - start) as int);
        }
        let ghost before = pairs_view(fm@);
        if k < j {
            let key = trimmed(&v, start, k);
            let value = trimmed(&v, k + 1, j);
            assert(line.take(k - start) =~= v@.subrange(start as int, k as int));
            assert(line.skip(k - start + 1) =~= v@.subrange(k + 1, j as int));
            fm.push((key, value));
            assert(pairs_view(fm@) =~= before + line_entry(line));
        } else {
            assert(pairs_view(fm@) =~= before + line_entry(line));
        }
        if j == close {
            assert(entries(rest) == line_entry(line));
            assert(entries(v@.subrange(close as int, close as int)) =~= seq![]) by {
                lemma_find_char_at(v@.subrange(close as int, close as int), '\n', 0, 0);
                lemma_find_char_at(v@.subrange(close as int, close as int), ':', 0, 0);
            }
            assert(entries(text) =~= pairs_view(fm@));
            return (fm, body);
        }
        assert(rest.skip(j - start + 1) =~= v@.subrange(j + 1, close as int));
        start = j + 1;
    }
}

/// A note is a file whose extension is `md`: a name longer than `.md`
/// that ends in `.md` (`Path::extension` gives no extension to `.md` itself).
pub open spec fn memory_name(name: Seq<char>) -> bool {
    name.len() > 3 && name[name.len() - 3] == '.' && name[name.len() - 2] == 'm' && name[name.len()
        - 1] == 'd'
}

/// Whether a file of this name is a memory note.
pub fn is_memory_file_name(name: &str) -> (res: bool)
    ensures
        res == memory_name(name@),
{
    let v = chars_of(name);
    let n = v.len();
    n > 3 && v[n - 3] == '.' && v[n - 2] == 'm' && v[n - 1] == 'd'
}

/// The name of the index note, which comes first.
pub open spec fn index_name() -> Seq<char> {
    seq!['M', 'E', 'M', 'O', 'R', 'Y', '.', 'm', 'd']
}

/// The order of notes in a project: the index first, then by name.
pub open spec fn file_le(a: Seq<char>, b: Seq<char>) -> bool {
    a == index_name() || (b != index_name() && str_le(a, b))
}

impl SortKey for MemoryFile {
    open spec fn key_le(&self, other: &Self) -> bool {
        file_le(self.name@, other.name@)
    }

    fn le(&self, other: &Self) -> (res: bool) {
        let index = "MEMORY.md";
        proof {
            reveal_strlit("MEMORY.md");
        }
        assert(index@ =~= index_name());
        str_eq(self.name.as_str(), index) || (!str_eq(other.name.as_str(), index) && str_le_exec(
            self.name.as_str(),
            other.name.as_str(),
        ))
    }
}

impl SortKey for Project {
    open spec fn key_le(&self, other: &Self) -> bool {
        str_le(self.real_path@, other.real_path@)
    }

    fn le(&self, other: &Self) -> (res: bool) {
        str_le_exec(self.real_path.as_str(), other.real_path.as_str())
    }
}

/// A subdirectory of the projects directory of the memory store that holds
/// a `memory` directory, with the notes read from it.
pub struct ProjectDir {
    pub encoded: String,
    pub files: Vec<MemoryFile>,
}

/// The notes among `files`, in their order.
pub open spec fn memory_files(files: Seq<MemoryFile>) -> Seq<MemoryFile>
    decreases files.len(),
{
    if files.len() == 0 {
        seq![]
    } else if memory_name(files.last().name@) {
        memory_files(files.drop_last()).push(files.last())
    } else {
        memory_files(files.drop_last())
    }
}

/// A project as its real path, its directory name and its notes.
pub open spec fn project_view(p: Project) -> (Seq<char>, Seq<char>, Seq<MemoryFile>) {
    (p.real_path@, p.encoded@, p.files@)
}

/// The projects of `dirs` that hold notes, in the order of `dirs`, each
/// with its resolved path and its notes in order.
pub open spec fn found_projects(dirs: Seq<ProjectDir>, lookup: Map<Seq<char>, String>) -> Seq<
    (Seq<char>, Seq<char>, Seq<MemoryFile>),
>
    decreases dirs.len(),
{
    if dirs.len() == 0 {
        seq![]
    } else {
        let d = dirs.last();
        let notes = memory_files(d.files@);
        let rest = found_projects(dirs.drop_last(), lookup);
        if notes.len() == 0 {
            rest
        } else {
            rest.push((resolved(d.encoded@, lookup), d.encoded@, sort_by(notes, key_order::<MemoryFile>())))
        }
    }
}

/// Orders projects by real path.
pub open spec fn path_le(a: (Seq<char>, Seq<char>, Seq<MemoryFile>), b: (Seq<char>, Seq<char>, Seq<MemoryFile>)) -> bool {
    str_le(a.0, b.0)
}

/// The projects that a scan gives.
pub open spec fn scanned(claude_json: ClaudeJson, dirs: Seq<ProjectDir>) -> Seq<(Seq<char>, Seq<char>, Seq<MemoryFile>)> {
    sort_by(found_projects(dirs, lookup_of(project_keys(claude_json))), |a, b| path_le(a, b))
}

/// The notes among `files`.
fn keep_memory_files(files: Vec<MemoryFile>) -> (res: Vec<MemoryFile>)
    ensures
        res@ == memory_files(files@),
{
    let ghost s = files@;
    let mut rest = files;
    let mut out: Vec<MemoryFile> = Vec::new();
    let n = rest.len();
    let mut i: usize = 0;
    while i < n
        invariant
            n == s.len(),
            0 <= i <= n,
            rest@ == s.skip(i as int),
            out@ == memory_files(s.take(i as int)),
        decreases n - i,
    {
        let f = rest.remove(0);
        assert(rest@ =~= s.skip(i + 1));
        assert(s.take(i + 1).drop_last() =~= s.take(i as int));
        if is_memory_file_name(f.name.as_str()) {
            out.push(f);
        }
        i = i + 1;
    }
    assert(s.take(n as int) =~= s);
    out
}

/// Gathers the projects that hold notes: their real paths resolved through
/// the project keys of the configuration file, their notes with the index
/// first and the rest by name, and the projects ordered by real path.
pub fn scan_all(claude_json: &ClaudeJson, dirs: Vec<ProjectDir>) -> (res: Vec<Project>)
    ensures
        res@.map_values(|p: Project| project_view(p)) == scanned(*claude_json, dirs@),
{
    let lookup = build_lookup(claude_json);
    let ghost s = dirs@;
    let mut rest = dirs;
    let mut projects: Vec<Project> = Vec::new();
    let n = rest.len();
    let mut i: usize = 0;
    while i < n
        invariant
            n == s.len(),
            0 <= i <= n,
            rest@ == s.skip(i as int),
            lookup@ == lookup_of(project_keys(*claude_json)),
            projects@.map_values(|p: Project| project_view(p)) == found_projects(s.take(i as int), lookup@),
        decreases n - i,
    {
        let d = rest.remove(0);
        assert(d == s[i as int]);
        assert(rest@ =~= s.skip(i + 1));
        assert(s.take(i + 1).drop_last() =~= s.take(i as int));
        let ProjectDir { encoded, files } = d;
        let notes = keep_memory_files(files);
        if notes.len() > 0 {
            let sorted = sort_by_key(notes);
            let real_path = resolve(encoded.as_str(), &lookup);
            let ghost before = projects@;
            projects.push(Project { real_path, encoded, files: sorted });
            assert(projects@.map_values(|p: Project| project_view(p)) =~= before.map_values(|p: Project| project_view(p)).push(project_view(projects@.last())));
        }
        i = i + 1;
    }
    assert(s.take(n as int) =~= s);
    let ghost found = projects@;
    let res = sort_by_key(projects);
    proof {
        lemma_sort_by_map(
            found,
            |p: Project| project_view(p),
            key_order::<Project>(),
            |a: (Seq<char>, Seq<char>, Seq<MemoryFile>), b: (Seq<char>, Seq<char>, Seq<MemoryFile>)| path_le(a, b),
        );
    }
    res
}

/// Law: the body is the end of the content: all of it where the content
/// opens no front matter or never closes it, else what follows the `---`
/// line that closes it.
pub proof fn lemma_body_is_a_suffix(c: Seq<char>)
    ensures
        parsed(c).1 == c.skip(c.len() - parsed(c).1.len()),
        !opens_frontmatter(c) || find_close(c, 4) is None ==> parsed(c) == (
            Seq::<(Seq<char>, Seq<char>)>::empty(),
            c,
        ),
{
    if opens_frontmatter(c) {
        match find_close(c, 4) {
            Some(i) => {
                lemma_find_close(c, 4);
                assert(c.skip(c.len() - c.skip(i + 5).len()) =~= c.skip(i + 5));
            },
            None => {
                assert(c.skip(0) =~= c);
            },
        }
    } else {
        assert(c.skip(0) =~= c);
    }
}

proof fn lemma_find_close(s: Seq<char>, i: int)
    requires
        0 <= i,
    ensures
        find_close(s, i) matches Some(j) ==> i <= j && j + 5 <= s.len() && close_at(s, j),
    decreases s.len() - i,
{
    if i + 5 <= s.len() && !close_at(s, i) {
        lemma_find_close(s, i + 1);
    }
}

/// A front matter entry as the line split gives it: key and value trimmed,
/// the key free of `:`, neither holding a line break.
pub open spec fn well_formed_entry(e: (Seq<char>, Seq<char>)) -> bool {
    &&& trim(e.0) == e.0
    &&& trim(e.1) == e.1
    &&& !e.0.contains(':')
    &&& !e.0.contains('\n')
    &&& !e.1.contains('\n')
}

proof fn lemma_trim_excludes(s: Seq<char>, c: char)
    requires
        !s.contains(c),
    ensures
        !trim(s).contains(c),
{
    lemma_trim(s);
    let (a, b) = choose|a: int, b: int| 0 <= a <= b <= s.len() && trim(s) == s.subrange(a, b);
    if trim(s).contains(c) {
        let k = choose|k: int| 0 <= k < trim(s).len() && trim(s)[k] == c;
        assert(s[a + k] == c);
    }
}

proof fn lemma_line_entry(line: Seq<char>)
    requires
        !line.contains('\n'),
    ensures
        forall|i: int| 0 <= i < line_entry(line).len() ==> well_formed_entry(#[trigger] line_entry(line)[i]),
{
    lemma_find_char(line, ':', 0);
    if let Some(k) = find_char(line, ':', 0) {
        let key = line.take(k);
        let value = line.skip(k + 1);
        assert(!key.contains(':')) by {
            if key.contains(':') {
                let m = choose|m: int| 0 <= m < key.len() && key[m] == ':';
                assert(line[m] == ':');
            }
        }
        assert(!key.contains('\n')) by {
            if key.contains('\n') {
                let m = choose|m: int| 0 <= m < key.len() && key[m] == '\n';
                assert(line[m] == '\n');
            }
        }
        assert(!value.contains('\n')) by {
            if value.contains('\n') {
                let m = choose|m: int| 0 <= m < value.len() && value[m] == '\n';
                assert(line[k + 1 + m] == '\n');
            }
        }
        lemma_trim_excludes(key, ':');
        lemma_trim_excludes(key, '\n');
        lemma_trim_excludes(value, '\n');
        lemma_trim(key);
        lemma_trim(value);
    }
}

/// Law: every front matter entry is well formed: the key is what comes
/// before the first `:` of its line, the value the rest, both trimmed.
pub proof fn lemma_entries_well_formed(text: Seq<char>)
    ensures
        forall|i: int| 0 <= i < entries(text).len() ==> well_formed_entry(#[trigger] entries(text)[i]),
    decreases text.len(),
{
    lemma_find_char(text, '\n', 0);
    match find_char(text, '\n', 0) {
        Some(j) => {
            let line = text.take(j);
            assert(!line.contains('\n')) by {
                if line.contains('\n') {
                    let m = choose|m: int| 0 <= m < line.len() && line[m] == '\n';
                    assert(text[m] == '\n');
                }
            }
            lemma_line_entry(line);
            lemma_entries_well_formed(text.skip(j + 1));
            let a = line_entry(line);
            let b = entries(text.skip(j + 1));
            assert forall|i: int| 0 <= i < entries(text).len() implies well_formed_entry(#[trigger] entries(text)[i]) by {
                if i < a.len() {
                    assert(entries(text)[i] == a[i]);
                } else {
                    assert(entries(text)[i] == b[i - a.len()]);
                }
            }
        },
        None => {
            lemma_line_entry(text);
        },
    }
}

/// Law: the front matter of any content is made of well formed entries.
pub proof fn lemma_frontmatter_well_formed(c: Seq<char>)
    ensures
        forall|i: int| 0 <= i < parsed(c).0.len() ==> well_formed_entry(#[trigger] parsed(c).0[i]),
{
    if opens_frontmatter(c) {
        if let Some(i) = find_close(c, 4) {
            lemma_entries_well_formed(c.subrange(4, i));
        }
    }
}

proof fn lemma_path_le_total_preorder()
    ensures
        total_preorder(
            |a: (Seq<char>, Seq<char>, Seq<MemoryFile>), b: (Seq<char>, Seq<char>, Seq<MemoryFile>)|
                path_le(a, b),
        ),
{
    assert forall|a: (Seq<char>, Seq<char>, Seq<MemoryFile>), b: (Seq<char>, Seq<char>, Seq<MemoryFile>)|
        path_le(a, b) || path_le(b, a) by {
        lemma_str_le_total(a.0, b.0);
    }
    assert forall|
        a: (Seq<char>, Seq<char>, Seq<MemoryFile>),
        b: (Seq<char>, Seq<char>, Seq<MemoryFile>),
        c: (Seq<char>, Seq<char>, Seq<MemoryFile>),
    | path_le(a, b) && path_le(b, c) implies path_le(a, c) by {
        lemma_str_le_trans(a.0, b.0, c.0);
    }
}

proof fn lemma_file_order_total_preorder()
    ensures
        total_preorder(key_order::<MemoryFile>()),
{
    assert forall|a: MemoryFile, b: MemoryFile| #[trigger] key_order::<MemoryFile>()(a, b) || key_order::<MemoryFile>()(b, a) by {
        lemma_str_le_total(a.name@, b.name@);
    }
    assert forall|a: MemoryFile, b: MemoryFile, c: MemoryFile|
        #[trigger] key_order::<MemoryFile>()(a, b) && #[trigger] key_order::<MemoryFile>()(b, c) implies key_order::<MemoryFile>()(a, c) by {
        if a.name@ != index_name() {
            lemma_str_le_trans(a.name@, b.name@, c.name@);
        }
    }
}

/// Law: the projects of a scan are ordered by real path.
pub proof fn lemma_scan_is_ordered(claude_json: ClaudeJson, dirs: Seq<ProjectDir>)
    ensures
        is_sorted(
            scanned(claude_json, dirs),
            |a: (Seq<char>, Seq<char>, Seq<MemoryFile>), b: (Seq<char>, Seq<char>, Seq<MemoryFile>)|
                path_le(a, b),
        ),
{
    lemma_path_le_total_preorder();
    lemma_sort_by_sorted(
        found_projects(dirs, lookup_of(project_keys(claude_json))),
        |a: (Seq<char>, Seq<char>, Seq<MemoryFile>), b: (Seq<char>, Seq<char>, Seq<MemoryFile>)|
            path_le(a, b),
    );
}

proof fn lemma_memory_files(files: Seq<MemoryFile>)
    ensures
        forall|j: int| 0 <= j < memory_files(files).len() ==> memory_name(#[trigger] memory_files(files)[j].name@),
        forall|j: int| 0 <= j < memory_files(files).len() ==> files.contains(#[trigger] memory_files(files)[j]),
    decreases files.len(),
{
    if files.len() > 0 {
        lemma_memory_files(files.drop_last());
        let m = memory_files(files);
        let prev = memory_files(files.drop_last());
        assert forall|j: int| 0 <= j < m.len() implies files.contains(#[trigger] m[j]) by {
            if j < prev.len() {
                assert(m[j] == prev[j]);
                let k = choose|k: int| 0 <= k < files.drop_last().len() && files.drop_last()[k] == prev[j];
                assert(files[k] == prev[j]);
            } else {
                assert(m[j] == files[files.len() - 1]);
            }
        }
        assert forall|j: int| 0 <= j < m.len() implies memory_name(#[trigger] m[j].name@) by {
            if j < prev.len() {
                assert(m[j] == prev[j]);
            }
        }
    }
}

/// What holds of each project that a scan gives: it is a directory of the
/// scan, under its resolved path; its notes are all `.md` files of that
/// directory, at least one, ordered with the index `MEMORY.md` first and the
/// others by name.
pub open spec fn scanned_project(
    p: (Seq<char>, Seq<char>, Seq<MemoryFile>),
    dirs: Seq<ProjectDir>,
    lookup: Map<Seq<char>, String>,
) -> bool {
    &&& p.2.len() > 0
    &&& forall|j: int| 0 <= j < p.2.len() ==> memory_name(#[trigger] p.2[j].name@)
    &&& is_sorted(p.2, key_order::<MemoryFile>())
    &&& forall|j: int| 0 <= j < p.2.len() && #[trigger] p.2[j].name@ == index_name() ==> p.2[0].name@ == index_name()
    &&& exists|d: int| 0 <= d < dirs.len() && #[trigger] dirs[d].encoded@ == p.1 && p.0 == resolved(p.1, lookup)
        && p.2 == sort_by(memory_files(dirs[d].files@), key_order::<MemoryFile>())
}

proof fn lemma_found_projects(dirs: Seq<ProjectDir>, lookup: Map<Seq<char>, String>)
    ensures
        forall|k: int| 0 <= k < found_projects(dirs, lookup).len() ==> scanned_project(#[trigger] found_projects(dirs, lookup)[k], dirs, lookup),
    decreases dirs.len(),
{
    if dirs.len() > 0 {
        lemma_found_projects(dirs.drop_last(), lookup);
        let f = found_projects(dirs, lookup);
        let prev = found_projects(dirs.drop_last(), lookup);
        let d = dirs.last();
        let notes = memory_files(d.files@);
        assert forall|k: int| 0 <= k < f.len() implies scanned_project(#[trigger] f[k], dirs, lookup) by {
            if k < prev.len() {
                assert(f[k] == prev[k]);
                let p = prev[k];
                assert(scanned_project(p, dirs.drop_last(), lookup));
                let i = choose|i: int| 0 <= i < dirs.drop_last().len() && #[trigger] dirs.drop_last()[i].encoded@ == p.1 && p.0 == resolved(p.1, lookup)
                    && p.2 == sort_by(memory_files(dirs.drop_last()[i].files@), key_order::<MemoryFile>());
                assert(dirs[i] == dirs.drop_last()[i]);
            } else {
                let p = f[k];
                let sorted = sort_by(notes, key_order::<MemoryFile>());
                assert(p == (resolved(d.encoded@, lookup), d.encoded@, sorted));
                lemma_sort_by_permutation(notes, key_order::<MemoryFile>());
                lemma_memory_files(d.files@);
                assert forall|j: int| 0 <= j < sorted.len() implies memory_name(#[trigger] sorted[j].name@) by {
                    lemma_sort_by_contains(notes, key_order::<MemoryFile>(), j);
                }
                lemma_file_order_total_preorder();
                lemma_sort_by_sorted(notes, key_order::<MemoryFile>());
                assert forall|j: int| 0 <= j < sorted.len() && #[trigger] sorted[j].name@ == index_name() implies sorted[0].name@ == index_name() by {
                    if j > 0 {
                        assert(key_order::<MemoryFile>()(sorted[0], sorted[j]));
                    }
                }
                assert(dirs[dirs.len() - 1].encoded@ == p.1);
            }
        }
    }
}

/// Law: every project of a scan is a directory of the scan that holds
/// notes, under the path that resolving its name gives, its notes being
/// its `.md` files with the index first and the others by name.
pub proof fn lemma_scanned_projects(claude_json: ClaudeJson, dirs: Seq<ProjectDir>)
    ensures
        forall|k: int| 0 <= k < scanned(claude_json, dirs).len() ==> scanned_project(
            #[trigger] scanned(claude_json, dirs)[k],
            dirs,
            lookup_of(project_keys(claude_json)),
        ),
        scanned(claude_json, dirs).len() == found_projects(dirs, lookup_of(project_keys(claude_json))).len(),
{
    let lookup = lookup_of(project_keys(claude_json));
    let le = |a: (Seq<char>, Seq<char>, Seq<MemoryFile>), b: (Seq<char>, Seq<char>, Seq<MemoryFile>)| path_le(a, b);
    let f = found_projects(dirs, lookup);
    lemma_found_projects(dirs, lookup);
    lemma_sort_by_permutation(f, le);
    assert forall|k: int| 0 <= k < scanned(claude_json, dirs).len() implies scanned_project(
        #[trigger] scanned(claude_json, dirs)[k],
        dirs,
        lookup,
    ) by {
        lemma_sort_by_contains(f, le, k);
    }
}

/// Law: every `.md` file among `files` is kept as a note, and nothing else
/// is.
pub proof fn lemma_memory_files_are_the_md_files(files: Seq<MemoryFile>)
    ensures
        forall|i: int| 0 <= i < files.len() && memory_name(#[trigger] files[i].name@) ==> memory_files(files).contains(
            files[i],
        ),
        forall|j: int| 0 <= j < memory_files(files).len() ==> memory_name(#[trigger] memory_files(files)[j].name@)
            && files.contains(memory_files(files)[j]),
    decreases files.len(),
{
    lemma_memory_files(files);
    if files.len() > 0 {
        lemma_memory_files_are_the_md_files(files.drop_last());
        let m = memory_files(files);
        let prev = memory_files(files.drop_last());
        assert forall|i: int| 0 <= i < files.len() && memory_name(#[trigger] files[i].name@) implies m.contains(files[i]) by {
            if i < files.len() - 1 {
                assert(files.drop_last()[i] == files[i]);
                assert(prev.contains(files[i]));
                let j = choose|j: int| 0 <= j < prev.len() && prev[j] == files[i];
                if memory_name(files.last().name@) {
                    assert(m[j] == prev[j]);
                } else {
                    assert(m[j] == prev[j]);
                }
            } else {
                assert(m[m.len() - 1] == files[i]);
            }
        }
    }
}

proof fn lemma_found_projects_complete(dirs: Seq<ProjectDir>, lookup: Map<Seq<char>, String>, i: int)
    requires
        0 <= i < dirs.len(),
        memory_files(dirs[i].files@).len() > 0,
    ensures
        found_projects(dirs, lookup).contains(
            (
                resolved(dirs[i].encoded@, lookup),
                dirs[i].encoded@,
                sort_by(memory_files(dirs[i].files@), key_order::<MemoryFile>()),
            ),
        ),
    decreases dirs.len(),
{
    let f = found_projects(dirs, lookup);
    let prev = found_projects(dirs.drop_last(), lookup);
    let x = (
        resolved(dirs[i].encoded@, lookup),
        dirs[i].encoded@,
        sort_by(memory_files(dirs[i].files@), key_order::<MemoryFile>()),
    );
    if i == dirs.len() - 1 {
        assert(f[f.len() - 1] == x);
    } else {
        assert(dirs.drop_last()[i] == dirs[i]);
        lemma_found_projects_complete(dirs.drop_last(), lookup, i);
        let k = choose|k: int| 0 <= k < prev.len() && prev[k] == x;
        assert(f[k] == prev[k]);
    }
}

/// Law: every directory of the scan that holds at least one `.md` file is a
/// project of the scan, under its resolved path, with all those files as
/// its notes.
pub proof fn lemma_every_dir_with_notes_is_scanned(claude_json: ClaudeJson, dirs: Seq<ProjectDir>, i: int, n: int)
    requires
        0 <= i < dirs.len(),
        0 <= n < dirs[i].files@.len(),
        memory_name(dirs[i].files@[n].name@),
    ensures
        exists|k: int|
            0 <= k < scanned(claude_json, dirs).len() && (#[trigger] scanned(claude_json, dirs)[k]).1 == dirs[i].encoded@
                && scanned(claude_json, dirs)[k].0 == resolved(dirs[i].encoded@, lookup_of(project_keys(claude_json)))
                && scanned(claude_json, dirs)[k].2.to_multiset() == memory_files(dirs[i].files@).to_multiset(),
{
    broadcast use vstd::seq_lib::to_multiset_contains;

    let lookup = lookup_of(project_keys(claude_json));
    let le = |a: (Seq<char>, Seq<char>, Seq<MemoryFile>), b: (Seq<char>, Seq<char>, Seq<MemoryFile>)| path_le(a, b);
    let files = dirs[i].files@;
    lemma_memory_files_are_the_md_files(files);
    assert(memory_files(files).contains(files[n]));
    let notes = memory_files(files);
    let x = (resolved(dirs[i].encoded@, lookup), dirs[i].encoded@, sort_by(notes, key_order::<MemoryFile>()));
    lemma_found_projects_complete(dirs, lookup, i);
    let f = found_projects(dirs, lookup);
    lemma_sort_by_permutation(f, le);
    let r = scanned(claude_json, dirs);
    assert(f.to_multiset().count(x) > 0);
    assert(r.to_multiset().count(x) > 0);
    assert(r.contains(x));
    let k = choose|k: int| 0 <= k < r.len() && r[k] == x;
    lemma_sort_by_permutation(notes, key_order::<MemoryFile>());
    assert(r[k].1 == dirs[i].encoded@);
}

} // verus!
