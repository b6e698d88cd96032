//! The HTML page: the project tree on the left, every project's notes on
//! the right, and the Markdown of each note rendered by comrak.
use vstd::prelude::*;
use crate::text::push_str;
use crate::tree::{
    Node,
    NodeV,
    node_view,
    nodes_view,
    lemma_nodes_view,
    tree_has_key,
    forest_has_key,
    tree_of,
    tree_weight,
    forest_weight,
    weight_sum,
    distinct_segments,
    lemma_tree_has_each_project_once,
    lemma_weight_sum_indicator,
    segments,
    lemma_tree_holds_every_project,
};
use crate::memory::{Project, MemoryFile, pairs_view};
use crate::links::{rewritten, rewrite_links};
use crate::paths::strings_view;

verus! {

pub const CSS: &'static str = r#"
* { box-sizing: border-box; }
body { margin: 0; height: 100vh; display: flex; font-family: -apple-system, BlinkMacSystemFont, "Segoe UI", sans-serif; color: #1d1d1f; }
aside#tree { width: 340px; flex: 0 0 340px; height: 100vh; overflow-y: auto; padding: 0.75rem; background: #f5f5f7; border-right: 1px solid #d2d2d7; font-size: 0.9rem; }
main#content { flex: 1; height: 100vh; overflow-y: auto; padding: 2rem 2.5rem; }
.proj-view, #empty { max-width: 90ch; }
details { margin-left: 0.25rem; }
summary { cursor: pointer; padding: 2px 4px; border-radius: 4px; font-family: ui-monospace, "SF Mono", Menlo, monospace; }
summary:hover { background: #e8e8ed; }
details > details, details > button.proj { margin-left: 0.9rem; }
button.proj { display: block; width: 100%; text-align: left; padding: 3px 6px; margin: 1px 0; border: 0; background: transparent; border-radius: 4px; cursor: pointer; font: inherit; font-family: ui-monospace, "SF Mono", Menlo, monospace; color: #1d1d1f; }
button.proj:hover { background: #e8e8ed; }
button.proj.selected { background: #cce4ff; }
button.proj.self { color: #6e6e73; font-style: italic; }
#empty { color: #6e6e73; font-style: italic; }
.proj-view h1 { font-family: ui-monospace, "SF Mono", Menlo, monospace; font-size: 1rem; color: #555; margin: 0 0 1.5rem 0; word-break: break-all; }
section.file { padding-top: 1rem; margin-top: 1rem; border-top: 1px solid #e5e5ea; }
section.file:first-of-type { border-top: 0; padding-top: 0; margin-top: 0; }
section.file h2 { font-family: ui-monospace, "SF Mono", Menlo, monospace; font-size: 1rem; margin: 0 0 0.75rem 0; color: #1d1d1f; }
dl.frontmatter { background: #fff8e1; border-left: 3px solid #fbc02d; padding: 0.5rem 0.75rem; margin: 0 0 1rem 0; font-size: 0.85rem; display: grid; grid-template-columns: max-content 1fr; column-gap: 0.75rem; row-gap: 0.25rem; }
dl.frontmatter dt { font-family: ui-monospace, "SF Mono", Menlo, monospace; color: #6e6e73; }
dl.frontmatter dd { margin: 0; }
.body code, .body pre { font-family: ui-monospace, "SF Mono", Menlo, monospace; font-size: 0.9em; }
.body pre { background: #f5f5f7; padding: 0.75rem; border-radius: 6px; overflow-x: auto; }
.body p code { background: #f5f5f7; padding: 0.1em 0.3em; border-radius: 3px; }
.body h1, .body h2, .body h3 { line-height: 1.3; }
.body blockquote { margin: 0; padding-left: 1rem; border-left: 3px solid #d2d2d7; color: #6e6e73; }
.empty-tree { color: #6e6e73; font-style: italic; }
"#;

pub const JS: &'static str = r#"
function showProject(key) {
  document.querySelectorAll('.proj-view').forEach(el => {
    el.hidden = !key || el.dataset.key !== key;
  });
  const empty = document.getElementById('empty');
  empty.hidden = !!key;
  document.querySelectorAll('button.proj').forEach(b => {
    b.classList.toggle('selected', !!key && b.dataset.key === key);
  });
}
function selectFromHash() {
  const raw = location.hash.slice(1);
  const cut = raw.indexOf('/');
  const key = decodeURIComponent(cut < 0 ? raw : raw.slice(0, cut));
  showProject(key || null);
  if (cut < 0) return;
  const file = decodeURIComponent(raw.slice(cut + 1));
  const view = Array.from(document.querySelectorAll('.proj-view')).find(el => el.dataset.key === key);
  if (!view) return;
  const section = Array.from(view.querySelectorAll('section.file')).find(el => el.dataset.file === file);
  if (section) section.scrollIntoView();
}
document.addEventListener('click', e => {
  const b = e.target.closest('button.proj');
  if (!b) return;
  location.hash = encodeURIComponent(b.dataset.key);
});
window.addEventListener('hashchange', selectFromHash);
document.addEventListener('DOMContentLoaded', selectFromHash);
"#;

/// What escaping makes of one character.
pub open spec fn escape_char(c: char) -> Seq<char> {
    if c == '&' {
        seq!['&', 'a', 'm', 'p', ';']
    } else if c == '<' {
        seq!['&', 'l', 't', ';']
    } else if c == '>' {
        seq!['&', 'g', 't', ';']
    } else if c == '"' {
        seq!['&', 'q', 'u', 'o', 't', ';']
    } else if c == '\'' {
        seq!['&', '#', '3', '9', ';']
    } else {
        seq![c]
    }
}

/// `s` with the HTML metacharacters `&`, `<`, `>`, `"` and `'` escaped.
pub open spec fn escaped(s: Seq<char>) -> Seq<char>
    decreases s.len(),
{
    if s.len() == 0 {
        seq![]
    } else {
        escaped(s.drop_last()) + escape_char(s.last())
    }
}

/// No character that could end text or a quoted attribute.
pub open spec fn html_safe(c: char) -> bool {
    c != '<' && c != '>' && c != '"' && c != '\''
}

/// Law: escaped text holds no `<`, `>`, `"` or `'`, so it can neither open
/// a tag nor end an attribute value.
pub proof fn lemma_escaped_is_safe(s: Seq<char>)
    ensures
        forall|i: int| 0 <= i < escaped(s).len() ==> html_safe(#[trigger] escaped(s)[i]),
    decreases s.len(),
{
    if s.len() > 0 {
        lemma_escaped_is_safe(s.drop_last());
        let a = escaped(s.drop_last());
        let b = escape_char(s.last());
        assert forall|i: int| 0 <= i < escaped(s).len() implies html_safe(#[trigger] escaped(s)[i]) by {
            if i >= a.len() {
                assert(escaped(s)[i] == b[i - a.len()]);
            } else {
                assert(escaped(s)[i] == a[i]);
            }
        }
    }
}

/// Escapes the characters that would end text or an attribute value in HTML.
pub fn html_escape(s: &str) -> (res: String)
    ensures
        res@ == escaped(s@),
{
    let mut out = String::new();
    for c in it: s.chars()
        invariant
            it.seq() == s@,
            out@ == escaped(s@.take(it.index() as int)),
    {
        let ghost before = out@;
        if c == '&' {
            push_str(&mut out, "&amp;");
            proof { reveal_strlit("&amp;"); }
        } else if c == '<' {
            push_str(&mut out, "&lt;");
            proof { reveal_strlit("&lt;"); }
        } else if c == '>' {
            push_str(&mut out, "&gt;");
            proof { reveal_strlit("&gt;"); }
        } else if c == '"' {
            push_str(&mut out, "&quot;");
            proof { reveal_strlit("&quot;"); }
        } else if c == '\'' {
            push_str(&mut out, "&#39;");
            proof { reveal_strlit("&#39;"); }
        } else {
            out.push(c);
        }
        assert(out@ =~= before + escape_char(c));
        assert(s@.take(it.index() + 1).drop_last() =~= s@.take(it.index() as int));
    }
    assert(s@.take(s@.len() as int) =~= s@);
    out
}

/// Appends `s` escaped.
fn push_escaped(out: &mut String, s: &str)
    ensures
        final(out)@ == old(out)@ + escaped(s@),
{
    let e = html_escape(s);
    push_str(out, e.as_str());
}

/// The button of the project `key`, inside a folder that is that project.
pub open spec fn self_button(key: Option<Seq<char>>) -> Seq<char> {
    match key {
        Some(k) => "<button class=\"proj self\" data-key=\""@ + escaped(k)
            + "\">(this folder)</button>"@,
        None => seq![],
    }
}

/// The HTML of a node of the tree: a project button for a leaf, an open
/// `<details>` folder with its own project button and its children otherwise.
pub open spec fn node_html(n: NodeV) -> Seq<char>
    decreases n, 1nat,
{
    if n.children.len() == 0 {
        match n.key {
            Some(k) => "<button class=\"proj\" data-key=\""@ + escaped(k) + "\">"@ + escaped(n.name)
                + "</button>"@,
            None => seq![],
        }
    } else {
        "<details open><summary>"@ + escaped(n.name) + "</summary>"@ + self_button(n.key)
            + forest_html(n.children) + "</details>"@
    }
}

/// The HTML of the nodes of a forest, in order.
pub open spec fn forest_html(s: Seq<NodeV>) -> Seq<char>
    decreases s, 0nat,
{
    if s.len() == 0 {
        seq![]
    } else {
        forest_html(s.drop_last()) + node_html(s.last())
    }
}

fn render_node(node: &Node, out: &mut String)
    ensures
        final(out)@ == old(out)@ + node_html(node_view(*node)),
    decreases node,
{
    let ghost start = out@;
    let ghost v = node_view(*node);
    proof {
        lemma_nodes_view(node.children@);
    }
    if node.children.len() == 0 {
        match &node.project_key {
            Some(key) => {
                push_str(out, "<button class=\"proj\" data-key=\"");
                push_escaped(out, key.as_str());
                push_str(out, "\">");
                push_escaped(out, node.name.as_str());
                push_str(out, "</button>");
                assert(out@ =~= start + node_html(v));
            },
            None => {
                assert(out@ =~= start + node_html(v));
            },
        }
        return;
    }
    push_str(out, "<details open><summary>");
    push_escaped(out, node.name.as_str());
    push_str(out, "</summary>");
    let ghost head = out@;
    match &node.project_key {
        Some(key) => {
            push_str(out, "<button class=\"proj self\" data-key=\"");
            push_escaped(out, key.as_str());
            push_str(out, "\">(this folder)</button>");
        },
        None => {},
    }
    assert(out@ =~= head + self_button(v.key));
    let ghost mid = out@;
    let n = node.children.len();
    let mut i: usize = 0;
    assert(nodes_view(node.children@.take(0)) =~= seq![]) by {
        assert(node.children@.take(0) =~= Seq::<Node>::empty());
    }
    while i < n
        invariant
            n == node.children@.len(),
            0 <= i <= n,
            out@ == mid + forest_html(nodes_view(node.children@.take(i as int))),
        decreases n - i,
    {
        render_node(&node.children[i], out);
        proof {
            let t = node.children@.take(i + 1);
            assert(t.drop_last() =~= node.children@.take(i as int));
            assert(t.last() == node.children@[i as int]);
            let x = nodes_view(node.children@.take(i as int));
            assert(nodes_view(t) == x.push(node_view(node.children@[i as int])));
            assert(nodes_view(t).drop_last() =~= x);
            assert(forest_html(nodes_view(t)) == forest_html(x) + node_html(node_view(node.children@[i as int])));
        }
        assert(out@ =~= mid + forest_html(nodes_view(node.children@.take(i + 1))));
        i = i + 1;
    }
    assert(node.children@.take(n as int) =~= node.children@);
    push_str(out, "</details>");
    assert(out@ =~= start + node_html(v));
}

/// The HTML that comrak's `markdown_to_html` makes of `md` with
/// `Options::default()` but for the extensions given (raw HTML is omitted,
/// as `render.unsafe` stays off by default).
pub uninterp spec fn comrak_html(
    md: Seq<char>,
    table: bool,
    strikethrough: bool,
    autolink: bool,
    tasklist: bool,
    footnotes: bool,
    tagfilter: bool,
) -> Seq<char>;

/// Calls `comrak::markdown_to_html` on `md` with `comrak::Options::default()`
/// in which the extension flags are set as given; the contract names the
/// result and says nothing more of it.
#[verifier::external_body]
fn comrak_markdown_to_html(
    md: &str,
    table: bool,
    strikethrough: bool,
    autolink: bool,
    tasklist: bool,
    footnotes: bool,
    tagfilter: bool,
) -> (res: String)
    ensures
        res@ == comrak_html(md@, table, strikethrough, autolink, tasklist, footnotes, tagfilter),
{
    let mut options = comrak::Options::default();
    options.extension.table = table;
    options.extension.strikethrough = strikethrough;
    options.extension.autolink = autolink;
    options.extension.tasklist = tasklist;
    options.extension.footnotes = footnotes;
    options.extension.tagfilter = tagfilter;
    comrak::markdown_to_html(md, &options)
}

/// The HTML of a note's Markdown: CommonMark with the GFM tables,
/// strikethrough, autolinks, task lists, footnotes and tag filter.
pub open spec fn markdown_html(md: Seq<char>) -> Seq<char> {
    comrak_html(md, true, true, true, true, true, true)
}

/// Renders Markdown to HTML; raw HTML in the input does not pass through.
pub fn render_markdown(md: &str) -> (res: String)
    ensures
        res@ == markdown_html(md@),
{
    comrak_markdown_to_html(md, true, true, true, true, true, true)
}

/// The `<dt>`/`<dd>` pairs of front matter entries.
pub open spec fn entries_html(p: Seq<(Seq<char>, Seq<char>)>) -> Seq<char>
    decreases p.len(),
{
    if p.len() == 0 {
        seq![]
    } else {
        entries_html(p.drop_last()) + "<dt>"@ + escaped(p.last().0) + "</dt><dd>"@ + escaped(
            p.last().1,
        ) + "</dd>"@
    }
}

/// The front matter callout, absent where there are no entries.
pub open spec fn frontmatter_html(p: Seq<(Seq<char>, Seq<char>)>) -> Seq<char> {
    if p.len() == 0 {
        seq![]
    } else {
        "<dl class=\"frontmatter\">"@ + entries_html(p) + "</dl>"@
    }
}

/// The section of one note whose Markdown renders to `body_html`: its name,
/// its front matter and the body.
pub open spec fn section_html(f: MemoryFile, body_html: Seq<char>) -> Seq<char> {
    "<section class=\"file\" data-file=\""@ + escaped(f.name@) + "\">"@ + "<h2>"@ + escaped(f.name@) + "</h2>"@ + frontmatter_html(
        pairs_view(f.frontmatter@),
    ) + "<div class=\"body\">"@ + body_html + "</div>"@ + "</section>"@
}

/// The names of notes, in order.
pub open spec fn note_names(fs: Seq<MemoryFile>) -> Seq<Seq<char>> {
    fs.map_values(|f: MemoryFile| f.name@)
}

/// The section of one note of project `key` with its body rendered, links
/// to the project's notes `names` turned into links to their sections.
pub open spec fn file_html(f: MemoryFile, key: Seq<char>, names: Seq<Seq<char>>) -> Seq<char> {
    section_html(f, rewritten(markdown_html(f.body@), key, names))
}

/// Appends the section of a note whose body is already rendered to `body_html`.
fn push_file_section(file: &MemoryFile, body_html: &str, out: &mut String)
    ensures
        final(out)@ == old(out)@ + section_html(*file, body_html@),
{
    let ghost start = out@;
    push_str(out, "<section class=\"file\" data-file=\"");
    push_escaped(out, file.name.as_str());
    push_str(out, "\">");
    push_str(out, "<h2>");
    push_escaped(out, file.name.as_str());
    push_str(out, "</h2>");
    let ghost head = out@;
    let ghost p = pairs_view(file.frontmatter@);
    if file.frontmatter.len() > 0 {
        push_str(out, "<dl class=\"frontmatter\">");
        let ghost dl = out@;
        let n = file.frontmatter.len();
        let mut i: usize = 0;
        assert(p.take(0) =~= seq![]);
        while i < n
            invariant
                n == file.frontmatter@.len() == p.len(),
                p == pairs_view(file.frontmatter@),
                0 <= i <= n,
                out@ == dl + entries_html(p.take(i as int)),
            decreases n - i,
        {
            let (k, v) = &file.frontmatter[i];
            push_str(out, "<dt>");
            push_escaped(out, k.as_str());
            push_str(out, "</dt><dd>");
            push_escaped(out, v.as_str());
            push_str(out, "</dd>");
            assert(p.take(i + 1).drop_last() =~= p.take(i as int));
            assert(p[i as int] == (k@, v@));
            assert(out@ =~= dl + entries_html(p.take(i + 1)));
            i = i + 1;
        }
        assert(p.take(n as int) =~= p);
        push_str(out, "</dl>");
    }
    assert(out@ =~= head + frontmatter_html(p));
    push_str(out, "<div class=\"body\">");
    push_str(out, body_html);
    push_str(out, "</div>");
    push_str(out, "</section>");
    assert(out@ =~= start + section_html(*file, body_html@));
}

/// The HTML section of a note whose Markdown body rendered to `body_html`.
pub fn file_section(file: &MemoryFile, body_html: &str) -> (res: String)
    ensures
        res@ == section_html(*file, body_html@),
{
    let mut out = String::new();
    push_file_section(file, body_html, &mut out);
    assert(out@ =~= section_html(*file, body_html@));
    out
}

fn render_file(file: &MemoryFile, key: &str, names: &[String], out: &mut String)
    ensures
        final(out)@ == old(out)@ + file_html(*file, key@, strings_view(names@)),
{
    let html = render_markdown(file.body.as_str());
    let linked = rewrite_links(html.as_str(), key, names);
    push_file_section(file, linked.as_str(), out);
}

/// The notes of project `key`, in order.
pub open spec fn files_html(fs: Seq<MemoryFile>, key: Seq<char>, names: Seq<Seq<char>>) -> Seq<char>
    decreases fs.len(),
{
    if fs.len() == 0 {
        seq![]
    } else {
        files_html(fs.drop_last(), key, names) + file_html(fs.last(), key, names)
    }
}

/// The hidden article of a project: its path as heading, then its notes.
pub open spec fn project_html(p: Project) -> Seq<char> {
    "<article class=\"proj-view\" data-key=\""@ + escaped(p.real_path@) + "\" hidden>"@ + "<h1>"@
        + escaped(p.real_path@) + "</h1>"@ + files_html(p.files@, p.real_path@, note_names(p.files@))
        + "</article>"@
}

/// The names of the notes `files`.
fn names_of(files: &Vec<MemoryFile>) -> (res: Vec<String>)
    ensures
        strings_view(res@) == note_names(files@),
{
    let n = files.len();
    let mut res: Vec<String> = Vec::new();
    let mut i: usize = 0;
    while i < n
        invariant
            n == files@.len(),
            0 <= i <= n,
            res@.len() == i,
            forall|k: int| 0 <= k < i ==> #[trigger] res@[k]@ == files@[k].name@,
        decreases n - i,
    {
        res.push(files[i].name.clone());
        i = i + 1;
    }
    assert(strings_view(res@) =~= note_names(files@));
    res
}

fn render_project(proj: &Project, out: &mut String)
    ensures
        final(out)@ == old(out)@ + project_html(*proj),
{
    let ghost start = out@;
    push_str(out, "<article class=\"proj-view\" data-key=\"");
    push_escaped(out, proj.real_path.as_str());
    push_str(out, "\" hidden>");
    push_str(out, "<h1>");
    push_escaped(out, proj.real_path.as_str());
    push_str(out, "</h1>");
    let ghost head = out@;
    let names = names_of(&proj.files);
    let ghost key = proj.real_path@;
    let ghost ns = note_names(proj.files@);
    let n = proj.files.len();
    let mut i: usize = 0;
    assert(proj.files@.take(0) =~= seq![]);
    while i < n
        invariant
            n == proj.files@.len(),
            0 <= i <= n,
            key == proj.real_path@,
            strings_view(names@) == ns,
            out@ == head + files_html(proj.files@.take(i as int), key, ns),
        decreases n - i,
    {
        render_file(&proj.files[i], proj.real_path.as_str(), names.as_slice(), out);
        assert(proj.files@.take(i + 1).drop_last() =~= proj.files@.take(i as int));
        assert(out@ =~= head + files_html(proj.files@.take(i + 1), key, ns));
        i = i + 1;
    }
    assert(proj.files@.take(n as int) =~= proj.files@);
    push_str(out, "</article>");
    assert(out@ =~= start + project_html(*proj));
}

/// The articles of all projects, in order.
pub open spec fn projects_html(ps: Seq<Project>) -> Seq<char>
    decreases ps.len(),
{
    if ps.len() == 0 {
        seq![]
    } else {
        projects_html(ps.drop_last()) + project_html(ps.last())
    }
}

/// The left pane: the tree, or a note that there is nothing.
pub open spec fn tree_pane(tree: Seq<NodeV>) -> Seq<char> {
    if tree.len() == 0 {
        "<p class=\"empty-tree\">No auto-memory found.</p>"@
    } else {
        forest_html(tree)
    }
}

/// The whole page.
pub open spec fn page_html(tree: Seq<NodeV>, projects: Seq<Project>) -> Seq<char> {
    "<!doctype html>\n"@ + "<html lang=\"en\"><head><meta charset=\"utf-8\">"@
        + "<title>Auto-Memory Viewer</title>"@ + "<style>"@ + CSS@
        + "</style></head><body>"@ + "<aside id=\"tree\">"@ + tree_pane(tree) + "</aside>"@
        + "<main id=\"content\">"@ + "<div id=\"empty\">Select a project on the left.</div>"@
        + projects_html(projects) + "</main>"@ + "<script>"@ + JS@ + "</script>"@
        + "</body></html>"@
}

/// Renders the full HTML document: the tree on the left, an article per
/// project on the right, the script that switches between them.
pub fn render_page(tree: &[Node], projects: &[Project]) -> (res: String)
    ensures
        res@ == page_html(nodes_view(tree@), projects@),
{
    let mut out = String::new();
    push_str(&mut out, "<!doctype html>\n");
    push_str(&mut out, "<html lang=\"en\"><head><meta charset=\"utf-8\">");
    push_str(&mut out, "<title>Auto-Memory Viewer</title>");
    push_str(&mut out, "<style>");
    push_str(&mut out, CSS);
    push_str(&mut out, "</style></head><body>");
    push_str(&mut out, "<aside id=\"tree\">");
    let ghost head = out@;
    proof {
        lemma_nodes_view(tree@);
    }
    if tree.len() == 0 {
        push_str(&mut out, "<p class=\"empty-tree\">No auto-memory found.</p>");
    } else {
        let n = tree.len();
        let mut i: usize = 0;
        assert(nodes_view(tree@.take(0)) =~= seq![]) by {
            assert(tree@.take(0) =~= Seq::<Node>::empty());
        }
        while i < n
            invariant
                n == tree@.len(),
                0 <= i <= n,
                out@ == head + forest_html(nodes_view(tree@.take(i as int))),
            decreases n - i,
        {
            render_node(&tree[i], &mut out);
            proof {
                let t = tree@.take(i + 1);
                assert(t.drop_last() =~= tree@.take(i as int));
                let x = nodes_view(tree@.take(i as int));
                assert(nodes_view(t) == x.push(node_view(tree@[i as int])));
                assert(nodes_view(t).drop_last() =~= x);
            }
            assert(out@ =~= head + forest_html(nodes_view(tree@.take(i + 1))));
            i = i + 1;
        }
        assert(tree@.take(n as int) =~= tree@);
    }
    assert(out@ =~= head + tree_pane(nodes_view(tree@)));
    push_str(&mut out, "</aside>");
    push_str(&mut out, "<main id=\"content\">");
    push_str(&mut out, "<div id=\"empty\">Select a project on the left.</div>");
    let ghost mid = out@;
    let m = projects.len();
    let mut j: usize = 0;
    assert(projects@.take(0) =~= seq![]);
    while j < m
        invariant
            m == projects@.len(),
            0 <= j <= m,
            out@ == mid + projects_html(projects@.take(j as int)),
        decreases m - j,
    {
        render_project(&projects[j], &mut out);
        assert(projects@.take(j + 1).drop_last() =~= projects@.take(j as int));
        assert(out@ =~= mid + projects_html(projects@.take(j + 1)));
        j = j + 1;
    }
    assert(projects@.take(m as int) =~= projects@);
    push_str(&mut out, "</main>");
    push_str(&mut out, "<script>");
    push_str(&mut out, JS);
    push_str(&mut out, "</script>");
    push_str(&mut out, "</body></html>");
    assert(out@ =~= page_html(nodes_view(tree@), projects@));
    out
}

/// `t` occurs in `s` at position `a`.
pub open spec fn occurs_at(s: Seq<char>, t: Seq<char>, a: int) -> bool {
    0 <= a && a + t.len() <= s.len() && s.subrange(a, a + t.len()) == t
}

/// `t` occurs somewhere in `s`.
pub open spec fn occurs_in(s: Seq<char>, t: Seq<char>) -> bool {
    exists|a: int| occurs_at(s, t, a)
}

/// The attribute that ties a button of the tree to the article of a project.
pub open spec fn key_attr(q: Seq<char>) -> Seq<char> {
    "data-key=\""@ + escaped(q) + "\""@
}

proof fn lemma_occurs_in_concat(x: Seq<char>, s: Seq<char>, y: Seq<char>, t: Seq<char>)
    requires
        occurs_in(s, t),
    ensures
        occurs_in(x + s + y, t),
{
    let a = choose|a: int| occurs_at(s, t, a);
    assert((x + s + y).subrange(x.len() + a, x.len() + a + t.len()) =~= s.subrange(a, a + t.len()));
    assert(occurs_at(x + s + y, t, x.len() + a));
}

proof fn lemma_occurs_in_self(x: Seq<char>, t: Seq<char>, y: Seq<char>)
    ensures
        occurs_in(x + t + y, t),
{
    assert(t.subrange(0, t.len() as int) =~= t);
    assert(occurs_at(t, t, 0));
    lemma_occurs_in_concat(x, t, y, t);
}

proof fn lemma_node_html_has_key(n: NodeV, q: Seq<char>)
    requires
        tree_has_key(n, q),
    ensures
        occurs_in(node_html(n), key_attr(q)),
    decreases n, 1nat,
{
    reveal_strlit("<button class=\"proj\" data-key=\"");
    reveal_strlit("<button class=\"proj self\" data-key=\"");
    reveal_strlit("data-key=\"");
    reveal_strlit("\">");
    reveal_strlit("\"");
    reveal_strlit("\">(this folder)</button>");
    let e = escaped(q);
    if n.key == Some(q) {
        if n.children.len() == 0 {
            let pre = "<button class=\"proj\" "@;
            reveal_strlit("<button class=\"proj\" ");
            assert(node_html(n) =~= pre + key_attr(q) + (">"@ + escaped(n.name) + "</button>"@)) by {
                reveal_strlit(">");
            }
            lemma_occurs_in_self(pre, key_attr(q), ">"@ + escaped(n.name) + "</button>"@);
        } else {
            let pre = "<button class=\"proj self\" "@;
            reveal_strlit("<button class=\"proj self\" ");
            reveal_strlit(">(this folder)</button>");
            assert(self_button(n.key) =~= pre + key_attr(q) + ">(this folder)</button>"@);
            lemma_occurs_in_self(pre, key_attr(q), ">(this folder)</button>"@);
            let x = "<details open><summary>"@ + escaped(n.name) + "</summary>"@;
            let y = forest_html(n.children) + "</details>"@;
            lemma_occurs_in_concat(x, self_button(n.key), y, key_attr(q));
            assert(node_html(n) =~= x + self_button(n.key) + y);
        }
    } else {
        assert(forest_has_key(n.children, q));
        lemma_forest_html_has_key(n.children, q);
        assert(n.children.len() > 0);
        let x = "<details open><summary>"@ + escaped(n.name) + "</summary>"@ + self_button(n.key);
        lemma_occurs_in_concat(x, forest_html(n.children), "</details>"@, key_attr(q));
        assert(node_html(n) =~= x + forest_html(n.children) + "</details>"@);
    }
}

proof fn lemma_forest_html_has_key(f: Seq<NodeV>, q: Seq<char>)
    requires
        forest_has_key(f, q),
    ensures
        occurs_in(forest_html(f), key_attr(q)),
    decreases f, 0nat,
{
    if forest_has_key(f.drop_last(), q) {
        lemma_forest_html_has_key(f.drop_last(), q);
        lemma_occurs_in_concat(seq![], forest_html(f.drop_last()), node_html(f.last()), key_attr(q));
        assert(forest_html(f) =~= seq![] + forest_html(f.drop_last()) + node_html(f.last()));
    } else {
        lemma_node_html_has_key(f.last(), q);
        lemma_occurs_in_concat(forest_html(f.drop_last()), node_html(f.last()), seq![], key_attr(q));
        assert(forest_html(f) =~= forest_html(f.drop_last()) + node_html(f.last()) + seq![]);
    }
}

proof fn lemma_projects_html_has_article(ps: Seq<Project>, i: int)
    requires
        0 <= i < ps.len(),
    ensures
        occurs_in(projects_html(ps), "<article class=\"proj-view\" "@ + key_attr(ps[i].real_path@)),
    decreases ps.len(),
{
    let t = "<article class=\"proj-view\" "@ + key_attr(ps[i].real_path@);
    if i < ps.len() - 1 {
        lemma_projects_html_has_article(ps.drop_last(), i);
        assert(ps.drop_last()[i] == ps[i]);
        lemma_occurs_in_concat(seq![], projects_html(ps.drop_last()), project_html(ps.last()), t);
        assert(projects_html(ps) =~= seq![] + projects_html(ps.drop_last()) + project_html(ps.last()));
    } else {
        let p = ps.last();
        reveal_strlit("<article class=\"proj-view\" data-key=\"");
        reveal_strlit("<article class=\"proj-view\" ");
        reveal_strlit("data-key=\"");
        reveal_strlit("\" hidden>");
        reveal_strlit("\"");
        reveal_strlit(" hidden>");
        let rest = " hidden>"@ + "<h1>"@ + escaped(p.real_path@) + "</h1>"@ + files_html(
            p.files@,
            p.real_path@,
            note_names(p.files@),
        ) + "</article>"@;
        assert(project_html(p) =~= seq![] + t + rest);
        lemma_occurs_in_self(seq![], t, rest);
        lemma_occurs_in_concat(projects_html(ps.drop_last()), project_html(p), seq![], t);
        assert(projects_html(ps) =~= projects_html(ps.drop_last()) + project_html(p) + seq![]);
    }
}

/// Law: each project of the list has its article on the page, and each
/// project of the tree its button, both carrying the same `data-key`: the
/// escaped real path that the script matches to show the article.
pub proof fn lemma_page_links_buttons_to_articles(tree: Seq<NodeV>, projects: Seq<Project>, q: Seq<char>, i: int)
    ensures
        0 <= i < projects.len() ==> occurs_in(
            page_html(tree, projects),
            "<article class=\"proj-view\" "@ + key_attr(projects[i].real_path@),
        ),
        forest_has_key(tree, q) ==> occurs_in(page_html(tree, projects), key_attr(q)),
{
    let head = "<!doctype html>\n"@ + "<html lang=\"en\"><head><meta charset=\"utf-8\">"@
        + "<title>Auto-Memory Viewer</title>"@ + "<style>"@ + CSS@ + "</style></head><body>"@
        + "<aside id=\"tree\">"@;
    let mid = "</aside>"@ + "<main id=\"content\">"@ + "<div id=\"empty\">Select a project on the left.</div>"@;
    let tail = "</main>"@ + "<script>"@ + JS@ + "</script>"@ + "</body></html>"@;
    assert(page_html(tree, projects) =~= head + tree_pane(tree) + (mid + projects_html(projects) + tail));
    assert(page_html(tree, projects) =~= (head + tree_pane(tree) + mid) + projects_html(projects) + tail);
    if 0 <= i < projects.len() {
        lemma_projects_html_has_article(projects, i);
        lemma_occurs_in_concat(head + tree_pane(tree) + mid, projects_html(projects), tail, "<article class=\"proj-view\" "@ + key_attr(projects[i].real_path@));
    }
    if forest_has_key(tree, q) {
        assert(tree.len() > 0);
        lemma_forest_html_has_key(tree, q);
        lemma_occurs_in_concat(head, tree_pane(tree), mid + projects_html(projects) + tail, key_attr(q));
    }
}

/// Law: on the page of a list of projects and of their tree, a project
/// whose path has a non-empty segment, and no later project with the same
/// segments, has both a button in the tree and its article.
pub proof fn lemma_every_project_is_reachable(projects: Seq<Project>, i: int)
    requires
        0 <= i < projects.len(),
        segments(projects[i].real_path@).len() > 0,
        forall|j: int| i < j < projects.len() ==> segments(#[trigger] projects[j].real_path@) != segments(projects[i].real_path@),
    ensures
        ({
            let page = page_html(tree_of(projects.map_values(|p: Project| p.real_path@)), projects);
            &&& occurs_in(page, key_attr(projects[i].real_path@))
            &&& occurs_in(page, "<article class=\"proj-view\" "@ + key_attr(projects[i].real_path@))
        }),
{
    let paths = projects.map_values(|p: Project| p.real_path@);
    assert forall|j: int| i < j < paths.len() implies segments(#[trigger] paths[j]) != segments(paths[i]) by {
        assert(paths[j] == projects[j].real_path@);
    }
    lemma_tree_holds_every_project(paths, i);
    lemma_page_links_buttons_to_articles(tree_of(paths), projects, paths[i], i);
}

/// The opening of the section of note `name`, which the script finds by the
/// name that a note's address carries.
pub open spec fn file_attr(name: Seq<char>) -> Seq<char> {
    "<section class=\"file\" data-file=\""@ + escaped(name) + "\""@
}

proof fn lemma_files_html_has_section(fs: Seq<MemoryFile>, key: Seq<char>, names: Seq<Seq<char>>, k: int)
    requires
        0 <= k < fs.len(),
    ensures
        occurs_in(files_html(fs, key, names), file_attr(fs[k].name@)),
    decreases fs.len(),
{
    let t = file_attr(fs[k].name@);
    if k < fs.len() - 1 {
        lemma_files_html_has_section(fs.drop_last(), key, names, k);
        assert(fs.drop_last()[k] == fs[k]);
        lemma_occurs_in_concat(seq![], files_html(fs.drop_last(), key, names), file_html(fs.last(), key, names), t);
        assert(files_html(fs, key, names) =~= seq![] + files_html(fs.drop_last(), key, names) + file_html(
            fs.last(),
            key,
            names,
        ));
    } else {
        let f = fs.last();
        reveal_strlit("<section class=\"file\" data-file=\"");
        reveal_strlit("\">");
        reveal_strlit("\"");
        reveal_strlit(">");
        let body = rewritten(markdown_html(f.body@), key, names);
        let rest = ">"@ + "<h2>"@ + escaped(f.name@) + "</h2>"@ + frontmatter_html(pairs_view(f.frontmatter@))
            + "<div class=\"body\">"@ + body + "</div>"@ + "</section>"@;
        assert(file_html(f, key, names) =~= seq![] + t + rest);
        lemma_occurs_in_self(seq![], t, rest);
        lemma_occurs_in_concat(files_html(fs.drop_last(), key, names), file_html(f, key, names), seq![], t);
        assert(files_html(fs, key, names) =~= files_html(fs.drop_last(), key, names) + file_html(f, key, names)
            + seq![]);
    }
}

/// Law: every note of a project has its section in the project's article,
/// marked with the note's name; so a link that rewriting pointed at a note of
/// the project (one of `note_names`) has a section to scroll to.
pub proof fn lemma_every_note_has_a_section(p: Project, name: Seq<char>)
    requires
        note_names(p.files@).contains(name),
    ensures
        occurs_in(project_html(p), file_attr(name)),
{
    let k = choose|k: int| 0 <= k < note_names(p.files@).len() && note_names(p.files@)[k] == name;
    assert(p.files@[k].name@ == name);
    lemma_files_html_has_section(p.files@, p.real_path@, note_names(p.files@), k);
    let head = "<article class=\"proj-view\" data-key=\""@ + escaped(p.real_path@) + "\" hidden>"@ + "<h1>"@
        + escaped(p.real_path@) + "</h1>"@;
    let fh = files_html(p.files@, p.real_path@, note_names(p.files@));
    lemma_occurs_in_concat(head, fh, "</article>"@, file_attr(name));
    assert(project_html(p) =~= head + fh + "</article>"@);
}

/// How many times `t` occurs in `s`, overlapping occurrences each counted.
pub open spec fn occurrences(s: Seq<char>, t: Seq<char>) -> nat
    decreases s.len(),
{
    if t.len() == 0 || s.len() < t.len() {
        0
    } else {
        (if s.take(t.len() as int) == t {
            1nat
        } else {
            0nat
        }) + occurrences(s.drop_first(), t)
    }
}

proof fn lemma_occurrences_none(s: Seq<char>, t: Seq<char>)
    requires
        forall|p: int| !occurs_at(s, t, p),
    ensures
        occurrences(s, t) == 0,
    decreases s.len(),
{
    if t.len() > 0 && s.len() >= t.len() {
        assert(s.subrange(0, t.len() as int) =~= s.take(t.len() as int));
        assert(!occurs_at(s, t, 0));
        assert forall|p: int| !occurs_at(s.drop_first(), t, p) by {
            if occurs_at(s.drop_first(), t, p) {
                assert(s.subrange(p + 1, p + 1 + t.len()) =~= s.drop_first().subrange(p, p + t.len()));
                assert(occurs_at(s, t, p + 1));
            }
        }
        lemma_occurrences_none(s.drop_first(), t);
    }
}

/// `t` does not occur where `s` lacks one of its characters.
proof fn lemma_occurrences_missing_char(s: Seq<char>, t: Seq<char>, i: int)
    requires
        0 <= i < t.len(),
        forall|j: int| 0 <= j < s.len() ==> s[j] != t[i],
    ensures
        occurrences(s, t) == 0,
{
    assert forall|p: int| !occurs_at(s, t, p) by {
        if occurs_at(s, t, p) {
            assert(s.subrange(p, p + t.len())[i] == s[p + i]);
        }
    }
    lemma_occurrences_none(s, t);
}

/// No occurrence of `t` in `a + b` starts in `a` and ends in `b`.
pub open spec fn no_straddle(a: Seq<char>, b: Seq<char>, t: Seq<char>) -> bool {
    forall|p: int| 0 <= p < a.len() && a.len() < p + t.len() ==> !occurs_at(a + b, t, p)
}

proof fn lemma_occurrences_concat(a: Seq<char>, b: Seq<char>, t: Seq<char>)
    requires
        t.len() > 0,
        no_straddle(a, b, t),
    ensures
        occurrences(a + b, t) == occurrences(a, t) + occurrences(b, t),
    decreases a.len(),
{
    if a.len() == 0 {
        assert(a + b =~= b);
    } else if a.len() + b.len() < t.len() {
    } else {
        let a1 = a.drop_first();
        assert((a + b).drop_first() =~= a1 + b);
        assert forall|p: int| 0 <= p < a1.len() && a1.len() < p + t.len() implies !occurs_at(a1 + b, t, p) by {
            if occurs_at(a1 + b, t, p) {
                assert((a + b).subrange(p + 1, p + 1 + t.len()) =~= (a1 + b).subrange(p, p + t.len()));
                assert(occurs_at(a + b, t, p + 1));
            }
        }
        lemma_occurrences_concat(a1, b, t);
        if a.len() >= t.len() {
            assert((a + b).take(t.len() as int) =~= a.take(t.len() as int));
        } else {
            assert((a + b).subrange(0, t.len() as int) =~= (a + b).take(t.len() as int));
            assert(!occurs_at(a + b, t, 0));
        }
    }
}

/// No occurrence straddles a boundary where `a` ends in a character that
/// `t` lacks.
proof fn lemma_no_straddle_end(a: Seq<char>, b: Seq<char>, t: Seq<char>)
    requires
        a.len() == 0 || forall|i: int| 0 <= i < t.len() ==> t[i] != a.last(),
    ensures
        no_straddle(a, b, t),
{
    assert forall|p: int| 0 <= p < a.len() && a.len() < p + t.len() implies !occurs_at(a + b, t, p) by {
        if occurs_at(a + b, t, p) {
            assert((a + b).subrange(p, p + t.len())[a.len() - 1 - p] == a.last());
        }
    }
}

/// No occurrence straddles a boundary where `b` starts with a character
/// that `t` lacks.
proof fn lemma_no_straddle_start(a: Seq<char>, b: Seq<char>, t: Seq<char>)
    requires
        b.len() > 0,
        forall|i: int| 0 <= i < t.len() ==> t[i] != b[0],
    ensures
        no_straddle(a, b, t),
{
    assert forall|p: int| 0 <= p < a.len() && a.len() < p + t.len() implies !occurs_at(a + b, t, p) by {
        if occurs_at(a + b, t, p) {
            assert((a + b).subrange(p, p + t.len())[a.len() - p] == b[0]);
        }
    }
}

/// No occurrence straddles a boundary where `a` lacks the first character
/// of `t`.
proof fn lemma_no_straddle_first(a: Seq<char>, b: Seq<char>, t: Seq<char>)
    requires
        t.len() > 0,
        forall|i: int| 0 <= i < a.len() ==> a[i] != t[0],
    ensures
        no_straddle(a, b, t),
{
    assert forall|p: int| 0 <= p < a.len() && a.len() < p + t.len() implies !occurs_at(a + b, t, p) by {
        if occurs_at(a + b, t, p) {
            assert((a + b).subrange(p, p + t.len())[0] == a[p]);
        }
    }
}

/// Law: escaping a concatenation escapes each part: every character is
/// escaped on its own, in place.
pub proof fn lemma_escaped_concat(a: Seq<char>, b: Seq<char>)
    ensures
        escaped(a + b) == escaped(a) + escaped(b),
    decreases b.len(),
{
    if b.len() == 0 {
        assert(a + b =~= a);
        assert(escaped(a) + escaped(b) =~= escaped(a));
    } else {
        lemma_escaped_concat(a, b.drop_last());
        assert((a + b).drop_last() =~= a + b.drop_last());
        assert(escaped(a) + escaped(b) =~= escaped(a) + escaped(b.drop_last()) + escape_char(b.last()));
    }
}

proof fn lemma_escaped_len(s: Seq<char>)
    ensures
        escaped(s).len() >= s.len(),
    decreases s.len(),
{
    if s.len() > 0 {
        lemma_escaped_len(s.drop_last());
    }
}

proof fn lemma_escaped_single(c: char)
    ensures
        escaped(seq![c]) == escape_char(c),
{
    let s = seq![c];
    assert(s.drop_last() =~= Seq::<char>::empty());
    assert(escaped(Seq::<char>::empty()) =~= Seq::<char>::empty());
    assert(s.last() == c);
    assert(escaped(s) =~= escaped(s.drop_last()) + escape_char(c));
    assert(escaped(s) =~= escape_char(c));
}

/// Law: escaping is one to one, so the escaped forms of two strings are the
/// same only where the strings are.
pub proof fn lemma_escaped_injective(a: Seq<char>, b: Seq<char>)
    requires
        escaped(a) == escaped(b),
    ensures
        a == b,
    decreases a.len(),
{
    lemma_escaped_len(a);
    lemma_escaped_len(b);
    if a.len() > 0 && b.len() > 0 {
        let a1 = a.drop_first();
        let b1 = b.drop_first();
        assert(a =~= seq![a[0]] + a1);
        assert(b =~= seq![b[0]] + b1);
        lemma_escaped_concat(seq![a[0]], a1);
        lemma_escaped_concat(seq![b[0]], b1);
        lemma_escaped_single(a[0]);
        lemma_escaped_single(b[0]);
        let ea = escape_char(a[0]);
        let eb = escape_char(b[0]);
        let e = escaped(a);
        assert(escaped(seq![a[0]]) =~= ea);
        assert(escaped(seq![b[0]]) =~= eb);
        assert(e =~= ea + escaped(a1));
        assert(e =~= eb + escaped(b1));
        assert(e[0] == ea[0] && e[0] == eb[0]);
        if ea.len() > 1 && eb.len() > 1 {
            assert(e[1] == ea[1] && e[1] == eb[1]);
        }
        assert(a[0] == b[0]);
        assert(escaped(a1) =~= e.skip(ea.len() as int));
        assert(escaped(b1) =~= e.skip(eb.len() as int));
        lemma_escaped_injective(a1, b1);
    } else if a.len() > 0 {
        assert(escape_char(a.last()).len() > 0);
    } else if b.len() > 0 {
        assert(escape_char(b.last()).len() > 0);
    } else {
        assert(a =~= b);
    }
}

/// `s` holds no `c`.
pub open spec fn lacks(s: Seq<char>, c: char) -> bool {
    forall|i: int| 0 <= i < s.len() ==> s[i] != c
}

proof fn lemma_lacks_concat(a: Seq<char>, b: Seq<char>, c: char)
    requires
        lacks(a, c),
        lacks(b, c),
    ensures
        lacks(a + b, c),
{
    assert forall|i: int| 0 <= i < (a + b).len() implies (a + b)[i] != c by {
        if i < a.len() {
            assert((a + b)[i] == a[i]);
        } else {
            assert((a + b)[i] == b[i - a.len()]);
        }
    }
}

proof fn lemma_escaped_lacks(s: Seq<char>)
    ensures
        lacks(escaped(s), '"'),
        lacks(escaped(s), '>'),
        lacks(escaped(s), '<'),
{
    lemma_escaped_is_safe(s);
}

/// The shape of a key attribute: `data-key="`, the escaped key, `"`.
proof fn lemma_key_attr_shape(q: Seq<char>)
    ensures
        key_attr(q).len() == escaped(q).len() + 11,
        key_attr(q)[0] == 'd',
        key_attr(q)[9] == '"',
        key_attr(q)[key_attr(q).len() - 1] == '"',
        forall|i: int| 10 <= i < key_attr(q).len() - 1 ==> key_attr(q)[i] == escaped(q)[i - 10],
        lacks(key_attr(q), '>'),
        lacks(key_attr(q), '<'),
{
    reveal_strlit("data-key=\"");
    reveal_strlit("\"");
    let e = escaped(q);
    let t = key_attr(q);
    lemma_escaped_lacks(q);
    assert(t =~= "data-key=\""@ + e + "\""@);
    assert forall|i: int| 0 <= i < t.len() implies t[i] != '>' && t[i] != '<' by {
        if 10 <= i < t.len() - 1 {
            assert(t[i] == e[i - 10]);
        }
    }
}

/// A key attribute occurs in another exactly where the keys are the same.
proof fn lemma_key_attr_occurrences(k: Seq<char>, q: Seq<char>)
    ensures
        occurrences(key_attr(k), key_attr(q)) == (if k == q {
            1nat
        } else {
            0nat
        }),
{
    let a = key_attr(k);
    let t = key_attr(q);
    lemma_key_attr_shape(k);
    lemma_key_attr_shape(q);
    lemma_escaped_lacks(k);
    lemma_escaped_lacks(q);
    assert forall|p: int| p != 0 implies !occurs_at(a, t, p) by {
        if occurs_at(a, t, p) {
            assert(a.subrange(p, p + t.len())[9] == a[p + 9]);
            if 10 <= p + 9 < a.len() - 1 {
                assert(a[p + 9] == escaped(k)[p + 9 - 10]);
            }
        }
    }
    if occurs_at(a, t, 0) {
        assert(a.subrange(0, t.len() as int)[t.len() - 1] == a[t.len() - 1]);
        if t.len() - 1 < a.len() - 1 {
            assert(a[t.len() - 1] == escaped(k)[t.len() - 1 - 10]);
        }
        assert(a.subrange(0, t.len() as int) =~= a);
        assert(escaped(k) =~= a.subrange(10, a.len() - 1));
        assert(escaped(q) =~= t.subrange(10, t.len() - 1));
        lemma_escaped_injective(k, q);
    }
    if k == q {
        assert(a.subrange(0, t.len() as int) =~= t);
    }
    assert(a.subrange(0, t.len() as int) =~= a.take(t.len() as int));
    assert forall|p: int| !occurs_at(a.drop_first(), t, p) by {
        if occurs_at(a.drop_first(), t, p) {
            assert(a.subrange(p + 1, p + 1 + t.len()) =~= a.drop_first().subrange(p, p + t.len()));
            assert(occurs_at(a, t, p + 1));
        }
    }
    lemma_occurrences_none(a.drop_first(), t);
}

/// The pieces of the tree's markup around keys and names.
proof fn lemma_markup_pieces()
    ensures
        lacks("<button class=\"proj\" "@, 'd'),
        lacks("<button class=\"proj self\" "@, 'd'),
        lacks(">"@, '"'),
        lacks("</button>"@, '"'),
        lacks("<details open><summary>"@, '"'),
        lacks("</summary>"@, '"'),
        lacks(">(this folder)</button>"@, '"'),
        lacks("</details>"@, '"'),
        ">"@.len() == 1 && ">"@[0] == '>',
        ">(this folder)</button>"@[0] == '>',
        "</button>"@.len() == 9 && "</button>"@[8] == '>',
        "</summary>"@.len() == 10 && "</summary>"@[9] == '>',
        "</details>"@.len() == 10 && "</details>"@[9] == '>',
        ">(this folder)</button>"@.len() == 23 && ">(this folder)</button>"@[22] == '>',
{
    reveal_strlit("<button class=\"proj\" ");
    reveal_strlit("<button class=\"proj self\" ");
    reveal_strlit(">");
    reveal_strlit("</button>");
    reveal_strlit("<details open><summary>");
    reveal_strlit("</summary>");
    reveal_strlit(">(this folder)</button>");
    reveal_strlit("</details>");
}

/// The strings whose occurrences in the tree's HTML are counted: they start
/// with `d`, have `"` at index 9, and hold no `>`.
pub open spec fn attr_like(t: Seq<char>) -> bool {
    t.len() >= 10 && t[0] == 'd' && t[9] == '"' && lacks(t, '>')
}

/// How often `t` occurs in the key attribute of `k`.
pub open spec fn attr_weight(t: Seq<char>) -> spec_fn(Seq<char>) -> nat {
    |k: Seq<char>| occurrences(key_attr(k), t)
}

proof fn lemma_button_occurrences(pre: Seq<char>, k: Seq<char>, post: Seq<char>, t: Seq<char>)
    requires
        attr_like(t),
        lacks(pre, 'd'),
        lacks(post, '"'),
        post.len() > 0,
        post[0] == '>',
    ensures
        occurrences(pre + key_attr(k) + post, t) == occurrences(key_attr(k), t),
{
    lemma_no_straddle_start(pre + key_attr(k), post, t);
    lemma_occurrences_concat(pre + key_attr(k), post, t);
    lemma_occurrences_missing_char(post, t, 9);
    lemma_no_straddle_first(pre, key_attr(k), t);
    lemma_occurrences_concat(pre, key_attr(k), t);
    lemma_occurrences_missing_char(pre, t, 0);
}

/// Counting over a boundary where the left part is empty or ends in `>`.
proof fn lemma_occurrences_after_gt(a: Seq<char>, b: Seq<char>, t: Seq<char>)
    requires
        attr_like(t),
        a.len() == 0 || a.last() == '>',
    ensures
        occurrences(a + b, t) == occurrences(a, t) + occurrences(b, t),
{
    lemma_no_straddle_end(a, b, t);
    lemma_occurrences_concat(a, b, t);
}

proof fn lemma_node_html_occurrences(n: NodeV, t: Seq<char>)
    requires
        attr_like(t),
    ensures
        occurrences(node_html(n), t) == tree_weight(n, attr_weight(t)),
        node_html(n).len() == 0 || node_html(n).last() == '>',
    decreases n, 1nat,
{
    lemma_markup_pieces();
    lemma_escaped_lacks(n.name);
    reveal_strlit("<button class=\"proj\" data-key=\"");
    reveal_strlit("<button class=\"proj self\" data-key=\"");
    reveal_strlit("<button class=\"proj\" ");
    reveal_strlit("<button class=\"proj self\" ");
    reveal_strlit("data-key=\"");
    reveal_strlit("\">");
    reveal_strlit("\"");
    reveal_strlit(">");
    reveal_strlit("\">(this folder)</button>");
    reveal_strlit(">(this folder)</button>");
    let w = attr_weight(t);
    if n.children.len() == 0 {
        assert(forest_weight(n.children, w) == 0);
        match n.key {
            Some(k) => {
                let post = ">"@ + escaped(n.name) + "</button>"@;
                lemma_lacks_concat(">"@, escaped(n.name), '"');
                lemma_lacks_concat(">"@ + escaped(n.name), "</button>"@, '"');
                assert(node_html(n) =~= "<button class=\"proj\" "@ + key_attr(k) + post);
                lemma_button_occurrences("<button class=\"proj\" "@, k, post, t);
            },
            None => {},
        }
    } else {
        let x = "<details open><summary>"@ + escaped(n.name) + "</summary>"@;
        let sb = self_button(n.key);
        let f = forest_html(n.children);
        let z = "</details>"@;
        assert(node_html(n) =~= x + sb + f + z);
        lemma_lacks_concat("<details open><summary>"@, escaped(n.name), '"');
        lemma_lacks_concat("<details open><summary>"@ + escaped(n.name), "</summary>"@, '"');
        lemma_occurrences_missing_char(x, t, 9);
        lemma_occurrences_missing_char(z, t, 9);
        match n.key {
            Some(k) => {
                assert(sb =~= "<button class=\"proj self\" "@ + key_attr(k) + ">(this folder)</button>"@);
                lemma_button_occurrences("<button class=\"proj self\" "@, k, ">(this folder)</button>"@, t);
            },
            None => {},
        }
        lemma_forest_html_occurrences(n.children, t);
        lemma_occurrences_after_gt(x, sb, t);
        lemma_occurrences_after_gt(x + sb, f, t);
        lemma_occurrences_after_gt(x + sb + f, z, t);
    }
}

proof fn lemma_forest_html_occurrences(f: Seq<NodeV>, t: Seq<char>)
    requires
        attr_like(t),
    ensures
        occurrences(forest_html(f), t) == forest_weight(f, attr_weight(t)),
        forest_html(f).len() == 0 || forest_html(f).last() == '>',
    decreases f, 0nat,
{
    if f.len() > 0 {
        lemma_forest_html_occurrences(f.drop_last(), t);
        lemma_node_html_occurrences(f.last(), t);
        lemma_occurrences_after_gt(forest_html(f.drop_last()), node_html(f.last()), t);
    }
}

/// Law: where the projects' paths split into non-empty, pairwise distinct
/// lists of segments, the tree's HTML holds the key attribute of each
/// project exactly once, and that of no other path.
pub proof fn lemma_tree_html_has_each_key_once(paths: Seq<Seq<char>>, q: Seq<char>)
    requires
        distinct_segments(paths),
    ensures
        occurrences(forest_html(tree_of(paths)), key_attr(q)) == (if paths.contains(q) {
            1nat
        } else {
            0nat
        }),
{
    let t = key_attr(q);
    lemma_key_attr_shape(q);
    let w = attr_weight(t);
    assert forall|k: Seq<char>| #[trigger] w(k) == (if k == q {
        1nat
    } else {
        0nat
    }) by {
        lemma_key_attr_occurrences(k, q);
    }
    lemma_forest_html_occurrences(tree_of(paths), t);
    lemma_tree_has_each_project_once(paths, w);
    lemma_weight_sum_indicator(paths, q, w);
}

/// The name of the attribute with its `=`: `data-key=`.
pub open spec fn attr_name() -> Seq<char> {
    seq!['d', 'a', 't', 'a', '-', 'k', 'e', 'y', '=']
}

/// `s` ends with `w`.
pub open spec fn ends_with(s: Seq<char>, w: Seq<char>) -> bool {
    s.len() >= w.len() && s.skip(s.len() - w.len()) == w
}

/// Escaping leaves an ending without `;` as it is: the escaped form ends
/// with such a string only where the string does.
proof fn lemma_escaped_ending(q: Seq<char>, w: Seq<char>)
    requires
        lacks(w, ';'),
        ends_with(escaped(q), w),
    ensures
        ends_with(q, w),
    decreases w.len(),
{
    if w.len() == 0 {
        assert(q.skip(q.len() as int) =~= w);
    } else {
        let e = escaped(q);
        if q.len() == 0 {
            assert(e.len() == 0);
        } else {
            let c = q.last();
            let q1 = q.drop_last();
            assert(e =~= escaped(q1) + escape_char(c));
            assert(e.last() == w.last());
            assert(escape_char(c).last() == e.last());
            assert(w[w.len() - 1] != ';');
            assert(escape_char(c) =~= seq![c]);
            let w1 = w.drop_last();
            assert(escaped(q1).skip(escaped(q1).len() - w1.len()) =~= w1) by {
                assert(e.skip(e.len() - w.len()) == w);
                assert forall|i: int| 0 <= i < w1.len() implies escaped(q1).skip(escaped(q1).len() - w1.len())[i]
                    == w1[i] by {
                    assert(e.skip(e.len() - w.len())[i] == w[i]);
                }
            }
            lemma_escaped_ending(q1, w1);
            assert(q.skip(q.len() - w.len()) =~= q1.skip(q1.len() - w1.len()).push(c));
            assert(w =~= w1.push(w.last()));
        }
    }
}

/// `data-key="` occurs once in the key attribute of a path that does not end
/// in `data-key=`.
proof fn lemma_attr_start_once(k: Seq<char>)
    requires
        !ends_with(k, attr_name()),
    ensures
        occurrences(key_attr(k), "data-key=\""@) == 1,
{
    reveal_strlit("data-key=\"");
    let t = "data-key=\""@;
    let a = key_attr(k);
    let e = escaped(k);
    lemma_key_attr_shape(k);
    lemma_escaped_lacks(k);
    assert(t =~= attr_name().push('"'));
    assert(a.subrange(0, 10) =~= t);
    assert(a.take(10) =~= t);
    if ends_with(e, attr_name()) {
        assert(lacks(attr_name(), ';'));
        lemma_escaped_ending(k, attr_name());
    }
    assert forall|p: int| !occurs_at(a.drop_first(), t, p) by {
        if occurs_at(a.drop_first(), t, p) {
            assert(a.subrange(p + 1, p + 11) =~= a.drop_first().subrange(p, p + 10));
            let r = p + 1;
            assert(a.subrange(r, r + 10)[9] == a[r + 9]);
            if r + 9 < a.len() - 1 {
                assert(a[r + 9] == e[r + 9 - 10]);
            }
            assert(r + 9 == a.len() - 1);
            if e.len() >= 9 {
                assert(e.skip(e.len() - 9) =~= attr_name()) by {
                    assert forall|i: int| 0 <= i < 9 implies e.skip(e.len() - 9)[i] == attr_name()[i] by {
                        assert(a.subrange(r, r + 10)[i] == a[r + i]);
                        assert(a[r + i] == e[e.len() - 9 + i]);
                    }
                }
            } else {
                assert(a.subrange(r, r + 10)[9 - r] == a[9]);
            }
        }
    }
    lemma_occurrences_none(a.drop_first(), t);
}

proof fn lemma_weight_sum_ones(paths: Seq<Seq<char>>, w: spec_fn(Seq<char>) -> nat)
    requires
        forall|i: int| 0 <= i < paths.len() ==> w(#[trigger] paths[i]) == 1,
    ensures
        weight_sum(paths, w) == paths.len(),
    decreases paths.len(),
{
    if paths.len() > 0 {
        assert forall|i: int| 0 <= i < paths.drop_last().len() implies w(#[trigger] paths.drop_last()[i]) == 1 by {
            assert(paths.drop_last()[i] == paths[i]);
        }
        lemma_weight_sum_ones(paths.drop_last(), w);
        assert(w(paths[paths.len() - 1]) == 1);
    }
}

/// Law: where the projects' paths split into non-empty, pairwise distinct
/// lists of segments and none ends in `data-key=`, the tree's HTML holds
/// `data-key="` once for each project. (A path ending in `data-key=` would
/// make its own attribute hold the text a second time.)
pub proof fn lemma_tree_html_has_one_key_per_project(paths: Seq<Seq<char>>)
    requires
        distinct_segments(paths),
        forall|i: int| 0 <= i < paths.len() ==> !ends_with(#[trigger] paths[i], attr_name()),
    ensures
        occurrences(forest_html(tree_of(paths)), "data-key=\""@) == paths.len(),
{
    reveal_strlit("data-key=\"");
    let t = "data-key=\""@;
    assert(t =~= attr_name().push('"'));
    assert forall|i: int| 0 <= i < t.len() implies t[i] != '>' by {
        assert(t[i] == attr_name().push('"')[i]);
    }
    let w = attr_weight(t);
    assert forall|i: int| 0 <= i < paths.len() implies w(#[trigger] paths[i]) == 1 by {
        lemma_attr_start_once(paths[i]);
    }
    lemma_forest_html_occurrences(tree_of(paths), t);
    lemma_tree_has_each_project_once(paths, w);
    lemma_weight_sum_ones(paths, w);
}

/// Law: the notes of a project are laid out one after the other, in their
/// order: the sections of `a + b` are those of `a`, then those of `b`.
pub proof fn lemma_files_html_concat(a: Seq<MemoryFile>, b: Seq<MemoryFile>, key: Seq<char>, names: Seq<Seq<char>>)
    ensures
        files_html(a + b, key, names) == files_html(a, key, names) + files_html(b, key, names),
    decreases b.len(),
{
    if b.len() == 0 {
        assert(a + b =~= a);
        assert(files_html(b, key, names) =~= seq![]);
        assert(files_html(a, key, names) + files_html(b, key, names) =~= files_html(a, key, names));
    } else {
        lemma_files_html_concat(a, b.drop_last(), key, names);
        assert((a + b).drop_last() =~= a + b.drop_last());
        assert((a + b).last() == b.last());
        assert(files_html(a + b, key, names) =~= files_html(a, key, names) + files_html(b, key, names));
    }
}

/// Law: the sections of a single note are that note's section.
pub proof fn lemma_files_html_single(f: MemoryFile, key: Seq<char>, names: Seq<Seq<char>>)
    ensures
        files_html(seq![f], key, names) == file_html(f, key, names),
{
    assert(seq![f].drop_last() =~= Seq::<MemoryFile>::empty());
    assert(files_html(Seq::<MemoryFile>::empty(), key, names) =~= seq![]);
    assert(files_html(seq![f], key, names) =~= file_html(f, key, names));
}

/// Law: the articles of the projects are laid out one after the other, in
/// the order of the projects.
pub proof fn lemma_projects_html_concat(a: Seq<Project>, b: Seq<Project>)
    ensures
        projects_html(a + b) == projects_html(a) + projects_html(b),
    decreases b.len(),
{
    if b.len() == 0 {
        assert(a + b =~= a);
        assert(projects_html(a) + projects_html(b) =~= projects_html(a));
    } else {
        lemma_projects_html_concat(a, b.drop_last());
        assert((a + b).drop_last() =~= a + b.drop_last());
        assert((a + b).last() == b.last());
        assert(projects_html(a + b) =~= projects_html(a) + projects_html(b));
    }
}

/// Law: the article list of a single project is its article.
pub proof fn lemma_projects_html_single(p: Project)
    ensures
        projects_html(seq![p]) == project_html(p),
{
    assert(seq![p].drop_last() =~= Seq::<Project>::empty());
    assert(projects_html(Seq::<Project>::empty()) =~= seq![]);
    assert(seq![p].last() == p);
    assert(projects_html(seq![p]) =~= project_html(p));
}

/// Law: the nodes of a forest are laid out one after the other, in order.
pub proof fn lemma_forest_html_concat(a: Seq<NodeV>, b: Seq<NodeV>)
    ensures
        forest_html(a + b) == forest_html(a) + forest_html(b),
    decreases b.len(),
{
    if b.len() == 0 {
        assert(a + b =~= a);
        assert(forest_html(a) + forest_html(b) =~= forest_html(a));
    } else {
        lemma_forest_html_concat(a, b.drop_last());
        assert((a + b).drop_last() =~= a + b.drop_last());
        assert((a + b).last() == b.last());
        assert(forest_html(a + b) =~= forest_html(a) + forest_html(b));
    }
}

/// Law: the forest of a single node is that node's HTML.
pub proof fn lemma_forest_html_single(n: NodeV)
    ensures
        forest_html(seq![n]) == node_html(n),
{
    assert(seq![n].drop_last() =~= Seq::<NodeV>::empty());
    assert(forest_html(Seq::<NodeV>::empty()) =~= seq![]);
    assert(seq![n].last() == n);
    assert(forest_html(seq![n]) =~= node_html(n));
}

/// Law: the front matter entries are listed one after the other, in order.
pub proof fn lemma_entries_html_concat(a: Seq<(Seq<char>, Seq<char>)>, b: Seq<(Seq<char>, Seq<char>)>)
    ensures
        entries_html(a + b) == entries_html(a) + entries_html(b),
    decreases b.len(),
{
    if b.len() == 0 {
        assert(a + b =~= a);
        assert(entries_html(a) + entries_html(b) =~= entries_html(a));
    } else {
        lemma_entries_html_concat(a, b.drop_last());
        assert((a + b).drop_last() =~= a + b.drop_last());
        assert((a + b).last() == b.last());
        assert(entries_html(a + b) =~= entries_html(a) + entries_html(b));
    }
}

} // verus!
