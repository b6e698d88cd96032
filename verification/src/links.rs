//! Links between the notes of a project: the in-page address of a note's
//! section, and the rewriting of links whose target is the bare file name of
//! a note of the same project.
use vstd::prelude::*;
use crate::paths::strings_view;
use crate::text::{chars_of, find_char, lemma_find_char, lemma_find_char_at, push_str, str_eq, string_of};

verus! {

/// The characters that `encodeURIComponent` leaves as they are.
pub open spec fn unreserved(c: char) -> bool {
    ||| ('A' <= c && c <= 'Z')
    ||| ('a' <= c && c <= 'z')
    ||| ('0' <= c && c <= '9')
    ||| c == '-' || c == '_' || c == '.' || c == '!' || c == '~' || c == '*' || c == '\'' || c == '('
        || c == ')'
}

/// The UTF-8 bytes of `c`.
pub open spec fn utf8_bytes(c: char) -> Seq<int> {
    let u = (c as u32) as int;
    if u < 0x80 {
        seq![u]
    } else if u < 0x800 {
        seq![0xC0 + u / 64, 0x80 + u % 64]
    } else if u < 0x10000 {
        seq![0xE0 + u / 4096, 0x80 + (u / 64) % 64, 0x80 + u % 64]
    } else {
        seq![0xF0 + u / 262144, 0x80 + (u / 4096) % 64, 0x80 + (u / 64) % 64, 0x80 + u % 64]
    }
}

/// The upper-case hexadecimal digit of `n`.
pub open spec fn hex_digit(n: int) -> char {
    if n < 10 {
        (48 + n) as char
    } else {
        (55 + n) as char
    }
}

/// A byte as `%` and two upper-case hexadecimal digits.
pub open spec fn percent(b: int) -> Seq<char> {
    seq!['%', hex_digit(b / 16), hex_digit(b % 16)]
}

pub open spec fn percent_all(bytes: Seq<int>) -> Seq<char>
    decreases bytes.len(),
{
    if bytes.len() == 0 {
        seq![]
    } else {
        percent_all(bytes.drop_last()) + percent(bytes.last())
    }
}

/// What `encodeURIComponent` makes of one character.
pub open spec fn uri_char(c: char) -> Seq<char> {
    if unreserved(c) {
        seq![c]
    } else {
        percent_all(utf8_bytes(c))
    }
}

/// `s` as `encodeURIComponent` encodes it.
pub open spec fn uri_encoded(s: Seq<char>) -> Seq<char>
    decreases s.len(),
{
    if s.len() == 0 {
        seq![]
    } else {
        uri_encoded(s.drop_last()) + uri_char(s.last())
    }
}

fn hex(n: u32) -> (res: char)
    requires
        n < 16,
    ensures
        res == hex_digit(n as int),
{
    if n < 10 {
        char_of(48 + n)
    } else {
        char_of(55 + n)
    }
}

/// The ASCII character of the code `n`.
fn char_of(n: u32) -> (res: char)
    requires
        n < 128,
    ensures
        res == n as char,
{
    let b = n as u8;
    b as char
}

fn push_percent(out: &mut String, b: u32)
    requires
        b < 256,
    ensures
        final(out)@ == old(out)@ + percent(b as int),
{
    let ghost start = out@;
    out.push('%');
    out.push(hex(b / 16));
    out.push(hex(b % 16));
    assert(out@ =~= start + percent(b as int));
}

proof fn lemma_percent_all_take(bytes: Seq<int>, k: int)
    requires
        0 <= k < bytes.len(),
    ensures
        percent_all(bytes.take(k + 1)) == percent_all(bytes.take(k)) + percent(bytes[k]),
{
    assert(bytes.take(k + 1).drop_last() =~= bytes.take(k));
}

/// Appends the percent-escaped UTF-8 bytes of `c`.
fn push_utf8_percent(out: &mut String, c: char)
    ensures
        final(out)@ == old(out)@ + percent_all(utf8_bytes(c)),
{
    let ghost start = out@;
    let ghost bytes = utf8_bytes(c);
    let u = c as u32;
    proof {
        vstd::utf8::char_is_scalar(c);
        assert(bytes.take(0) =~= Seq::<int>::empty());
    }
    if u < 0x80 {
        push_percent(out, u);
        proof { lemma_percent_all_take(bytes, 0); }
    } else if u < 0x800 {
        push_percent(out, 0xC0 + u / 64);
        proof { lemma_percent_all_take(bytes, 0); }
        push_percent(out, 0x80 + u % 64);
        proof { lemma_percent_all_take(bytes, 1); }
    } else if u < 0x10000 {
        push_percent(out, 0xE0 + u / 4096);
        proof { lemma_percent_all_take(bytes, 0); }
        push_percent(out, 0x80 + (u / 64) % 64);
        proof { lemma_percent_all_take(bytes, 1); }
        push_percent(out, 0x80 + u % 64);
        proof { lemma_percent_all_take(bytes, 2); }
    } else {
        push_percent(out, 0xF0 + u / 262144);
        proof { lemma_percent_all_take(bytes, 0); }
        push_percent(out, 0x80 + (u / 4096) % 64);
        proof { lemma_percent_all_take(bytes, 1); }
        push_percent(out, 0x80 + (u / 64) % 64);
        proof { lemma_percent_all_take(bytes, 2); }
        push_percent(out, 0x80 + u % 64);
        proof { lemma_percent_all_take(bytes, 3); }
    }
    assert(bytes.take(bytes.len() as int) =~= bytes);
    assert(out@ =~= start + percent_all(bytes));
}

/// Encodes `s` as JavaScript's `encodeURIComponent` does.
pub fn uri_component(s: &str) -> (res: String)
    ensures
        res@ == uri_encoded(s@),
{
    let mut out = String::new();
    let v = chars_of(s);
    let n = v.len();
    let mut i: usize = 0;
    while i < n
        invariant
            v@ == s@,
            n == v@.len(),
            0 <= i <= n,
            out@ == uri_encoded(v@.take(i as int)),
        decreases n - i,
    {
        let c = v[i];
        let ghost before = out@;
        if ('A' <= c && c <= 'Z') || ('a' <= c && c <= 'z') || ('0' <= c && c <= '9') || c == '-'
            || c == '_' || c == '.' || c == '!' || c == '~' || c == '*' || c == '\'' || c == '(' || c
            == ')' {
            out.push(c);
            assert(out@ =~= before + uri_char(c));
        } else {
            push_utf8_percent(&mut out, c);
            assert(out@ =~= before + uri_char(c));
        }
        assert(v@.take(i + 1).drop_last() =~= v@.take(i as int));
        i = i + 1;
    }
    assert(v@.take(n as int) =~= v@);
    out
}

/// What opens a link in HTML: `<a href="`.
pub open spec fn link_open() -> Seq<char> {
    seq!['<', 'a', ' ', 'h', 'r', 'e', 'f', '=', '"']
}

/// The in-page address of the section of note `name` in project `key`:
/// `#`, the encoded key, `/`, the encoded name.
pub open spec fn note_anchor(key: Seq<char>, name: Seq<char>) -> Seq<char> {
    seq!['#'] + uri_encoded(key) + seq!['/'] + uri_encoded(name)
}

/// Where the target of a link opened at the start of `h` ends: the first
/// `"` after the opening.
pub open spec fn link_end(h: Seq<char>) -> Option<int> {
    if h.len() >= 9 && h.take(9) == link_open() {
        find_char(h, '"', 9)
    } else {
        None
    }
}

/// `h` with the target of every link that is exactly the name of one of
/// `names` replaced by that note's in-page address in project `key`; every
/// other character stays.
pub open spec fn rewritten(h: Seq<char>, key: Seq<char>, names: Seq<Seq<char>>) -> Seq<char>
    decreases h.len(),
{
    if h.len() == 0 {
        seq![]
    } else if link_end(h) is Some && 9 <= link_end(h)->0 < h.len() {
        let j = link_end(h)->0;
        let target = h.subrange(9, j);
        link_open() + (if names.contains(target) {
            note_anchor(key, target)
        } else {
            target
        }) + rewritten(h.skip(j), key, names)
    } else {
        seq![h[0]] + rewritten(h.drop_first(), key, names)
    }
}

/// Whether `names` holds `t`.
fn holds_name(names: &[String], t: &str) -> (res: bool)
    ensures
        res == strings_view(names@).contains(t@),
{
    let n = names.len();
    let mut i: usize = 0;
    while i < n
        invariant
            n == names@.len(),
            0 <= i <= n,
            forall|k: int| 0 <= k < i ==> names@[k]@ != t@,
        decreases n - i,
    {
        if str_eq(names[i].as_str(), t) {
            assert(strings_view(names@)[i as int] == t@);
            return true;
        }
        i = i + 1;
    }
    assert forall|k: int| 0 <= k < strings_view(names@).len() implies strings_view(names@)[k] != t@ by {
        assert(strings_view(names@)[k] == names@[k]@);
    }
    false
}

/// Whether a link opens at `v[i]`.
fn opens_link(v: &Vec<char>, i: usize) -> (res: bool)
    requires
        i <= v@.len(),
    ensures
        res == (v@.len() - i >= 9 && v@.skip(i as int).take(9) == link_open()),
{
    if v.len() - i < 9 {
        return false;
    }
    let res = v[i] == '<' && v[i + 1] == 'a' && v[i + 2] == ' ' && v[i + 3] == 'h' && v[i + 4]
        == 'r' && v[i + 5] == 'e' && v[i + 6] == 'f' && v[i + 7] == '=' && v[i + 8] == '"';
    if res {
        assert(v@.skip(i as int).take(9) =~= link_open());
    } else {
        proof {
            let w = v@.skip(i as int).take(9);
            if w == link_open() {
                assert(w[0] == link_open()[0]);
                assert(w[1] == link_open()[1]);
                assert(w[2] == link_open()[2]);
                assert(w[3] == link_open()[3]);
                assert(w[4] == link_open()[4]);
                assert(w[5] == link_open()[5]);
                assert(w[6] == link_open()[6]);
                assert(w[7] == link_open()[7]);
                assert(w[8] == link_open()[8]);
            }
        }
    }
    res
}

/// Rewrites each link of `html` whose target is exactly the name of one of
/// `names` into a link to that note's section in the page, addressed by
/// project `key`; everything else is kept as it is.
pub fn rewrite_links(html: &str, key: &str, names: &[String]) -> (res: String)
    ensures
        res@ == rewritten(html@, key@, strings_view(names@)),
{
    let ghost ns = strings_view(names@);
    let v = chars_of(html);
    let n = v.len();
    let encoded_key = uri_component(key);
    let mut out = String::new();
    let mut i: usize = 0;
    assert(v@.skip(0) =~= v@);
    assert(out@ + rewritten(v@, key@, ns) =~= rewritten(v@, key@, ns));
    while i < n
        invariant
            v@ == html@,
            n == v@.len(),
            0 <= i <= n,
            encoded_key@ == uri_encoded(key@),
            ns == strings_view(names@),
            out@ + rewritten(v@.skip(i as int), key@, ns) == rewritten(v@, key@, ns),
        decreases n - i,
    {
        let ghost h = v@.skip(i as int);
        let ghost before = out@;
        let mut closed = false;
        if opens_link(&v, i) {
            let mut k = i + 9;
            while k < n && v[k] != '"'
                invariant
                    i + 9 <= k <= n,
                    n == v@.len(),
                    h == v@.skip(i as int),
                    forall|m: int| i + 9 <= m < k ==> v@[m] != '"',
                decreases n - k,
            {
                k = k + 1;
            }
            proof {
                assert forall|m: int| 9 <= m < k - i implies h[m] != '"' by {
                    assert(h[m] == v@[i + m]);
                }
                lemma_find_char_at(h, '"', 9, k - i);
            }
            if k < n {
                closed = true;
                let ghost j = (k - i) as int;
                assert(link_end(h) == Some(j));
                let target = string_of(&v, i + 9, k);
                assert(target@ =~= h.subrange(9, j));
                let opening = string_of(&v, i, i + 9);
                assert(opening@ =~= link_open());
                push_str(&mut out, opening.as_str());
                if holds_name(names, target.as_str()) {
                    out.push('#');
                    push_str(&mut out, encoded_key.as_str());
                    out.push('/');
                    let encoded_name = uri_component(target.as_str());
                    push_str(&mut out, encoded_name.as_str());
                    assert(out@ =~= before + link_open() + note_anchor(key@, target@));
                } else {
                    push_str(&mut out, target.as_str());
                }
                assert(h.skip(j) =~= v@.skip(k as int));
                i = k;
            }
        }
        if !closed {
            assert(!(link_end(h) is Some && 9 <= link_end(h)->0 < h.len())) by {
                if link_end(h) is Some {
                    lemma_find_char(h, '"', 9);
                }
            }
            out.push(v[i]);
            assert(h.drop_first() =~= v@.skip(i + 1));
            i = i + 1;
        }
    }
    assert(v@.skip(n as int) =~= seq![]);
    out
}

/// Law: with no note names to match, rewriting gives back `h` unchanged.
pub proof fn lemma_rewritten_without_names(h: Seq<char>, key: Seq<char>)
    ensures
        rewritten(h, key, seq![]) == h,
    decreases h.len(),
{
    if h.len() == 0 {
    } else if link_end(h) is Some && 9 <= link_end(h)->0 < h.len() {
        let j = link_end(h)->0;
        lemma_rewritten_without_names(h.skip(j), key);
        assert(!Seq::<Seq<char>>::empty().contains(h.subrange(9, j)));
        assert(h =~= h.take(9) + h.subrange(9, j) + h.skip(j));
    } else {
        lemma_rewritten_without_names(h.drop_first(), key);
        assert(h =~= seq![h[0]] + h.drop_first());
    }
}

/// The characters that can stand in an encoded component.
pub open spec fn uri_plain(c: char) -> bool {
    unreserved(c) || c == '%'
}

proof fn lemma_percent_all_plain(bytes: Seq<int>)
    requires
        forall|k: int| 0 <= k < bytes.len() ==> 0 <= #[trigger] bytes[k] < 256,
    ensures
        forall|k: int| 0 <= k < percent_all(bytes).len() ==> uri_plain(#[trigger] percent_all(bytes)[k]),
    decreases bytes.len(),
{
    if bytes.len() > 0 {
        lemma_percent_all_plain(bytes.drop_last());
        let b = bytes.last();
        assert(0 <= b < 256);
        let p = percent(b);
        assert(uri_plain(p[1]) && uri_plain(p[2]));
        let all = percent_all(bytes);
        assert forall|k: int| 0 <= k < all.len() implies uri_plain(#[trigger] all[k]) by {
            let prev = percent_all(bytes.drop_last());
            if k >= prev.len() {
                assert(all[k] == p[k - prev.len()]);
            } else {
                assert(all[k] == prev[k]);
            }
        }
    }
}

proof fn lemma_utf8_bytes_range(c: char)
    ensures
        forall|k: int| 0 <= k < utf8_bytes(c).len() ==> 0 <= #[trigger] utf8_bytes(c)[k] < 256,
{
    vstd::utf8::char_is_scalar(c);
}

/// Law: an encoded component holds only unreserved characters and `%`, so
/// never a `/`, a `"`, a `&`, a `<` or a `>`: in a note's address the one `/`
/// parts the project from the note, and the address closes no attribute.
pub proof fn lemma_uri_encoded_is_plain(s: Seq<char>)
    ensures
        forall|k: int| 0 <= k < uri_encoded(s).len() ==> uri_plain(#[trigger] uri_encoded(s)[k]),
    decreases s.len(),
{
    if s.len() > 0 {
        lemma_uri_encoded_is_plain(s.drop_last());
        let c = s.last();
        if !unreserved(c) {
            lemma_utf8_bytes_range(c);
            lemma_percent_all_plain(utf8_bytes(c));
        }
        let prev = uri_encoded(s.drop_last());
        let all = uri_encoded(s);
        assert forall|k: int| 0 <= k < all.len() implies uri_plain(#[trigger] all[k]) by {
            if k >= prev.len() {
                assert(all[k] == uri_char(c)[k - prev.len()]);
            } else {
                assert(all[k] == prev[k]);
            }
        }
    }
}

/// Every link that opens in `a` is closed in `a`, and `a` is empty or ends
/// with `>`: a place where HTML can be cut without cutting a link.
pub open spec fn closed_links(a: Seq<char>) -> bool {
    &&& (a.len() == 0 || a.last() == '>')
    &&& forall|p: int|
        0 <= p && p + 9 <= a.len() && #[trigger] a.skip(p).take(9) == link_open() ==> find_char(a, '"', p + 9)
            is Some
}

proof fn lemma_find_char_extend(a: Seq<char>, b: Seq<char>, i: int)
    requires
        0 <= i,
        find_char(a, '"', i) is Some,
    ensures
        find_char(a + b, '"', i) == find_char(a, '"', i),
{
    lemma_find_char(a, '"', i);
    let j = find_char(a, '"', i)->0;
    assert forall|k: int| i <= k < j implies (a + b)[k] != '"' by {
        assert((a + b)[k] == a[k]);
    }
    lemma_find_char_at(a + b, '"', i, j);
}

proof fn lemma_closed_links_skip(a: Seq<char>, j: int)
    requires
        closed_links(a),
        0 <= j < a.len(),
    ensures
        closed_links(a.skip(j)),
{
    let c = a.skip(j);
    assert(c.last() == a.last());
    assert forall|p: int| 0 <= p && p + 9 <= c.len() && #[trigger] c.skip(p).take(9) == link_open() implies find_char(
        c,
        '"',
        p + 9,
    ) is Some by {
        assert(a.skip(j + p).take(9) =~= c.skip(p).take(9));
        lemma_find_char(a, '"', j + p + 9);
        let q = find_char(a, '"', j + p + 9)->0;
        assert(c[q - j] == '"');
        lemma_find_char(c, '"', p + 9);
    }
}

/// Law: cutting HTML where no link is cut, rewriting the whole is rewriting
/// each part: every link to a note is rewritten wherever it stands, and the
/// text between links is kept.
pub proof fn lemma_rewritten_concat(a: Seq<char>, b: Seq<char>, key: Seq<char>, names: Seq<Seq<char>>)
    requires
        closed_links(a),
    ensures
        rewritten(a + b, key, names) == rewritten(a, key, names) + rewritten(b, key, names),
    decreases a.len(),
{
    let h = a + b;
    if a.len() == 0 {
        assert(h =~= b);
        assert(rewritten(a, key, names) =~= seq![]);
        assert(rewritten(a, key, names) + rewritten(b, key, names) =~= rewritten(b, key, names));
    } else {
        let opens = h.len() >= 9 && h.take(9) == link_open();
        if opens {
            if a.len() <= 9 {
                assert(h.take(9)[a.len() - 1] == a.last());
                assert(link_open()[a.len() - 1] != '>');
            }
            assert(a.take(9) =~= h.take(9));
            assert(a.skip(0).take(9) =~= a.take(9));
            lemma_find_char_extend(a, b, 9);
            lemma_find_char(a, '"', 9);
            let j = find_char(a, '"', 9)->0;
            assert(link_end(h) == Some(j));
            assert(link_end(a) == Some(j));
            assert(h.subrange(9, j) =~= a.subrange(9, j));
            assert(h.skip(j) =~= a.skip(j) + b);
            lemma_closed_links_skip(a, j);
            lemma_rewritten_concat(a.skip(j), b, key, names);
            let mid = if names.contains(a.subrange(9, j)) {
                note_anchor(key, a.subrange(9, j))
            } else {
                a.subrange(9, j)
            };
            assert(rewritten(h, key, names) == link_open() + mid + rewritten(h.skip(j), key, names));
            assert(rewritten(a, key, names) == link_open() + mid + rewritten(a.skip(j), key, names));
            assert(rewritten(h, key, names) =~= rewritten(a, key, names) + rewritten(b, key, names));
        } else {
            assert(link_end(h) is None);
            if a.len() >= 9 {
                assert(a.take(9) =~= h.take(9));
            }
            assert(link_end(a) is None);
            assert(h.drop_first() =~= a.drop_first() + b);
            if a.len() > 1 {
                lemma_closed_links_skip(a, 1);
                assert(a.skip(1) =~= a.drop_first());
            } else {
                assert(a.drop_first() =~= Seq::<char>::empty());
                assert forall|p: int| 0 <= p && p + 9 <= a.drop_first().len() && #[trigger] a.drop_first().skip(p).take(9)
                    == link_open() implies find_char(a.drop_first(), '"', p + 9) is Some by {
                }
            }
            lemma_rewritten_concat(a.drop_first(), b, key, names);
            assert(rewritten(h, key, names) == seq![h[0]] + rewritten(h.drop_first(), key, names));
            assert(rewritten(a, key, names) == seq![a[0]] + rewritten(a.drop_first(), key, names));
            assert(rewritten(h, key, names) =~= rewritten(a, key, names) + rewritten(b, key, names));
        }
    }
}

/// Law: text that holds no `<` holds no link, and rewriting keeps it.
pub proof fn lemma_rewritten_plain_text(h: Seq<char>, key: Seq<char>, names: Seq<Seq<char>>)
    requires
        forall|i: int| 0 <= i < h.len() ==> h[i] != '<',
    ensures
        rewritten(h, key, names) == h,
    decreases h.len(),
{
    if h.len() > 0 {
        if h.len() >= 9 {
            assert(h.take(9)[0] == h[0]);
        }
        assert(link_end(h) is None);
        lemma_rewritten_plain_text(h.drop_first(), key, names);
        assert(h =~= seq![h[0]] + h.drop_first());
    }
}

/// Law: one link whose target `t` (holding no `"`) is a note's name becomes
/// a link to that note's section; any other target is kept; what follows the
/// target is rewritten in turn.
pub proof fn lemma_rewritten_link(t: Seq<char>, rest: Seq<char>, key: Seq<char>, names: Seq<Seq<char>>)
    requires
        forall|i: int| 0 <= i < t.len() ==> t[i] != '"',
    ensures
        rewritten(link_open() + t + seq!['"'] + rest, key, names) == link_open() + (if names.contains(t) {
            note_anchor(key, t)
        } else {
            t
        }) + rewritten(seq!['"'] + rest, key, names),
{
    let h = link_open() + t + seq!['"'] + rest;
    let j: int = 9 + t.len() as int;
    assert(h.take(9) =~= link_open());
    assert forall|k: int| 9 <= k < j implies h[k] != '"' by {
        assert(h[k] == t[k - 9]);
    }
    assert(h[j] == '"');
    lemma_find_char_at(h, '"', 9, j);
    assert(link_end(h) == Some(j));
    assert(h.subrange(9, j) =~= t);
    assert(h.skip(j) =~= seq!['"'] + rest);
}

/// Law: encoding a concatenation encodes each part: every character is
/// encoded on its own, in place.
pub proof fn lemma_uri_encoded_concat(a: Seq<char>, b: Seq<char>)
    ensures
        uri_encoded(a + b) == uri_encoded(a) + uri_encoded(b),
    decreases b.len(),
{
    if b.len() == 0 {
        assert(a + b =~= a);
        assert(uri_encoded(a) + uri_encoded(b) =~= uri_encoded(a));
    } else {
        lemma_uri_encoded_concat(a, b.drop_last());
        assert((a + b).drop_last() =~= a + b.drop_last());
        assert((a + b).last() == b.last());
        assert(uri_encoded(a + b) =~= uri_encoded(a) + uri_encoded(b));
    }
}

/// Law: an unreserved character is kept; any other becomes `%` and two
/// upper-case hexadecimal digits for each of its UTF-8 bytes.
pub proof fn lemma_uri_encoded_char(c: char)
    ensures
        unreserved(c) ==> uri_encoded(seq![c]) == seq![c],
        !unreserved(c) ==> uri_encoded(seq![c]).len() == 3 * utf8_bytes(c).len() && forall|k: int|
            0 <= k < utf8_bytes(c).len() ==> #[trigger] uri_encoded(seq![c])[3 * k] == '%',
{
    let s = seq![c];
    assert(s.drop_last() =~= Seq::<char>::empty());
    assert(uri_encoded(Seq::<char>::empty()) =~= Seq::<char>::empty());
    assert(s.last() == c);
    assert(uri_encoded(s) =~= uri_char(c));
    if !unreserved(c) {
        lemma_percent_all_shape(utf8_bytes(c));
    }
}

proof fn lemma_percent_all_shape(bytes: Seq<int>)
    ensures
        percent_all(bytes).len() == 3 * bytes.len(),
        forall|k: int| 0 <= k < bytes.len() ==> #[trigger] percent_all(bytes)[3 * k] == '%',
    decreases bytes.len(),
{
    if bytes.len() > 0 {
        lemma_percent_all_shape(bytes.drop_last());
        let prev = percent_all(bytes.drop_last());
        let all = percent_all(bytes);
        assert forall|k: int| 0 <= k < bytes.len() implies #[trigger] all[3 * k] == '%' by {
            if k < bytes.len() - 1 {
                assert(all[3 * k] == prev[3 * k]);
            } else {
                assert(all[3 * k] == percent(bytes.last())[0]);
            }
        }
    }
}

} // verus!
