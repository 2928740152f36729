//! The block-level renderer. The markdown body is split into lines and
//! folded with a two-state machine: in the normal state each line is
//! classified (heading, list item, paragraph, blank) against its trimmed
//! form and rendered through the inline passes; a fence line (its
//! left-trimmed form starts with three backticks) toggles the code state,
//! in which lines are accumulated verbatim and flushed as one escaped
//! `<pre><code>` block on the closing fence. An opened fence that never
//! closes leaves its buffer unflushed.

use vstd::prelude::*;
use vstd::string::{StrSliceExecFns, StringExecFns};
use crate::escape::{escape_spec, escape_html};
use crate::inline::{inline_spec, process_inline_markdown};
use crate::text::{is_ws, is_space, starts_with, has_prefix, find_from, lemma_find_from, find_char};

verus! {

/// The first position at or after `j` holding a non-whitespace character,
/// or the length when there is none.
pub open spec fn first_non_ws(s: Seq<char>, j: int) -> int
    decreases s.len() - j,
{
    if j < 0 || j >= s.len() {
        s.len() as int
    } else if is_ws(s[j]) {
        first_non_ws(s, j + 1)
    } else {
        j
    }
}

/// The end of the text once trailing whitespace before `j` is dropped.
pub open spec fn last_non_ws_end(s: Seq<char>, j: int) -> int
    decreases j,
{
    if j <= 0 {
        0
    } else if is_ws(s[j - 1]) {
        last_non_ws_end(s, j - 1)
    } else {
        j
    }
}

/// [`first_non_ws`] stays between its start and the length.
pub proof fn lemma_first_non_ws(s: Seq<char>, j: int)
    requires
        0 <= j <= s.len(),
    ensures
        j <= first_non_ws(s, j) <= s.len(),
    decreases s.len() - j,
{
    if j < s.len() && is_ws(s[j]) {
        lemma_first_non_ws(s, j + 1);
    }
}

/// [`last_non_ws_end`] stays between zero and its start.
pub proof fn lemma_last_non_ws_end(s: Seq<char>, j: int)
    requires
        0 <= j <= s.len(),
    ensures
        0 <= last_non_ws_end(s, j) <= j,
    decreases j,
{
    if j > 0 && is_ws(s[j - 1]) {
        lemma_last_non_ws_end(s, j - 1);
    }
}

/// The text with leading and trailing whitespace removed.
pub open spec fn trim_spec(s: Seq<char>) -> Seq<char> {
    let a = first_non_ws(s, 0);
    let b = last_non_ws_end(s, s.len() as int);
    if a >= b {
        Seq::empty()
    } else {
        s.subrange(a, b)
    }
}

/// Runtime search for the first non-whitespace position.
fn ws_start(s: &str) -> (a: usize)
    ensures
        a as int == first_non_ws(s@, 0),
        a <= s@.len(),
{
    let n = s.unicode_len();
    let mut a: usize = 0;
    while a < n && is_space(s.get_char(a))
        invariant
            a <= n,
            n == s@.len(),
            first_non_ws(s@, 0) == first_non_ws(s@, a as int),
        decreases n - a,
    {
        a += 1;
    }
    a
}

/// Trims whitespace from both ends.
fn trim_str<'a>(s: &'a str) -> (r: &'a str)
    ensures
        r@ == trim_spec(s@),
{
    let n = s.unicode_len();
    let a = ws_start(s);
    let mut b: usize = n;
    while b > 0 && is_space(s.get_char(b - 1))
        invariant
            b <= n,
            n == s@.len(),
            last_non_ws_end(s@, n as int) == last_non_ws_end(s@, b as int),
        decreases b,
    {
        b -= 1;
    }
    if a >= b {
        let r = s.substring_char(0, 0);
        proof {
            assert(r@ =~= trim_spec(s@));
        }
        r
    } else {
        s.substring_char(a, b)
    }
}

/// A line with a single trailing carriage return removed: the form a line
/// takes when the text is split at `\r\n` endings.
pub open spec fn strip_cr(l: Seq<char>) -> Seq<char> {
    if l.len() > 0 && l[l.len() - 1] == '\r' {
        l.drop_last()
    } else {
        l
    }
}

/// The lines of the text from position `i` on, split at `\n`, each line
/// freed of the `\r` of a `\r\n` ending. A final line ending is optional
/// and produces no empty last line.
pub open spec fn lines_from(s: Seq<char>, i: int) -> Seq<Seq<char>>
    decreases s.len() - i,
{
    if i < 0 || i >= s.len() {
        Seq::empty()
    } else {
        let j = find_from(s, i, '\n');
        if j >= 0 {
            proof {
                lemma_find_from(s, i, '\n');
            }
            seq![strip_cr(s.subrange(i, j))] + lines_from(s, j + 1)
        } else {
            seq![s.subrange(i, s.len() as int)]
        }
    }
}

/// Splits the text into its lines, as [`lines_from`] describes them.
pub(crate) fn split_lines(s: &str) -> (v: Vec<String>)
    ensures
        v@.map_values(|x: String| x@) == lines_from(s@, 0),
{
    let n = s.unicode_len();
    let mut v: Vec<String> = Vec::new();
    let mut i: usize = 0;
    proof {
        assert(v@.map_values(|x: String| x@) + lines_from(s@, 0) =~= lines_from(s@, 0));
    }
    while i < n
        invariant
            i <= n,
            n == s@.len(),
            v@.map_values(|x: String| x@) + lines_from(s@, i as int) == lines_from(s@, 0),
        decreases n - i,
    {
        let ghost prev = v@.map_values(|x: String| x@);
        match find_char(s, i, '\n') {
            Some(j) => {
                proof {
                    lemma_find_from(s@, i as int, '\n');
                }
                let end = if j > i && s.get_char(j - 1) == '\r' {
                    j - 1
                } else {
                    j
                };
                let line = s.substring_char(i, end);
                proof {
                    if j > i && s@[j - 1] == '\r' {
                        assert(s@.subrange(i as int, j as int).drop_last() =~= s@.subrange(
                            i as int,
                            j - 1,
                        ));
                    }
                    assert(line@ == strip_cr(s@.subrange(i as int, j as int)));
                }
                v.push(String::from_str(line));
                proof {
                    assert(v@.map_values(|x: String| x@) =~= prev.push(line@));
                    assert(v@.map_values(|x: String| x@) + lines_from(s@, j + 1) =~= prev
                        + lines_from(s@, i as int));
                }
                i = j + 1;
            },
            None => {
                let line = s.substring_char(i, n);
                v.push(String::from_str(line));
                proof {
                    assert(lines_from(s@, n as int) =~= Seq::<Seq<char>>::empty());
                    assert(v@.map_values(|x: String| x@) =~= prev.push(line@));
                    assert(v@.map_values(|x: String| x@) + lines_from(s@, n as int) =~= prev
                        + lines_from(s@, i as int));
                }
                i = n;
            },
        }
    }
    proof {
        assert(lines_from(s@, n as int) =~= Seq::<Seq<char>>::empty());
        assert(v@.map_values(|x: String| x@) =~= lines_from(s@, 0));
    }
    v
}

/// A fence line: its left-trimmed form starts with three backticks.
pub open spec fn is_fence(l: Seq<char>) -> bool {
    starts_with(l.subrange(first_non_ws(l, 0), l.len() as int), "```"@)
}

/// Runtime test for [`is_fence`].
fn is_fence_line(s: &str) -> (b: bool)
    ensures
        b == is_fence(s@),
{
    let n = s.unicode_len();
    let a = ws_start(s);
    let t = s.substring_char(a, n);
    has_prefix(t, "```")
}

/// The rendering of one normal-state line: the trimmed line is matched, in
/// this order, as an `###`/`##`/`#` heading, a `- ` list item (a bare
/// `<li>`, with no surrounding list element), a paragraph when non-empty,
/// or nothing when blank. The content after a matched prefix goes through
/// the inline passes.
pub open spec fn render_line(l: Seq<char>) -> Seq<char> {
    let t = trim_spec(l);
    if starts_with(t, "### "@) {
        "<h3>"@ + inline_spec(t.skip(4)) + "</h3>\n"@
    } else if starts_with(t, "## "@) {
        "<h2>"@ + inline_spec(t.skip(3)) + "</h2>\n"@
    } else if starts_with(t, "# "@) {
        "<h1>"@ + inline_spec(t.skip(2)) + "</h1>\n"@
    } else if starts_with(t, "- "@) {
        "<li>"@ + inline_spec(t.skip(2)) + "</li>\n"@
    } else if t.len() > 0 {
        "<p>"@ + inline_spec(t) + "</p>\n"@
    } else {
        Seq::empty()
    }
}

/// Runtime rendering of one normal-state line, as [`render_line`]
/// describes it.
fn render_one_line(l: &str) -> (r: String)
    ensures
        r@ == render_line(l@),
{
    let t = trim_str(l);
    let n = t.unicode_len();
    let mut r = String::new();
    if has_prefix(t, "### ") {
        proof {
            reveal_strlit("### ");
            assert(t@.subrange(4, n as int) =~= t@.skip(4));
        }
        let inner = process_inline_markdown(t.substring_char(4, n));
        r.append("<h3>");
        r.append(inner.as_str());
        r.append("</h3>\n");
        proof {
            assert(r@ =~= render_line(l@));
        }
    } else if has_prefix(t, "## ") {
        proof {
            reveal_strlit("## ");
            assert(t@.subrange(3, n as int) =~= t@.skip(3));
        }
        let inner = process_inline_markdown(t.substring_char(3, n));
        r.append("<h2>");
        r.append(inner.as_str());
        r.append("</h2>\n");
        proof {
            assert(r@ =~= render_line(l@));
        }
    } else if has_prefix(t, "# ") {
        proof {
            reveal_strlit("# ");
            assert(t@.subrange(2, n as int) =~= t@.skip(2));
        }
        let inner = process_inline_markdown(t.substring_char(2, n));
        r.append("<h1>");
        r.append(inner.as_str());
        r.append("</h1>\n");
        proof {
            assert(r@ =~= render_line(l@));
        }
    } else if has_prefix(t, "- ") {
        proof {
            reveal_strlit("- ");
            assert(t@.subrange(2, n as int) =~= t@.skip(2));
        }
        let inner = process_inline_markdown(t.substring_char(2, n));
        r.append("<li>");
        r.append(inner.as_str());
        r.append("</li>\n");
        proof {
            assert(r@ =~= render_line(l@));
        }
    } else if n > 0 {
        let inner = process_inline_markdown(t);
        r.append("<p>");
        r.append(inner.as_str());
        r.append("</p>\n");
        proof {
            assert(r@ =~= render_line(l@));
        }
    } else {
        proof {
            assert(r@ =~= render_line(l@));
        }
    }
    r
}

/// The rendering of the lines from index `i` on, given the current state:
/// `in_code` with the accumulated `code` buffer, or normal. Fence lines
/// toggle the state and emit nothing themselves; the closing fence flushes
/// the buffer as one escaped code block. A buffer still open at the end of
/// the lines is dropped.
pub open spec fn render_from(ls: Seq<Seq<char>>, i: int, in_code: bool, code: Seq<char>) -> Seq<
    char,
>
    decreases ls.len() - i,
{
    if i < 0 || i >= ls.len() {
        Seq::empty()
    } else if is_fence(ls[i]) {
        if in_code {
            "<pre><code>"@ + escape_spec(code) + "</code></pre>\n"@ + render_from(
                ls,
                i + 1,
                false,
                Seq::empty(),
            )
        } else {
            render_from(ls, i + 1, true, Seq::empty())
        }
    } else if in_code {
        render_from(ls, i + 1, true, code + ls[i] + seq!['\n'])
    } else {
        render_line(ls[i]) + render_from(ls, i + 1, false, code)
    }
}

/// The full rendering of a markdown body: its lines folded from the
/// normal state with an empty buffer.
pub open spec fn md_spec(m: Seq<char>) -> Seq<char> {
    render_from(lines_from(m, 0), 0, false, Seq::empty())
}

/// A character with a block-level or inline meaning in the markdown
/// subset.
pub open spec fn md_special(c: char) -> bool {
    c == '#' || c == '-' || c == '*' || c == '[' || c == ']' || c == '(' || c == ')' || c == '!'
        || c == '`'
}

/// A non-blank line of plain text — holding no markdown special character,
/// no reserved HTML character and no surrounding whitespace — renders as a
/// paragraph wrapping its escaped text (which such text's escaping leaves
/// unchanged).
pub proof fn lemma_plain_line_paragraph(t: Seq<char>)
    requires
        t.len() > 0,
        trim_spec(t) == t,
        forall|i: int| 0 <= i < t.len() ==> !md_special(t[i]) && !crate::escape::reserved(t[i]),
    ensures
        render_line(t) == "<p>"@ + escape_spec(t) + "</p>\n"@,
{
    reveal_strlit("### ");
    reveal_strlit("## ");
    reveal_strlit("# ");
    reveal_strlit("- ");
    if starts_with(t, "### "@) {
        assert(t.subrange(0, 4)[0] == t[0]);
        assert(false);
    }
    if starts_with(t, "## "@) {
        assert(t.subrange(0, 3)[0] == t[0]);
        assert(false);
    }
    if starts_with(t, "# "@) {
        assert(t.subrange(0, 2)[0] == t[0]);
        assert(false);
    }
    if starts_with(t, "- "@) {
        assert(t.subrange(0, 2)[0] == t[0]);
        assert(false);
    }
    crate::inline::lemma_inline_plain(t);
    crate::escape::lemma_escape_reserved_free(t);
}

/// A body that is one non-blank line of plain text — no markdown special
/// character, no reserved HTML character, no newline and no surrounding
/// whitespace — renders as exactly one paragraph wrapping its escaped
/// text.
pub proof fn lemma_plain_text_renders_paragraph(t: Seq<char>)
    requires
        t.len() > 0,
        trim_spec(t) == t,
        forall|i: int|
            0 <= i < t.len() ==> !md_special(t[i]) && !crate::escape::reserved(t[i]) && t[i]
                != '\n',
    ensures
        md_spec(t) == "<p>"@ + escape_spec(t) + "</p>\n"@,
{
    crate::text::lemma_find_from_none(t, 0, '\n');
    assert(t.subrange(0, t.len() as int) =~= t);
    let ls = lines_from(t, 0);
    assert(ls =~= seq![t]);
    reveal_strlit("```");
    if is_fence(ls[0]) {
        lemma_first_non_ws(t, 0);
        let a = first_non_ws(t, 0);
        let lt = t.subrange(a, t.len() as int);
        assert(lt.subrange(0, 3)[0] == lt[0]);
        assert(t[a] == '`');
        assert(false);
    }
    lemma_plain_line_paragraph(t);
    assert(render_from(ls, 1, false, Seq::empty()) =~= Seq::<char>::empty());
    assert(md_spec(t) =~= render_line(t));
}

/// Renders a markdown body to an HTML fragment.
pub fn markdown_to_html(markdown: &str) -> (res: String)
    ensures
        res@ == md_spec(markdown@),
{
    let lines = split_lines(markdown);
    let ghost ls = lines_from(markdown@, 0);
    let n = lines.len();
    let mut html = String::new();
    let mut in_code = false;
    let mut code = String::new();
    let mut i: usize = 0;
    proof {
        assert(html@ + render_from(ls, 0, false, code@) =~= md_spec(markdown@));
    }
    while i < n
        invariant
            i <= n,
            n == ls.len(),
            lines@.map_values(|x: String| x@) == ls,
            !in_code ==> code@ == Seq::<char>::empty(),
            html@ + render_from(ls, i as int, in_code, code@) == md_spec(markdown@),
        decreases n - i,
    {
        let ghost prevh = html@;
        let ghost prevc = code@;
        let line = &lines[i];
        proof {
            assert(lines@.map_values(|x: String| x@)[i as int] == ls[i as int]);
        }
        if is_fence_line(line.as_str()) {
            if in_code {
                let esc = escape_html(code.as_str());
                html.append("<pre><code>");
                html.append(esc.as_str());
                html.append("</code></pre>\n");
                code = String::new();
                in_code = false;
                proof {
                    assert(html@ + render_from(ls, i + 1, false, code@) =~= prevh + render_from(
                        ls,
                        i as int,
                        true,
                        prevc,
                    ));
                }
            } else {
                in_code = true;
                proof {
                    assert(code@ =~= Seq::<char>::empty());
                    assert(html@ + render_from(ls, i + 1, true, code@) =~= prevh + render_from(
                        ls,
                        i as int,
                        false,
                        prevc,
                    ));
                }
            }
        } else if in_code {
            code.append(line.as_str());
            code.append("\n");
            proof {
                reveal_strlit("\n");
                assert(code@ =~= prevc + ls[i as int] + seq!['\n']);
                assert(html@ + render_from(ls, i + 1, true, code@) =~= prevh + render_from(
                    ls,
                    i as int,
                    true,
                    prevc,
                ));
            }
        } else {
            let piece = render_one_line(line.as_str());
            html.append(piece.as_str());
            proof {
                assert(html@ + render_from(ls, i + 1, false, code@) =~= prevh + render_from(
                    ls,
                    i as int,
                    false,
                    prevc,
                ));
            }
        }
        i += 1;
    }
    proof {
        assert(render_from(ls, n as int, in_code, code@) =~= Seq::<char>::empty());
        assert(html@ =~= md_spec(markdown@));
    }
    html
}

} // verus!
