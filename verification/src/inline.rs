//! The inline markup passes. Each pass scans one line's text left to right
//! with one character of lookahead and rebuilds it: `![alt](url)` becomes an
//! `<img>` tag, `[text](url)` a link, `**text**` a `<strong>` span and
//! `*text*` an `<em>` span. Captured content and URLs are HTML-escaped;
//! unterminated markup is passed through literally, so no pass ever drops a
//! character. The passes run in the fixed order image, link, bold, italic,
//! each over the full output of the one before.

use vstd::prelude::*;
use vstd::string::{StrSliceExecFns, StringExecFns};
use crate::escape::{escape_spec, escape_html};
use crate::text::{push_char, find_from, lemma_find_from, find_char};

verus! {

/// A `*` immediately followed by a second `*`: a bold delimiter.
pub open spec fn bold_pair(s: Seq<char>, i: int) -> bool {
    0 <= i && i + 1 < s.len() && s[i] == '*' && s[i + 1] == '*'
}

/// The position of the first bold delimiter at or after `j`, or `-1`.
pub open spec fn bold_close(s: Seq<char>, j: int) -> int
    decreases s.len() - j,
{
    if j < 0 || j >= s.len() {
        -1
    } else if bold_pair(s, j) {
        j
    } else {
        bold_close(s, j + 1)
    }
}

/// A found bold delimiter lies at or after the start of the search and is
/// a real delimiter.
pub proof fn lemma_bold_close(s: Seq<char>, j: int)
    requires
        0 <= j,
    ensures
        bold_close(s, j) == -1 || (j <= bold_close(s, j) && bold_pair(s, bold_close(s, j))),
    decreases s.len() - j,
{
    if j < s.len() && !bold_pair(s, j) {
        lemma_bold_close(s, j + 1);
    }
}

/// The bold pass from position `i` on: on `**` it captures up to the next
/// `**` and emits a `<strong>` span with the capture escaped, or, with no
/// closing `**` before the end, the two delimiters and the rest literally.
pub open spec fn bold_from(s: Seq<char>, i: int) -> Seq<char>
    decreases s.len() - i,
{
    if i < 0 || i >= s.len() {
        Seq::empty()
    } else if bold_pair(s, i) {
        let k = bold_close(s, i + 2);
        if k >= 0 {
            proof {
                lemma_bold_close(s, i + 2);
            }
            "<strong>"@ + escape_spec(s.subrange(i + 2, k)) + "</strong>"@ + bold_from(s, k + 2)
        } else {
            "**"@ + s.subrange(i + 2, s.len() as int)
        }
    } else {
        seq![s[i]] + bold_from(s, i + 1)
    }
}

/// Runtime search for [`bold_close`].
fn find_bold_close(s: &str, start: usize) -> (r: Option<usize>)
    requires
        start <= s@.len(),
    ensures
        match r {
            Some(k) => bold_close(s@, start as int) == k,
            None => bold_close(s@, start as int) == -1,
        },
{
    let n = s.unicode_len();
    let mut j = start;
    while j < n
        invariant
            start <= j <= n,
            n == s@.len(),
            bold_close(s@, start as int) == bold_close(s@, j as int),
        decreases n - j,
    {
        if s.get_char(j) == '*' && j + 1 < n && s.get_char(j + 1) == '*' {
            return Some(j);
        }
        j += 1;
    }
    None
}

/// Rewrites `**text**` spans to `<strong>` tags with escaped content.
pub fn parse_bold(text: &str) -> (res: String)
    ensures
        res@ == bold_from(text@, 0),
{
    let n = text.unicode_len();
    let mut res = String::new();
    let mut i: usize = 0;
    proof {
        assert(res@ + bold_from(text@, 0) =~= bold_from(text@, 0));
    }
    while i < n
        invariant
            i <= n,
            n == text@.len(),
            res@ + bold_from(text@, i as int) == bold_from(text@, 0),
        decreases n - i,
    {
        let ghost prev = res@;
        let c = text.get_char(i);
        if c == '*' && i + 1 < n && text.get_char(i + 1) == '*' {
            match find_bold_close(text, i + 2) {
                Some(k) => {
                    proof {
                        lemma_bold_close(text@, i + 2);
                    }
                    let content = text.substring_char(i + 2, k);
                    let esc = escape_html(content);
                    res.append("<strong>");
                    res.append(esc.as_str());
                    res.append("</strong>");
                    proof {
                        assert(res@ + bold_from(text@, k + 2) =~= prev + bold_from(
                            text@,
                            i as int,
                        ));
                    }
                    i = k + 2;
                },
                None => {
                    let rest = text.substring_char(i + 2, n);
                    res.append("**");
                    res.append(rest);
                    proof {
                        assert(bold_from(text@, n as int) =~= Seq::<char>::empty());
                        assert(res@ + bold_from(text@, n as int) =~= prev + bold_from(
                            text@,
                            i as int,
                        ));
                    }
                    i = n;
                },
            }
        } else {
            push_char(&mut res, c);
            proof {
                assert(res@ =~= prev + seq![text@[i as int]]);
                assert(res@ + bold_from(text@, i + 1) =~= prev + bold_from(text@, i as int));
            }
            i += 1;
        }
    }
    proof {
        assert(bold_from(text@, n as int) =~= Seq::<char>::empty());
        assert(res@ =~= bold_from(text@, 0));
    }
    res
}

/// A `*` not immediately followed by a second `*`: an italic delimiter.
pub open spec fn italic_mark(s: Seq<char>, i: int) -> bool {
    0 <= i < s.len() && s[i] == '*' && !(i + 1 < s.len() && s[i + 1] == '*')
}

/// The position of the first italic delimiter at or after `j`, or `-1`.
pub open spec fn italic_close(s: Seq<char>, j: int) -> int
    decreases s.len() - j,
{
    if j < 0 || j >= s.len() {
        -1
    } else if italic_mark(s, j) {
        j
    } else {
        italic_close(s, j + 1)
    }
}

/// A found italic delimiter lies at or after the start of the search and
/// is a real delimiter.
pub proof fn lemma_italic_close(s: Seq<char>, j: int)
    requires
        0 <= j,
    ensures
        italic_close(s, j) == -1 || (j <= italic_close(s, j) && italic_mark(
            s,
            italic_close(s, j),
        )),
    decreases s.len() - j,
{
    if j < s.len() && !italic_mark(s, j) {
        lemma_italic_close(s, j + 1);
    }
}

/// The italic pass from position `i` on: on a lone `*` it captures up to
/// the next lone `*` and emits an `<em>` span with the capture escaped, or,
/// with no closing `*` before the end, the delimiter and the rest
/// literally. A `*` that belongs to a `**` is never a delimiter, so this
/// pass leaves bold output alone when it runs after the bold pass.
pub open spec fn italic_from(s: Seq<char>, i: int) -> Seq<char>
    decreases s.len() - i,
{
    if i < 0 || i >= s.len() {
        Seq::empty()
    } else if italic_mark(s, i) {
        let k = italic_close(s, i + 1);
        if k >= 0 {
            proof {
                lemma_italic_close(s, i + 1);
            }
            "<em>"@ + escape_spec(s.subrange(i + 1, k)) + "</em>"@ + italic_from(s, k + 1)
        } else {
            seq!['*'] + s.subrange(i + 1, s.len() as int)
        }
    } else {
        seq![s[i]] + italic_from(s, i + 1)
    }
}

/// Runtime search for [`italic_close`].
fn find_italic_close(s: &str, start: usize) -> (r: Option<usize>)
    requires
        start <= s@.len(),
    ensures
        match r {
            Some(k) => italic_close(s@, start as int) == k,
            None => italic_close(s@, start as int) == -1,
        },
{
    let n = s.unicode_len();
    let mut j = start;
    while j < n
        invariant
            start <= j <= n,
            n == s@.len(),
            italic_close(s@, start as int) == italic_close(s@, j as int),
        decreases n - j,
    {
        if s.get_char(j) == '*' && !(j + 1 < n && s.get_char(j + 1) == '*') {
            return Some(j);
        }
        j += 1;
    }
    None
}

/// Rewrites `*text*` spans to `<em>` tags with escaped content.
pub fn parse_italic(text: &str) -> (res: String)
    ensures
        res@ == italic_from(text@, 0),
{
    let n = text.unicode_len();
    let mut res = String::new();
    let mut i: usize = 0;
    proof {
        assert(res@ + italic_from(text@, 0) =~= italic_from(text@, 0));
    }
    while i < n
        invariant
            i <= n,
            n == text@.len(),
            res@ + italic_from(text@, i as int) == italic_from(text@, 0),
        decreases n - i,
    {
        let ghost prev = res@;
        let c = text.get_char(i);
        if c == '*' && !(i + 1 < n && text.get_char(i + 1) == '*') {
            match find_italic_close(text, i + 1) {
                Some(k) => {
                    proof {
                        lemma_italic_close(text@, i + 1);
                    }
                    let content = text.substring_char(i + 1, k);
                    let esc = escape_html(content);
                    res.append("<em>");
                    res.append(esc.as_str());
                    res.append("</em>");
                    proof {
                        assert(res@ + italic_from(text@, k + 1) =~= prev + italic_from(
                            text@,
                            i as int,
                        ));
                    }
                    i = k + 1;
                },
                None => {
                    let rest = text.substring_char(i + 1, n);
                    push_char(&mut res, '*');
                    res.append(rest);
                    proof {
                        assert(italic_from(text@, n as int) =~= Seq::<char>::empty());
                        assert(res@ =~= prev + seq!['*'] + text@.subrange(i + 1, n as int));
                        assert(res@ + italic_from(text@, n as int) =~= prev + italic_from(
                            text@,
                            i as int,
                        ));
                    }
                    i = n;
                },
            }
        } else {
            push_char(&mut res, c);
            proof {
                assert(res@ =~= prev + seq![text@[i as int]]);
                assert(res@ + italic_from(text@, i + 1) =~= prev + italic_from(text@, i as int));
            }
            i += 1;
        }
    }
    proof {
        assert(italic_from(text@, n as int) =~= Seq::<char>::empty());
        assert(res@ =~= italic_from(text@, 0));
    }
    res
}

/// The link pass from position `i` on: on `[` it captures the text up to
/// `]` and, when `(` follows at once, the URL up to `)`, and emits an
/// anchor tag with both parts escaped. Without the parenthesized URL the
/// bracketed text is emitted literally; without a closing delimiter the
/// rest of the line is emitted literally.
pub open spec fn link_from(s: Seq<char>, i: int) -> Seq<char>
    decreases s.len() - i,
{
    if i < 0 || i >= s.len() {
        Seq::empty()
    } else if s[i] == '[' {
        let k = find_from(s, i + 1, ']');
        if k >= 0 {
            proof {
                lemma_find_from(s, i + 1, ']');
            }
            if k + 1 < s.len() && s[k + 1] == '(' {
                let m = find_from(s, k + 2, ')');
                if m >= 0 {
                    proof {
                        lemma_find_from(s, k + 2, ')');
                    }
                    "<a href=\""@ + escape_spec(s.subrange(k + 2, m)) + "\">"@ + escape_spec(
                        s.subrange(i + 1, k),
                    ) + "</a>"@ + link_from(s, m + 1)
                } else {
                    seq!['['] + s.subrange(i + 1, k) + seq![']', '('] + s.subrange(
                        k + 2,
                        s.len() as int,
                    )
                }
            } else {
                seq!['['] + s.subrange(i + 1, k) + seq![']'] + link_from(s, k + 1)
            }
        } else {
            seq!['['] + s.subrange(i + 1, s.len() as int)
        }
    } else {
        seq![s[i]] + link_from(s, i + 1)
    }
}

/// Rewrites `[text](url)` spans to `<a>` tags with escaped text and URL.
pub fn parse_link(text: &str) -> (res: String)
    ensures
        res@ == link_from(text@, 0),
{
    let n = text.unicode_len();
    let mut res = String::new();
    let mut i: usize = 0;
    proof {
        assert(res@ + link_from(text@, 0) =~= link_from(text@, 0));
    }
    while i < n
        invariant
            i <= n,
            n == text@.len(),
            res@ + link_from(text@, i as int) == link_from(text@, 0),
        decreases n - i,
    {
        let ghost prev = res@;
        let c = text.get_char(i);
        if c == '[' {
            match find_char(text, i + 1, ']') {
                Some(k) => {
                    proof {
                        lemma_find_from(text@, i + 1, ']');
                    }
                    let txt = text.substring_char(i + 1, k);
                    if k + 1 < n && text.get_char(k + 1) == '(' {
                        match find_char(text, k + 2, ')') {
                            Some(m) => {
                                proof {
                                    lemma_find_from(text@, k + 2, ')');
                                }
                                let url = text.substring_char(k + 2, m);
                                let eurl = escape_html(url);
                                let etxt = escape_html(txt);
                                res.append("<a href=\"");
                                res.append(eurl.as_str());
                                res.append("\">");
                                res.append(etxt.as_str());
                                res.append("</a>");
                                proof {
                                    assert(res@ + link_from(text@, m + 1) =~= prev + link_from(
                                        text@,
                                        i as int,
                                    ));
                                }
                                i = m + 1;
                            },
                            None => {
                                let rest = text.substring_char(k + 2, n);
                                push_char(&mut res, '[');
                                res.append(txt);
                                push_char(&mut res, ']');
                                push_char(&mut res, '(');
                                res.append(rest);
                                proof {
                                    assert(link_from(text@, n as int) =~= Seq::<char>::empty());
                                    assert(res@ =~= prev + seq!['['] + text@.subrange(i + 1, k as int)
                                        + seq![']', '('] + text@.subrange(k + 2, n as int));
                                    assert(res@ + link_from(text@, n as int) =~= prev + link_from(
                                        text@,
                                        i as int,
                                    ));
                                }
                                i = n;
                            },
                        }
                    } else {
                        push_char(&mut res, '[');
                        res.append(txt);
                        push_char(&mut res, ']');
                        proof {
                            assert(res@ =~= prev + seq!['['] + text@.subrange(i + 1, k as int)
                                + seq![']']);
                            assert(res@ + link_from(text@, k + 1) =~= prev + link_from(
                                text@,
                                i as int,
                            ));
                        }
                        i = k + 1;
                    }
                },
                None => {
                    let rest = text.substring_char(i + 1, n);
                    push_char(&mut res, '[');
                    res.append(rest);
                    proof {
                        assert(link_from(text@, n as int) =~= Seq::<char>::empty());
                        assert(res@ =~= prev + seq!['['] + text@.subrange(i + 1, n as int));
                        assert(res@ + link_from(text@, n as int) =~= prev + link_from(
                            text@,
                            i as int,
                        ));
                    }
                    i = n;
                },
            }
        } else {
            push_char(&mut res, c);
            proof {
                assert(res@ =~= prev + seq![text@[i as int]]);
                assert(res@ + link_from(text@, i + 1) =~= prev + link_from(text@, i as int));
            }
            i += 1;
        }
    }
    proof {
        assert(link_from(text@, n as int) =~= Seq::<char>::empty());
        assert(res@ =~= link_from(text@, 0));
    }
    res
}

/// The image pass from position `i` on: on `![` it captures the alt text
/// up to `]` and, when `(` follows at once, the URL up to `)`, and emits an
/// `<img>` tag with both parts escaped. Malformed spans are emitted
/// literally, as in the link pass.
pub open spec fn image_from(s: Seq<char>, i: int) -> Seq<char>
    decreases s.len() - i,
{
    if i < 0 || i >= s.len() {
        Seq::empty()
    } else if s[i] == '!' && i + 1 < s.len() && s[i + 1] == '[' {
        let k = find_from(s, i + 2, ']');
        if k >= 0 {
            proof {
                lemma_find_from(s, i + 2, ']');
            }
            if k + 1 < s.len() && s[k + 1] == '(' {
                let m = find_from(s, k + 2, ')');
                if m >= 0 {
                    proof {
                        lemma_find_from(s, k + 2, ')');
                    }
                    "<img src=\""@ + escape_spec(s.subrange(k + 2, m)) + "\" alt=\""@
                        + escape_spec(s.subrange(i + 2, k)) + "\" />"@ + image_from(s, m + 1)
                } else {
                    seq!['!', '['] + s.subrange(i + 2, k) + seq![']', '('] + s.subrange(
                        k + 2,
                        s.len() as int,
                    )
                }
            } else {
                seq!['!', '['] + s.subrange(i + 2, k) + seq![']'] + image_from(s, k + 1)
            }
        } else {
            seq!['!', '['] + s.subrange(i + 2, s.len() as int)
        }
    } else {
        seq![s[i]] + image_from(s, i + 1)
    }
}

/// Rewrites `![alt](url)` spans to `<img>` tags with escaped alt text and
/// URL.
#[verifier::rlimit(60)]
pub fn parse_image(text: &str) -> (res: String)
    ensures
        res@ == image_from(text@, 0),
{
    let n = text.unicode_len();
    let mut res = String::new();
    let mut i: usize = 0;
    proof {
        assert(res@ + image_from(text@, 0) =~= image_from(text@, 0));
    }
    while i < n
        invariant
            i <= n,
            n == text@.len(),
            res@ + image_from(text@, i as int) == image_from(text@, 0),
        decreases n - i,
    {
        let ghost prev = res@;
        let c = text.get_char(i);
        if c == '!' && i + 1 < n && text.get_char(i + 1) == '[' {
            match find_char(text, i + 2, ']') {
                Some(k) => {
                    proof {
                        lemma_find_from(text@, i + 2, ']');
                    }
                    let alt = text.substring_char(i + 2, k);
                    if k + 1 < n && text.get_char(k + 1) == '(' {
                        match find_char(text, k + 2, ')') {
                            Some(m) => {
                                proof {
                                    lemma_find_from(text@, k + 2, ')');
                                }
                                let url = text.substring_char(k + 2, m);
                                let eurl = escape_html(url);
                                let ealt = escape_html(alt);
                                res.append("<img src=\"");
                                res.append(eurl.as_str());
                                res.append("\" alt=\"");
                                res.append(ealt.as_str());
                                res.append("\" />");
                                proof {
                                    assert(res@ + image_from(text@, m + 1) =~= prev + image_from(
                                        text@,
                                        i as int,
                                    ));
                                }
                                i = m + 1;
                            },
                            None => {
                                let rest = text.substring_char(k + 2, n);
                                push_char(&mut res, '!');
                                push_char(&mut res, '[');
                                res.append(alt);
                                push_char(&mut res, ']');
                                push_char(&mut res, '(');
                                res.append(rest);
                                proof {
                                    assert(image_from(text@, n as int) =~= Seq::<char>::empty());
                                    assert(res@ =~= prev + seq!['!', '['] + text@.subrange(
                                        i + 2,
                                        k as int,
                                    ) + seq![']', '('] + text@.subrange(k + 2, n as int));
                                    assert(res@ + image_from(text@, n as int) =~= prev + image_from(
                                        text@,
                                        i as int,
                                    ));
                                }
                                i = n;
                            },
                        }
                    } else {
                        push_char(&mut res, '!');
                        push_char(&mut res, '[');
                        res.append(alt);
                        push_char(&mut res, ']');
                        proof {
                            assert(res@ =~= prev + seq!['!', '['] + text@.subrange(i + 2, k as int)
                                + seq![']']);
                            assert(res@ + image_from(text@, k + 1) =~= prev + image_from(
                                text@,
                                i as int,
                            ));
                        }
                        i = k + 1;
                    }
                },
                None => {
                    let rest = text.substring_char(i + 2, n);
                    push_char(&mut res, '!');
                    push_char(&mut res, '[');
                    res.append(rest);
                    proof {
                        assert(image_from(text@, n as int) =~= Seq::<char>::empty());
                        assert(res@ =~= prev + seq!['!', '['] + text@.subrange(i + 2, n as int));
                        assert(res@ + image_from(text@, n as int) =~= prev + image_from(
                            text@,
                            i as int,
                        ));
                    }
                    i = n;
                },
            }
        } else {
            push_char(&mut res, c);
            proof {
                assert(res@ =~= prev + seq![text@[i as int]]);
                assert(res@ + image_from(text@, i + 1) =~= prev + image_from(text@, i as int));
            }
            i += 1;
        }
    }
    proof {
        assert(image_from(text@, n as int) =~= Seq::<char>::empty());
        assert(res@ =~= image_from(text@, 0));
    }
    res
}

/// The four inline passes in their fixed order: images first, then links,
/// then bold, then italic. Images run before links because both spans open
/// with a bracket; bold runs before italic so that a `**` pair is never
/// read as two italic delimiters.
pub open spec fn inline_spec(t: Seq<char>) -> Seq<char> {
    italic_from(bold_from(link_from(image_from(t, 0), 0), 0), 0)
}

/// The image pass leaves text without an exclamation mark unchanged.
proof fn lemma_image_id(s: Seq<char>, i: int)
    requires
        0 <= i <= s.len(),
        forall|t: int| 0 <= t < s.len() ==> s[t] != '!',
    ensures
        image_from(s, i) == s.subrange(i, s.len() as int),
    decreases s.len() - i,
{
    if i >= s.len() {
        assert(image_from(s, i) =~= s.subrange(i, s.len() as int));
    } else {
        lemma_image_id(s, i + 1);
        assert(image_from(s, i) =~= s.subrange(i, s.len() as int));
    }
}

/// The link pass leaves text without an opening bracket unchanged.
proof fn lemma_link_id(s: Seq<char>, i: int)
    requires
        0 <= i <= s.len(),
        forall|t: int| 0 <= t < s.len() ==> s[t] != '[',
    ensures
        link_from(s, i) == s.subrange(i, s.len() as int),
    decreases s.len() - i,
{
    if i >= s.len() {
        assert(link_from(s, i) =~= s.subrange(i, s.len() as int));
    } else {
        lemma_link_id(s, i + 1);
        assert(link_from(s, i) =~= s.subrange(i, s.len() as int));
    }
}

/// The bold pass leaves text without an asterisk unchanged.
proof fn lemma_bold_id(s: Seq<char>, i: int)
    requires
        0 <= i <= s.len(),
        forall|t: int| 0 <= t < s.len() ==> s[t] != '*',
    ensures
        bold_from(s, i) == s.subrange(i, s.len() as int),
    decreases s.len() - i,
{
    if i >= s.len() {
        assert(bold_from(s, i) =~= s.subrange(i, s.len() as int));
    } else {
        lemma_bold_id(s, i + 1);
        assert(bold_from(s, i) =~= s.subrange(i, s.len() as int));
    }
}

/// The italic pass leaves text without an asterisk unchanged.
proof fn lemma_italic_id(s: Seq<char>, i: int)
    requires
        0 <= i <= s.len(),
        forall|t: int| 0 <= t < s.len() ==> s[t] != '*',
    ensures
        italic_from(s, i) == s.subrange(i, s.len() as int),
    decreases s.len() - i,
{
    if i >= s.len() {
        assert(italic_from(s, i) =~= s.subrange(i, s.len() as int));
    } else {
        lemma_italic_id(s, i + 1);
        assert(italic_from(s, i) =~= s.subrange(i, s.len() as int));
    }
}

/// Text holding none of the inline delimiter characters `!`, `[` and `*`
/// passes through all four inline passes unchanged.
pub proof fn lemma_inline_plain(t: Seq<char>)
    requires
        forall|i: int| 0 <= i < t.len() ==> t[i] != '!' && t[i] != '[' && t[i] != '*',
    ensures
        inline_spec(t) == t,
{
    lemma_image_id(t, 0);
    assert(image_from(t, 0) =~= t);
    lemma_link_id(t, 0);
    assert(link_from(t, 0) =~= t);
    lemma_bold_id(t, 0);
    assert(bold_from(t, 0) =~= t);
    lemma_italic_id(t, 0);
    assert(italic_from(t, 0) =~= t);
}

/// Renders one line's inline markup to HTML-safe text.
pub fn process_inline_markdown(text: &str) -> (res: String)
    ensures
        res@ == inline_spec(text@),
{
    let a = parse_image(text);
    let b = parse_link(a.as_str());
    let c = parse_bold(b.as_str());
    parse_italic(c.as_str())
}

} // verus!
