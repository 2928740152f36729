//! The post extractor. A post file opens with a line that is exactly
//! `---`; the lines up to the next such line are frontmatter, the rest is
//! the markdown body. Frontmatter lines are matched against the three
//! fixed prefixes `title: `, `date: ` and `excerpt: ` (a later line for
//! the same key overwrites an earlier one; unknown lines are ignored), and
//! a single pair of double quotes surrounding a value is stripped. The
//! slug is the file name's stem, or `untitled` when the path yields no
//! name. A file whose first line is not the delimiter is no post.

use vstd::prelude::*;
use vstd::string::{StrSliceExecFns, StringExecFns};
use crate::blocks::{lines_from, md_spec, markdown_to_html, split_lines};
use crate::text::{starts_with, has_prefix, str_eq};

verus! {

/// A rendered post: the frontmatter fields, the slug derived from the
/// file's path, and the body rendered to an HTML fragment.
#[derive(Clone)]
pub struct Post {
    pub title: String,
    pub slug: String,
    pub date: String,
    pub excerpt: String,
    pub html_content: String,
}

/// The last position before `j` holding character `c`, or `-1`.
pub open spec fn rfind_before(s: Seq<char>, j: int, c: char) -> int
    decreases j,
{
    if j <= 0 {
        -1
    } else if s[j - 1] == c {
        j - 1
    } else {
        rfind_before(s, j - 1, c)
    }
}

/// A value with one surrounding pair of double quotes stripped; any other
/// value is kept as it stands.
pub open spec fn unquote(v: Seq<char>) -> Seq<char> {
    if v.len() >= 2 && v[0] == '"' && v[v.len() - 1] == '"' {
        v.subrange(1, v.len() - 1)
    } else {
        v
    }
}

/// The slug for a file path: the part after the last `/`, without the
/// extension after its last `.` (a name whose only `.` is its first
/// character is kept whole), or `untitled` when nothing is left of the
/// name.
pub open spec fn slug_spec(f: Seq<char>) -> Seq<char> {
    let name = f.subrange(rfind_before(f, f.len() as int, '/') + 1, f.len() as int);
    if name.len() == 0 {
        "untitled"@
    } else {
        let d = rfind_before(name, name.len() as int, '.');
        if d <= 0 {
            name
        } else {
            name.subrange(0, d)
        }
    }
}

/// The index of the line that closes the frontmatter: the first line at or
/// after `i` that is exactly `---`, or the number of lines when none is
/// (the whole rest of the file then stays frontmatter and the body is
/// empty).
pub open spec fn fm_close(ls: Seq<Seq<char>>, i: int) -> int
    decreases ls.len() - i,
{
    if i < 0 || i >= ls.len() {
        ls.len() as int
    } else if ls[i] == "---"@ {
        i
    } else {
        fm_close(ls, i + 1)
    }
}

/// The last value given for a key among the frontmatter lines `i` up to
/// `end`, starting from `acc`; each value has one pair of surrounding
/// quotes stripped.
pub open spec fn fm_field(
    ls: Seq<Seq<char>>,
    i: int,
    end: int,
    key: Seq<char>,
    acc: Seq<char>,
) -> Seq<char>
    decreases end - i,
{
    if i >= end {
        acc
    } else {
        fm_field(
            ls,
            i + 1,
            end,
            key,
            if starts_with(ls[i], key) {
                unquote(ls[i].skip(key.len() as int))
            } else {
                acc
            },
        )
    }
}

/// The lines `i` on, joined back into one text with a newline after each.
pub open spec fn join_from(ls: Seq<Seq<char>>, i: int) -> Seq<char>
    decreases ls.len() - i,
{
    if i < 0 || i >= ls.len() {
        Seq::empty()
    } else {
        ls[i] + seq!['\n'] + join_from(ls, i + 1)
    }
}

/// The text is a post: its first line is exactly the `---` delimiter.
pub open spec fn is_post(c: Seq<char>) -> bool {
    lines_from(c, 0).len() > 0 && lines_from(c, 0)[0] == "---"@
}

/// Where the frontmatter of the text closes.
pub open spec fn fm_end(c: Seq<char>) -> int {
    fm_close(lines_from(c, 0), 1)
}

/// The text's `title` field.
pub open spec fn title_of(c: Seq<char>) -> Seq<char> {
    fm_field(lines_from(c, 0), 1, fm_end(c), "title: "@, Seq::empty())
}

/// The text's `date` field.
pub open spec fn date_of(c: Seq<char>) -> Seq<char> {
    fm_field(lines_from(c, 0), 1, fm_end(c), "date: "@, Seq::empty())
}

/// The text's `excerpt` field.
pub open spec fn excerpt_of(c: Seq<char>) -> Seq<char> {
    fm_field(lines_from(c, 0), 1, fm_end(c), "excerpt: "@, Seq::empty())
}

/// The text's markdown body: the lines after the closing delimiter,
/// joined with a newline after each.
pub open spec fn body_of(c: Seq<char>) -> Seq<char> {
    join_from(lines_from(c, 0), fm_end(c) + 1)
}

/// Strips one pair of surrounding double quotes, as [`unquote`] describes.
fn unquote_str(s: &str) -> (r: String)
    ensures
        r@ == unquote(s@),
{
    let n = s.unicode_len();
    if n >= 2 && s.get_char(0) == '"' && s.get_char(n - 1) == '"' {
        String::from_str(s.substring_char(1, n - 1))
    } else {
        String::from_str(s)
    }
}

/// Runtime search for [`rfind_before`] over a whole string.
fn rfind_char(s: &str, c: char) -> (r: Option<usize>)
    ensures
        match r {
            Some(k) => rfind_before(s@, s@.len() as int, c) == k,
            None => rfind_before(s@, s@.len() as int, c) == -1,
        },
{
    let n = s.unicode_len();
    let mut j = n;
    while j > 0
        invariant
            j <= n,
            n == s@.len(),
            rfind_before(s@, n as int, c) == rfind_before(s@, j as int, c),
        decreases j,
    {
        if s.get_char(j - 1) == c {
            return Some(j - 1);
        }
        j -= 1;
    }
    None
}

/// Derives the slug from the file path, as [`slug_spec`] describes.
fn slug_of(path: &str) -> (r: String)
    ensures
        r@ == slug_spec(path@),
{
    let n = path.unicode_len();
    proof {
        lemma_rfind_before(path@, n as int, '/');
    }
    let start = match rfind_char(path, '/') {
        Some(q) => q + 1,
        None => 0,
    };
    let name = path.substring_char(start, n);
    let m = name.unicode_len();
    if m == 0 {
        String::from_str("untitled")
    } else {
        proof {
            lemma_rfind_before(name@, m as int, '.');
        }
        match rfind_char(name, '.') {
            Some(q) => {
                if q > 0 {
                    String::from_str(name.substring_char(0, q))
                } else {
                    String::from_str(name)
                }
            },
            None => String::from_str(name),
        }
    }
}

/// A found position of [`rfind_before`] lies in range and holds the
/// character looked for.
pub proof fn lemma_rfind_before(s: Seq<char>, j: int, c: char)
    requires
        j <= s.len(),
    ensures
        rfind_before(s, j, c) == -1 || (0 <= rfind_before(s, j, c) < j && s[rfind_before(s, j, c)]
            == c),
    decreases j,
{
    if j > 0 && s[j - 1] != c {
        lemma_rfind_before(s, j - 1, c);
    }
}

/// Parses a post file: `None` when the first line is not the `---`
/// delimiter, otherwise the [`Post`] with its frontmatter fields, the slug
/// of `path`, and the body rendered to HTML.
pub fn parse_post(path: &str, content: &str) -> (r: Option<Post>)
    ensures
        r is Some <==> is_post(content@),
        r is Some ==> r.unwrap().title@ == title_of(content@),
        r is Some ==> r.unwrap().date@ == date_of(content@),
        r is Some ==> r.unwrap().excerpt@ == excerpt_of(content@),
        r is Some ==> r.unwrap().slug@ == slug_spec(path@),
        r is Some ==> r.unwrap().html_content@ == md_spec(body_of(content@)),
{
    let lines = split_lines(content);
    let ghost ls = lines_from(content@, 0);
    let n = lines.len();
    if n == 0 {
        return None;
    }
    let first = &lines[0];
    proof {
        assert(lines@.map_values(|x: String| x@)[0] == ls[0]);
    }
    if !str_eq(first.as_str(), "---") {
        return None;
    }
    // Find the line that closes the frontmatter.
    let mut k: usize = 1;
    let mut kc: usize = n;
    let mut found = false;
    while k < n
        invariant
            1 <= k <= n,
            n == ls.len(),
            lines@.map_values(|x: String| x@) == ls,
            !found ==> kc == n && fm_close(ls, 1) == fm_close(ls, k as int),
            found ==> 1 <= kc <= n && fm_close(ls, 1) == kc as int,
        decreases n - k,
    {
        if !found {
            proof {
                assert(lines@.map_values(|x: String| x@)[k as int] == ls[k as int]);
            }
            if str_eq(lines[k].as_str(), "---") {
                found = true;
                kc = k;
            }
        }
        k += 1;
    }
    proof {
        assert(kc as int == fm_end(content@));
    }
    // Collect the frontmatter fields; a later line for a key wins.
    let mut title = String::new();
    let mut date = String::new();
    let mut excerpt = String::new();
    let mut j: usize = 1;
    while j < kc
        invariant
            1 <= j <= kc,
            kc <= n,
            n == ls.len(),
            kc as int == fm_end(content@),
            lines@.map_values(|x: String| x@) == ls,
            fm_field(ls, j as int, kc as int, "title: "@, title@) == title_of(content@),
            fm_field(ls, j as int, kc as int, "date: "@, date@) == date_of(content@),
            fm_field(ls, j as int, kc as int, "excerpt: "@, excerpt@) == excerpt_of(content@),
        decreases kc - j,
    {
        let line = &lines[j];
        proof {
            assert(lines@.map_values(|x: String| x@)[j as int] == ls[j as int]);
        }
        let m = line.as_str().unicode_len();
        if has_prefix(line.as_str(), "title: ") {
            proof {
                reveal_strlit("title: ");
                assert(line@.subrange(7, m as int) =~= ls[j as int].skip("title: "@.len() as int));
            }
            title = unquote_str(line.as_str().substring_char(7, m));
        }
        if has_prefix(line.as_str(), "date: ") {
            proof {
                reveal_strlit("date: ");
                assert(line@.subrange(6, m as int) =~= ls[j as int].skip("date: "@.len() as int));
            }
            date = unquote_str(line.as_str().substring_char(6, m));
        }
        if has_prefix(line.as_str(), "excerpt: ") {
            proof {
                reveal_strlit("excerpt: ");
                assert(line@.subrange(9, m as int) =~= ls[j as int].skip(
                    "excerpt: "@.len() as int,
                ));
            }
            excerpt = unquote_str(line.as_str().substring_char(9, m));
        }
        j += 1;
    }
    // Join the body lines back into one text.
    let mut body = String::new();
    if kc < n {
        let mut b = kc + 1;
        proof {
            assert(body@ + join_from(ls, b as int) =~= join_from(ls, kc as int + 1));
        }
        while b < n
            invariant
                kc + 1 <= b <= n,
                n == ls.len(),
                lines@.map_values(|x: String| x@) == ls,
                body@ + join_from(ls, b as int) == join_from(ls, kc as int + 1),
            decreases n - b,
        {
            let ghost prev = body@;
            let bl = &lines[b];
            proof {
                assert(lines@.map_values(|x: String| x@)[b as int] == ls[b as int]);
            }
            body.append(bl.as_str());
            body.append("\n");
            proof {
                reveal_strlit("\n");
                assert(body@ =~= prev + ls[b as int] + seq!['\n']);
                assert(body@ + join_from(ls, b + 1) =~= prev + join_from(ls, b as int));
            }
            b += 1;
        }
        proof {
            assert(join_from(ls, n as int) =~= Seq::<char>::empty());
        }
    } else {
        proof {
            assert(join_from(ls, kc as int + 1) =~= Seq::<char>::empty());
        }
    }
    proof {
        assert(body@ == body_of(content@));
    }
    let html = markdown_to_html(body.as_str());
    let slug = slug_of(path);
    Some(Post { title, slug, date, excerpt, html_content: html })
}

} // verus!
