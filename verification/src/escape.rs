//! The HTML escaper: the five reserved characters `&`, `<`, `>`, `"` and
//! `'` are replaced by their entities; the ampersand's replacement comes
//! first in the fixed order, so entities produced for the other four are
//! never re-escaped, and the whole substitution is one left-to-right pass
//! over the characters.

use vstd::prelude::*;
use vstd::string::{StrSliceExecFns, StringExecFns};
use crate::text::push_char;

verus! {

/// A reserved HTML character: one the escaper replaces.
pub open spec fn reserved(c: char) -> bool {
    c == '&' || c == '<' || c == '>' || c == '"' || c == '\''
}

/// What one character contributes to the escaped text.
pub open spec fn esc_char(c: char) -> Seq<char> {
    if c == '&' {
        "&amp;"@
    } else if c == '<' {
        "&lt;"@
    } else if c == '>' {
        "&gt;"@
    } else if c == '"' {
        "&quot;"@
    } else if c == '\'' {
        "&#39;"@
    } else {
        seq![c]
    }
}

/// The escaped form of a whole text: each character's contribution, in
/// order.
pub open spec fn escape_spec(s: Seq<char>) -> Seq<char>
    decreases s.len(),
{
    if s.len() == 0 {
        Seq::empty()
    } else {
        esc_char(s[0]) + escape_spec(s.skip(1))
    }
}

/// Escapes the five reserved HTML characters of `text`.
pub fn escape_html(text: &str) -> (res: String)
    ensures
        res@ == escape_spec(text@),
{
    let n = text.unicode_len();
    let mut res = String::new();
    let mut i: usize = 0;
    proof {
        assert(text@.skip(0) =~= text@);
        assert(res@ + escape_spec(text@) =~= escape_spec(text@));
    }
    while i < n
        invariant
            i <= n,
            n == text@.len(),
            res@ + escape_spec(text@.skip(i as int)) == escape_spec(text@),
        decreases n - i,
    {
        let ghost prev = res@;
        let c = text.get_char(i);
        if c == '&' {
            res.append("&amp;");
        } else if c == '<' {
            res.append("&lt;");
        } else if c == '>' {
            res.append("&gt;");
        } else if c == '"' {
            res.append("&quot;");
        } else if c == '\'' {
            res.append("&#39;");
        } else {
            push_char(&mut res, c);
        }
        proof {
            assert(text@.skip(i as int).skip(1) =~= text@.skip(i as int + 1));
            assert(text@.skip(i as int)[0] == text@[i as int]);
            assert(res@ =~= prev + esc_char(text@[i as int]));
            assert(res@ + escape_spec(text@.skip(i as int + 1)) =~= prev + escape_spec(
                text@.skip(i as int),
            ));
        }
        i += 1;
    }
    proof {
        assert(text@.skip(n as int) =~= Seq::<char>::empty());
        assert(res@ =~= escape_spec(text@));
    }
    res
}

/// Escaping text that holds no reserved character leaves it unchanged, so
/// on such text escaping is idempotent.
/// Escaping never shortens text; it strictly lengthens text that holds a
/// reserved character, and its output then still holds one (the ampersand
/// opening the entity).
pub proof fn lemma_escape_grows(s: Seq<char>)
    ensures
        escape_spec(s).len() >= s.len(),
        (exists|i: int| 0 <= i < s.len() && reserved(s[i])) ==> escape_spec(s).len() > s.len(),
        (exists|i: int| 0 <= i < s.len() && reserved(s[i])) ==> (exists|j: int|
            0 <= j < escape_spec(s).len() && reserved(escape_spec(s)[j])),
    decreases s.len(),
{
    reveal_strlit("&amp;");
    reveal_strlit("&lt;");
    reveal_strlit("&gt;");
    reveal_strlit("&quot;");
    reveal_strlit("&#39;");
    if s.len() > 0 {
        lemma_escape_grows(s.skip(1));
        assert(esc_char(s[0]).len() >= 1);
        if exists|i: int| 0 <= i < s.len() && reserved(s[i]) {
            let i = choose|i: int| 0 <= i < s.len() && reserved(s[i]);
            if i == 0 {
                assert(esc_char(s[0])[0] == '&');
                assert(escape_spec(s)[0] == '&');
                assert(reserved(escape_spec(s)[0]));
                assert(esc_char(s[0]).len() >= 2);
            } else {
                assert(s.skip(1)[i - 1] == s[i]);
                assert(exists|t: int| 0 <= t < s.skip(1).len() && reserved(s.skip(1)[t]));
                let j = choose|t: int|
                    0 <= t < escape_spec(s.skip(1)).len() && reserved(escape_spec(s.skip(1))[t]);
                assert(escape_spec(s)[esc_char(s[0]).len() + j] == escape_spec(s.skip(1))[j]);
                assert(reserved(escape_spec(s)[esc_char(s[0]).len() + j]));
            }
        }
    }
}

/// Escaping text that holds a reserved character is not idempotent: the
/// entity introduced for it has its own ampersand escaped by the second
/// pass.
pub proof fn lemma_escape_not_idempotent(s: Seq<char>)
    requires
        exists|i: int| 0 <= i < s.len() && reserved(s[i]),
    ensures
        escape_spec(escape_spec(s)) != escape_spec(s),
{
    lemma_escape_grows(s);
    lemma_escape_grows(escape_spec(s));
}

pub proof fn lemma_escape_reserved_free(s: Seq<char>)
    requires
        forall|i: int| 0 <= i < s.len() ==> !reserved(s[i]),
    ensures
        escape_spec(s) == s,
        escape_spec(escape_spec(s)) == escape_spec(s),
    decreases s.len(),
{
    if s.len() == 0 {
        assert(escape_spec(s) =~= s);
    } else {
        lemma_escape_reserved_free(s.skip(1));
        assert(!reserved(s[0]));
        assert(esc_char(s[0]) =~= seq![s[0]]);
        assert(escape_spec(s) =~= s);
    }
}

} // verus!
