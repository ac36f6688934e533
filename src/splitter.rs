//! Splitting a migration script into statements: cut at every `;`, trim each
//! fragment, drop the empty ones. Quoting and comments are not understood: a
//! `;` inside a string literal ends the statement there.

use vstd::prelude::*;
use vstd::string::StrSliceExecFns;
use crate::text::{white, is_white, push_char};

verus! {

/// The statement terminator.
pub const TERMINATOR: char = ';';

/// `s` without its leading whitespace.
pub open spec fn trim_start(s: Seq<char>) -> Seq<char>
    decreases s.len(),
{
    if s.len() > 0 && white(s[0]) {
        trim_start(s.drop_first())
    } else {
        s
    }
}

/// `s` without its trailing whitespace.
pub open spec fn trim_end(s: Seq<char>) -> Seq<char>
    decreases s.len(),
{
    if s.len() > 0 && white(s.last()) {
        trim_end(s.drop_last())
    } else {
        s
    }
}

/// `s` without leading and trailing whitespace.
pub open spec fn trimmed(s: Seq<char>) -> Seq<char> {
    trim_end(trim_start(s))
}

/// The pieces of `s` between terminators, in order; `k` terminators give
/// `k + 1` pieces.
pub open spec fn fragments(s: Seq<char>) -> Seq<Seq<char>>
    decreases s.len(),
{
    if s.len() == 0 {
        seq![Seq::empty()]
    } else {
        let f = fragments(s.drop_last());
        if s.last() == TERMINATOR {
            f.push(Seq::empty())
        } else {
            f.update(f.len() - 1, f.last().push(s.last()))
        }
    }
}

/// Whether a trimmed fragment holds a statement.
pub open spec fn non_empty(t: Seq<char>) -> bool {
    t.len() > 0
}

/// The statements of a script: its fragments, trimmed, without the empty ones.
pub open spec fn statements_of(s: Seq<char>) -> Seq<Seq<char>> {
    fragments(s).map_values(|f: Seq<char>| trimmed(f)).filter(|t: Seq<char>| non_empty(t))
}

/// The views of a vector of strings.
pub open spec fn views(v: Seq<String>) -> Seq<Seq<char>> {
    v.map_values(|s: String| s@)
}

proof fn lemma_fragments_len(s: Seq<char>)
    ensures
        fragments(s).len() >= 1,
    decreases s.len(),
{
    if s.len() > 0 {
        lemma_fragments_len(s.drop_last());
    }
}

proof fn lemma_trim_start(s: Seq<char>, a: int)
    requires
        0 <= a <= s.len(),
        forall|k: int| 0 <= k < a ==> white(#[trigger] s[k]),
        a == s.len() || !white(s[a]),
    ensures
        trim_start(s) == s.subrange(a, s.len() as int),
    decreases a,
{
    if a == 0 {
        assert(s.subrange(0, s.len() as int) =~= s);
    } else {
        let t = s.drop_first();
        assert forall|k: int| 0 <= k < a - 1 implies white(#[trigger] t[k]) by {
            assert(t[k] == s[k + 1]);
        }
        lemma_trim_start(t, a - 1);
        assert(t.subrange(a - 1, t.len() as int) =~= s.subrange(a, s.len() as int));
    }
}

proof fn lemma_trim_end(s: Seq<char>, b: int)
    requires
        0 <= b <= s.len(),
        forall|k: int| b <= k < s.len() ==> white(#[trigger] s[k]),
        b == 0 || !white(s[b - 1]),
    ensures
        trim_end(s) == s.subrange(0, b),
    decreases s.len() - b,
{
    if b == s.len() {
        assert(s.subrange(0, b) =~= s);
    } else {
        let t = s.drop_last();
        assert forall|k: int| b <= k < t.len() implies white(#[trigger] t[k]) by {
            assert(t[k] == s[k]);
        }
        lemma_trim_end(t, b);
        assert(t.subrange(0, b) =~= s.subrange(0, b));
    }
}

/// `s` without leading and trailing whitespace (`str::trim`).
pub fn trim(s: &str) -> (r: String)
    ensures
        r@ == trimmed(s@),
{
    let n = s.unicode_len();
    let mut a: usize = 0;
    while a < n && is_white(s.get_char(a))
        invariant
            n == s@.len(),
            a <= n,
            forall|k: int| 0 <= k < a ==> white(#[trigger] s@[k]),
        decreases n - a,
    {
        a = a + 1;
    }
    let mut b: usize = n;
    while b > a && is_white(s.get_char(b - 1))
        invariant
            n == s@.len(),
            a <= b <= n,
            forall|k: int| b <= k < n ==> white(#[trigger] s@[k]),
        decreases b,
    {
        b = b - 1;
    }
    proof {
        lemma_trim_start(s@, a as int);
        let t = s@.subrange(a as int, n as int);
        assert forall|k: int| b - a <= k < t.len() implies white(#[trigger] t[k]) by {
            assert(t[k] == s@[k + a]);
        }
        if b > a {
            assert(t[b - a - 1] == s@[b - 1]);
        }
        lemma_trim_end(t, b - a);
        assert(t.subrange(0, b - a) =~= s@.subrange(a as int, b as int));
    }
    s.substring_char(a, b).to_owned()
}

proof fn lemma_filter_push(s: Seq<Seq<char>>, t: Seq<char>)
    ensures
        s.push(t).filter(|x: Seq<char>| non_empty(x)) == (if non_empty(t) {
            s.filter(|x: Seq<char>| non_empty(x)).push(t)
        } else {
            s.filter(|x: Seq<char>| non_empty(x))
        }),
{
    reveal(Seq::filter);
    assert(s.push(t).drop_last() =~= s);
}

/// The statements of a script, in order, each trimmed and non-empty.
pub fn split_statements(content: &str) -> (r: Vec<String>)
    ensures
        views(r@) == statements_of(content@),
{
    let n = content.unicode_len();
    let mut r: Vec<String> = Vec::new();
    let mut current = String::new();
    let mut i: usize = 0;
    proof {
        reveal(Seq::filter);
        assert(content@.subrange(0, 0) =~= Seq::<char>::empty());
        assert(views(r@) =~= Seq::empty());
    }
    while i < n
        invariant
            n == content@.len(),
            i <= n,
            fragments(content@.subrange(0, i as int)).len() >= 1,
            current@ == fragments(content@.subrange(0, i as int)).last(),
            views(r@) == fragments(content@.subrange(0, i as int)).drop_last().map_values(
                |f: Seq<char>| trimmed(f),
            ).filter(|t: Seq<char>| non_empty(t)),
        decreases n - i,
    {
        let c = content.get_char(i);
        let ghost pre = content@.subrange(0, i as int);
        let ghost post = content@.subrange(0, i + 1);
        let ghost fp = fragments(pre);
        proof {
            assert(post.drop_last() =~= pre);
            assert(post.last() == c);
            lemma_fragments_len(post);
        }
        if c == TERMINATOR {
            let t = trim(current.as_str());
            proof {
                assert(fragments(post) == fp.push(Seq::empty()));
                assert(fragments(post).drop_last() =~= fp);
                assert(fp.map_values(|f: Seq<char>| trimmed(f)) =~= fp.drop_last().map_values(
                    |f: Seq<char>| trimmed(f),
                ).push(trimmed(fp.last())));
                lemma_filter_push(fp.drop_last().map_values(|f: Seq<char>| trimmed(f)), t@);
            }
            if t.unicode_len() > 0 {
                let ghost before = r@;
                r.push(t);
                proof {
                    assert(views(r@) =~= views(before).push(t@));
                }
            }
            current = String::new();
        } else {
            push_char(&mut current, c);
            proof {
                assert(fragments(post).drop_last() =~= fp.drop_last());
            }
        }
        i = i + 1;
    }
    let t = trim(current.as_str());
    proof {
        let f = fragments(content@);
        assert(content@.subrange(0, n as int) =~= content@);
        assert(f.map_values(|x: Seq<char>| trimmed(x)) =~= f.drop_last().map_values(
            |x: Seq<char>| trimmed(x),
        ).push(trimmed(f.last())));
        lemma_filter_push(f.drop_last().map_values(|x: Seq<char>| trimmed(x)), t@);
    }
    if t.unicode_len() > 0 {
        let ghost before = r@;
        r.push(t);
        proof {
            assert(views(r@) =~= views(before).push(t@));
        }
    }
    r
}

} // verus!
