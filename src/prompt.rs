use vstd::prelude::*;
use vstd::string::{StrSliceExecFns, StringExecFns};

use crate::types::str_eq;

verus! {

/// `s` with every occurrence of `pat`, scanned from the left without
/// overlaps, replaced by `rep`.
pub open spec fn replaced(s: Seq<char>, pat: Seq<char>, rep: Seq<char>) -> Seq<char>
    decreases s.len(),
{
    if pat.len() == 0 || s.len() < pat.len() {
        s
    } else if s.take(pat.len() as int) == pat {
        rep + replaced(s.skip(pat.len() as int), pat, rep)
    } else {
        seq![s[0]] + replaced(s.skip(1), pat, rep)
    }
}

/// Replaces every occurrence of a non-empty pattern.
pub fn replace_all(s: &str, pat: &str, rep: &str) -> (r: String)
    requires
        pat@.len() > 0,
    ensures
        r@ == replaced(s@, pat@, rep@),
{
    let n = s.unicode_len();
    let m = pat.unicode_len();
    let mut out = String::new();
    let mut i: usize = 0;
    proof {
        assert(s@.skip(0) =~= s@);
    }
    while i < n
        invariant
            n == s@.len(),
            m == pat@.len(),
            m > 0,
            i <= n,
            out@ + replaced(s@.skip(i as int), pat@, rep@) == replaced(s@, pat@, rep@),
        decreases n - i,
    {
        let ghost rest = s@.skip(i as int);
        if m <= n - i && str_eq(s.substring_char(i, i + m), pat) {
            proof {
                assert(rest.take(m as int) =~= s@.subrange(i as int, i + m));
                assert(rest.skip(m as int) =~= s@.skip(i + m));
            }
            out = out.concat(rep);
            i = i + m;
        } else {
            proof {
                if m <= n - i {
                    assert(rest.take(m as int) =~= s@.subrange(i as int, i + m));
                }
                assert(rest.skip(1) =~= s@.skip(i + 1));
            }
            let c = s.substring_char(i, i + 1);
            proof {
                assert(c@ =~= seq![rest[0]]);
            }
            out = out.concat(c);
            i = i + 1;
        }
    }
    proof {
        assert(s@.skip(i as int).len() == 0);
    }
    out
}

/// The `{{name}}` token of a variable.
pub open spec fn token_of(name: Seq<char>) -> Seq<char> {
    "{{"@ + name + "}}"@
}

/// The template after substituting the first `n` variables in turn.
pub open spec fn substituted(s: Seq<char>, vars: Seq<(String, String)>, n: int) -> Seq<char>
    decreases n,
{
    if n <= 0 {
        s
    } else {
        replaced(substituted(s, vars, n - 1), token_of(vars[n - 1].0@), vars[n - 1].1@)
    }
}

/// Replaces each variable's `{{name}}` token by its value, in the order
/// given.
pub fn substitute(template: &str, vars: &Vec<(String, String)>) -> (r: String)
    ensures
        r@ == substituted(template@, vars@, vars@.len() as int),
{
    let mut content = template.to_owned();
    let mut k: usize = 0;
    while k < vars.len()
        invariant
            k <= vars@.len(),
            content@ == substituted(template@, vars@, k as int),
        decreases vars@.len() - k,
    {
        let token = String::from_str("{{").concat(vars[k].0.as_str()).concat("}}");
        proof {
            reveal_strlit("{{");
        }
        content = replace_all(content.as_str(), token.as_str(), vars[k].1.as_str());
        k = k + 1;
    }
    content
}

/// The first position at or after `i` where `p` occurs in `s`, or -1.
pub open spec fn find_at(s: Seq<char>, p: Seq<char>, i: int) -> int
    decreases s.len() + 1 - i,
{
    if i < 0 || i + p.len() > s.len() {
        -1
    } else if s.subrange(i, i + p.len()) == p {
        i
    } else {
        find_at(s, p, i + 1)
    }
}

/// The unresolved tokens of a text, scanning left to right with at most
/// `fuel` steps: after each `{{`, the text up to the next `}}` is a token
/// when it is non-empty and on one line.
pub open spec fn tokens_in(s: Seq<char>, fuel: nat) -> Seq<Seq<char>>
    decreases fuel,
{
    if fuel == 0 {
        Seq::empty()
    } else {
        let a = find_at(s, "{{"@, 0);
        if a < 0 {
            Seq::empty()
        } else {
            let rest = s.skip(a + 2);
            let b = find_at(rest, "}}"@, 0);
            if b < 0 {
                Seq::empty()
            } else {
                let t = rest.take(b);
                let more = tokens_in(rest.skip(b + 2), (fuel - 1) as nat);
                if t.len() > 0 && !t.contains('\n') {
                    seq![token_of(t)] + more
                } else {
                    more
                }
            }
        }
    }
}

/// The unresolved `{{...}}` tokens of a text, in order.
pub open spec fn unresolved(s: Seq<char>) -> Seq<Seq<char>> {
    tokens_in(s, s.len() + 1)
}

proof fn lemma_find_bounds(s: Seq<char>, p: Seq<char>, i: int)
    ensures
        find_at(s, p, i) == -1 || (i <= find_at(s, p, i) && find_at(s, p, i) + p.len() <= s.len()
            && s.subrange(find_at(s, p, i), find_at(s, p, i) + p.len()) == p),
    decreases s.len() + 1 - i,
{
    if !(i < 0 || i + p.len() > s.len()) && s.subrange(i, i + p.len()) != p {
        lemma_find_bounds(s, p, i + 1);
    }
}

fn find_exec(s: &str, p: &str, from: usize) -> (r: i64)
    requires
        s@.len() < 0x4000_0000,
        from <= s@.len(),
    ensures
        r == find_at(s@, p@, from as int),
{
    let n = s.unicode_len();
    let m = p.unicode_len();
    let mut i: usize = from;
    while i <= n && m <= n - i
        invariant
            n == s@.len(),
            m == p@.len(),
            n < 0x4000_0000,
            from <= i <= n + 1,
            find_at(s@, p@, from as int) == find_at(s@, p@, i as int),
        decreases n + 1 - i,
    {
        if str_eq(s.substring_char(i, i + m), p) {
            return i as i64;
        }
        i = i + 1;
    }
    -1
}

fn has_newline(t: &str) -> (r: bool)
    ensures
        r == t@.contains('\n'),
{
    let n = t.unicode_len();
    let mut i: usize = 0;
    while i < n
        invariant
            n == t@.len(),
            i <= n,
            forall|j: int| 0 <= j < i ==> t@[j] != '\n',
        decreases n - i,
    {
        if t.get_char(i) == '\n' {
            return true;
        }
        i = i + 1;
    }
    false
}

/// The tokens that substitution left in a text.
pub fn find_unresolved_tokens(content: &str) -> (r: Vec<String>)
    requires
        content@.len() < 0x4000_0000,
    ensures
        r@.map_values(|t: String| t@) == unresolved(content@),
{
    let n = content.unicode_len();
    let mut out: Vec<String> = Vec::new();
    let mut pos: usize = 0;
    let ghost mut steps: nat = 0;
    proof {
        reveal_strlit("{{");
        reveal_strlit("}}");
        assert(content@.skip(0) =~= content@);
    }
    while pos <= n
        invariant
            n == content@.len(),
            n < 0x4000_0000,
            pos <= n + 1,
            steps <= pos,
            pos <= n ==> out@.map_values(|t: String| t@) + tokens_in(content@.skip(pos as int), (n + 1 - steps) as nat)
                == unresolved(content@),
            pos > n ==> out@.map_values(|t: String| t@) == unresolved(content@),
        decreases n + 1 - pos,
    {
        let ghost s = content@.skip(pos as int);
        let a = find_exec(content, "{{", pos);
        proof {
            reveal_strlit("{{");
            reveal_strlit("}}");
            lemma_find_bounds(content@, "{{"@, pos as int);
            lemma_find_shift(content@, "{{"@, pos as int);
        }
        if a < 0 {
            proof {
                assert(tokens_in(s, (n + 1 - steps) as nat) == Seq::<Seq<char>>::empty());
                assert(out@.map_values(|t: String| t@) + Seq::<Seq<char>>::empty() =~= out@.map_values(|t: String| t@));
            }
            pos = n + 1;
        } else {
            let start = (a as usize) + 2;
            let b = find_exec(content, "}}", start);
            proof {
                lemma_find_bounds(content@, "}}"@, start as int);
                lemma_find_shift(content@, "}}"@, start as int);
                assert(s.skip(a - pos + 2) =~= content@.skip(start as int));
            }
            if b < 0 {
                proof {
                    assert(tokens_in(s, (n + 1 - steps) as nat) == Seq::<Seq<char>>::empty());
                    assert(out@.map_values(|t: String| t@) + Seq::<Seq<char>>::empty() =~= out@.map_values(|t: String| t@));
                }
                pos = n + 1;
            } else {
                let bu = b as usize;
                let t = content.substring_char(start, bu);
                let ghost rest = content@.skip(start as int);
                proof {
                    assert(t@ =~= rest.take(b - start));
                    assert(rest.skip(b - start + 2) =~= content@.skip(bu + 2));
                }
                let ghost before = out@.map_values(|t: String| t@);
                if t.unicode_len() > 0 && !has_newline(t) {
                    let tok = String::from_str("{{").concat(t).concat("}}");
                    out.push(tok);
                    proof {
                        assert(out@.map_values(|t: String| t@) =~= before.push(token_of(t@)));
                        assert(before.push(token_of(t@)) + tokens_in(content@.skip(bu + 2), (n - steps) as nat)
                            =~= before + (seq![token_of(t@)] + tokens_in(content@.skip(bu + 2), (n - steps) as nat)));
                    }
                }
                proof {
                    steps = steps + 1;
                    if bu + 2 > n {
                        assert(content@.skip(bu + 2).len() == 0);
                    }
                }
                pos = bu + 2;
                proof {
                    if pos > n {
                        assert(tokens_in(content@.skip(pos as int), (n + 1 - steps) as nat) =~= Seq::<Seq<char>>::empty()) by {
                            assert(find_at(content@.skip(pos as int), "{{"@, 0) == -1);
                        }
                        assert(out@.map_values(|t: String| t@) + Seq::<Seq<char>>::empty() =~= out@.map_values(|t: String| t@));
                    }
                }
            }
        }
    }
    out
}

proof fn lemma_find_shift(s: Seq<char>, p: Seq<char>, i: int)
    requires
        0 <= i <= s.len(),
    ensures
        find_at(s.skip(i), p, 0) == (if find_at(s, p, i) < 0 { -1 } else { find_at(s, p, i) - i }),
{
    lemma_find_shift_from(s, p, i, i);
}

proof fn lemma_find_shift_from(s: Seq<char>, p: Seq<char>, i: int, j: int)
    requires
        0 <= i <= j,
        i <= s.len(),
    ensures
        find_at(s.skip(i), p, j - i) == (if find_at(s, p, j) < 0 { -1 } else { find_at(s, p, j) - i }),
    decreases s.len() + 1 - j,
{
    let t = s.skip(i);
    if j + p.len() > s.len() {
    } else {
        assert(t.subrange(j - i, j - i + p.len()) =~= s.subrange(j, j + p.len()));
        if s.subrange(j, j + p.len()) != p {
            lemma_find_shift_from(s, p, i, j + 1);
        }
    }
}

} // verus!
