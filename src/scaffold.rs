use vstd::prelude::*;
use vstd::string::{StrSliceExecFns, StringExecFns};

use crate::types::str_eq;

verus! {

/// White space as `char::is_whitespace` defines it (the Unicode
/// `White_Space` property).
pub open spec fn is_ws(c: char) -> bool {
    let u = c as u32;
    (9 <= u <= 13) || u == 32 || u == 0x85 || u == 0xA0 || u == 0x1680 || (0x2000 <= u <= 0x200A)
        || u == 0x2028 || u == 0x2029 || u == 0x202F || u == 0x205F || u == 0x3000
}

pub open spec fn trim_start(s: Seq<char>) -> Seq<char>
    decreases s.len(),
{
    if s.len() > 0 && is_ws(s[0]) {
        trim_start(s.drop_first())
    } else {
        s
    }
}

pub open spec fn trim_end(s: Seq<char>) -> Seq<char>
    decreases s.len(),
{
    if s.len() > 0 && is_ws(s.last()) {
        trim_end(s.drop_last())
    } else {
        s
    }
}

/// A text without white space at either end.
pub open spec fn trimmed(s: Seq<char>) -> Seq<char> {
    trim_end(trim_start(s))
}

/// `s[i..j]` is a whole line: it starts the text or follows a newline, and
/// runs to the next newline or the end.
pub open spec fn line_at(s: Seq<char>, i: int, j: int) -> bool {
    &&& 0 <= i <= j <= s.len()
    &&& (i == 0 || s[i - 1] == '\n')
    &&& (j == s.len() || s[j] == '\n')
    &&& forall|k: int| i <= k < j ==> s[k] != '\n'
}

/// Some line of `s`, trimmed, is `e`.
pub open spec fn has_line(s: Seq<char>, e: Seq<char>) -> bool {
    exists|i: int, j: int| line_at(s, i, j) && #[trigger] trimmed(s.subrange(i, j)) == e
}

fn is_ws_exec(c: char) -> (r: bool)
    ensures
        r == is_ws(c),
{
    let u = c as u32;
    (9 <= u && u <= 13) || u == 32 || u == 0x85 || u == 0xA0 || u == 0x1680 || (0x2000 <= u && u
        <= 0x200A) || u == 0x2028 || u == 0x2029 || u == 0x202F || u == 0x205F || u == 0x3000
}

proof fn lemma_trim_start_from(s: Seq<char>, i: int)
    requires
        0 <= i <= s.len(),
        forall|k: int| 0 <= k < i ==> is_ws(s[k]),
    ensures
        trim_start(s) == trim_start(s.skip(i)),
    decreases i,
{
    if i > 0 {
        assert(s.drop_first().skip(i - 1) =~= s.skip(i));
        lemma_trim_start_from(s.drop_first(), i - 1);
    } else {
        assert(s.skip(0) =~= s);
    }
}

proof fn lemma_trim_end_to(s: Seq<char>, j: int)
    requires
        0 <= j <= s.len(),
        forall|k: int| j <= k < s.len() ==> is_ws(s[k]),
    ensures
        trim_end(s) == trim_end(s.take(j)),
    decreases s.len() - j,
{
    if j < s.len() {
        assert(s.drop_last().take(j) =~= s.take(j));
        lemma_trim_end_to(s.drop_last(), j);
    } else {
        assert(s.take(j) =~= s);
    }
}

/// The text of `s[i..j]` without white space at either end.
fn trim_range(s: &str, i: usize, j: usize) -> (r: String)
    requires
        i <= j <= s@.len(),
    ensures
        r@ == trimmed(s@.subrange(i as int, j as int)),
{
    let ghost seg = s@.subrange(i as int, j as int);
    let mut a: usize = i;
    while a < j && is_ws_exec(s.get_char(a))
        invariant
            i <= a <= j,
            j <= s@.len(),
            forall|k: int| i <= k < a ==> is_ws(s@[k]),
        decreases j - a,
    {
        a = a + 1;
    }
    let mut b: usize = j;
    while b > a && is_ws_exec(s.get_char(b - 1))
        invariant
            a <= b <= j,
            j <= s@.len(),
            forall|k: int| b <= k < j ==> is_ws(s@[k]),
        decreases b,
    {
        b = b - 1;
    }
    proof {
        lemma_trim_start_from(seg, a - i);
        let rest = seg.skip(a - i);
        assert(rest =~= s@.subrange(a as int, j as int));
        if a < j {
            assert(!is_ws(rest[0]));
        }
        assert(trim_start(rest) == rest);
        lemma_trim_end_to(rest, b - a);
        assert(rest.take(b - a) =~= s@.subrange(a as int, b as int));
        if a < b {
            assert(!is_ws(s@[b - 1]));
        }
    }
    s.substring_char(a, b).to_owned()
}

/// Whether some line of the text, trimmed, is `e`.
pub fn has_line_exec(s: &str, e: &str) -> (r: bool)
    ensures
        r == has_line(s@, e@),
{
    let n = s.unicode_len();
    let mut i: usize = 0;
    loop
        invariant
            n == s@.len(),
            i <= n,
            i == 0 || s@[i - 1] == '\n',
            forall|a: int, b: int| 0 <= a < i && line_at(s@, a, b) ==> trimmed(s@.subrange(a, b)) != e@,
        decreases n - i,
    {
        let mut j: usize = i;
        while j < n && s.get_char(j) != '\n'
            invariant
                i <= j <= n,
                n == s@.len(),
                forall|k: int| i <= k < j ==> s@[k] != '\n',
            decreases n - j,
        {
            j = j + 1;
        }
        let t = trim_range(s, i, j);
        if str_eq(t.as_str(), e) {
            proof {
                assert(line_at(s@, i as int, j as int));
            }
            return true;
        }
        proof {
            assert forall|a: int, b: int| 0 <= a < j + 1 && line_at(s@, a, b) implies trimmed(s@.subrange(a, b)) != e@ by {
                if a >= i {
                    if a > i {
                        assert(s@[a - 1] != '\n');
                    }
                    assert(a == i);
                    if b < j {
                        assert(s@[b] != '\n');
                    }
                    if b > j {
                        assert(s@[j as int] == '\n');
                    }
                    assert(b == j);
                }
            }
        }
        if j == n {
            proof {
                assert forall|a: int, b: int| line_at(s@, a, b) implies #[trigger] trimmed(s@.subrange(a, b)) != e@ by {
                    assert(a < j + 1);
                }
            }
            return false;
        }
        i = j + 1;
    }
}

/// The lines that the project's ignore file must hold.
pub open spec fn ignore_entries() -> Seq<Seq<char>> {
    seq![
        ".pensa/db.sqlite"@,
        ".sgf/logs/"@,
        ".sgf/run/"@,
        ".sgf/prompts/.assembled/"@,
        ".ralph-complete"@,
        ".ralph-ding"@,
        "/target"@,
        "node_modules/"@,
        ".svelte-kit/"@,
        ".env"@,
        ".env.local"@,
        ".env.*.local"@,
        ".DS_Store"@,
    ]
}

fn ignore_entry_list() -> (r: Vec<&'static str>)
    ensures
        r@.map_values(|s: &str| s@) == ignore_entries(),
{
    let r = vec![
        ".pensa/db.sqlite",
        ".sgf/logs/",
        ".sgf/run/",
        ".sgf/prompts/.assembled/",
        ".ralph-complete",
        ".ralph-ding",
        "/target",
        "node_modules/",
        ".svelte-kit/",
        ".env",
        ".env.local",
        ".env.*.local",
        ".DS_Store",
    ];
    assert(r@.map_values(|s: &str| s@) =~= ignore_entries());
    r
}

/// The entries that no line of `s` holds, in order.
pub open spec fn missing_entries(s: Seq<char>, es: Seq<Seq<char>>) -> Seq<Seq<char>>
    decreases es.len(),
{
    if es.len() == 0 {
        Seq::empty()
    } else {
        let rest = missing_entries(s, es.drop_last());
        if has_line(s, es.last()) {
            rest
        } else {
            rest.push(es.last())
        }
    }
}

/// Each entry followed by a newline.
pub open spec fn entry_lines(es: Seq<Seq<char>>) -> Seq<char>
    decreases es.len(),
{
    if es.len() == 0 {
        Seq::empty()
    } else {
        entry_lines(es.drop_last()) + es.last() + "\n"@
    }
}

/// The ignore file after the merge, or `None` where it already holds every
/// entry: the old text, ended by a newline, a blank line, a heading, then
/// each missing entry on a line of its own.
pub open spec fn merged_ignore(s: Seq<char>) -> Option<Seq<char>> {
    let m = missing_entries(s, ignore_entries());
    if m.len() == 0 {
        None
    } else {
        let base = if s.len() > 0 && s.last() == '\n' { s } else { s + "\n"@ };
        Some(base + "\n# Springfield\n"@ + entry_lines(m))
    }
}

/// Adds the missing ignore entries under a heading; `None` where nothing is
/// missing.
pub fn merge_ignore_text(existing: &str) -> (r: Option<String>)
    ensures
        match r {
            Some(t) => merged_ignore(existing@) == Some(t@),
            None => merged_ignore(existing@) is None,
        },
{
    let es = ignore_entry_list();
    let ghost ev = es@.map_values(|s: &str| s@);
    let mut missing: Vec<&str> = Vec::new();
    let mut k: usize = 0;
    while k < es.len()
        invariant
            k <= es@.len(),
            ev == es@.map_values(|s: &str| s@),
            missing@.map_values(|s: &str| s@) == missing_entries(existing@, ev.take(k as int)),
        decreases es@.len() - k,
    {
        proof {
            assert(ev.take(k + 1).drop_last() =~= ev.take(k as int));
        }
        if !has_line_exec(existing, es[k]) {
            missing.push(es[k]);
        }
        proof {
            assert(missing@.map_values(|s: &str| s@) =~= missing_entries(existing@, ev.take(k + 1)));
        }
        k = k + 1;
    }
    proof {
        assert(ev.take(ev.len() as int) =~= ev);
    }
    if missing.len() == 0 {
        return None;
    }
    let n = existing.unicode_len();
    let mut out = existing.to_owned();
    if !(n > 0 && existing.get_char(n - 1) == '\n') {
        out = out.concat("\n");
    }
    out = out.concat("\n# Springfield\n");
    let ghost head = out@;
    let ghost mv = missing@.map_values(|s: &str| s@);
    let mut a: usize = 0;
    while a < missing.len()
        invariant
            a <= missing@.len(),
            mv == missing@.map_values(|s: &str| s@),
            out@ == head + entry_lines(mv.take(a as int)),
        decreases missing@.len() - a,
    {
        proof {
            assert(mv.take(a + 1).drop_last() =~= mv.take(a as int));
        }
        out = out.concat(missing[a]).concat("\n");
        a = a + 1;
    }
    proof {
        assert(mv.take(mv.len() as int) =~= mv);
    }
    Some(out)
}

/// An entry sits on a line of its own: it is not empty, holds no newline
/// and has no white space at either end.
pub open spec fn line_safe(e: Seq<char>) -> bool {
    &&& e.len() > 0
    &&& forall|k: int| 0 <= k < e.len() ==> e[k] != '\n'
    &&& !is_ws(e[0])
    &&& !is_ws(e.last())
}

proof fn lemma_safe_trimmed(e: Seq<char>)
    requires
        line_safe(e),
    ensures
        trimmed(e) == e,
{
}

proof fn lemma_entries_safe()
    ensures
        forall|k: int| 0 <= k < ignore_entries().len() ==> line_safe(#[trigger] ignore_entries()[k]),
{
    reveal_strlit(".pensa/db.sqlite");
    reveal_strlit(".sgf/logs/");
    reveal_strlit(".sgf/run/");
    reveal_strlit(".sgf/prompts/.assembled/");
    reveal_strlit(".ralph-complete");
    reveal_strlit(".ralph-ding");
    reveal_strlit("/target");
    reveal_strlit("node_modules/");
    reveal_strlit(".svelte-kit/");
    reveal_strlit(".env");
    reveal_strlit(".env.local");
    reveal_strlit(".env.*.local");
    reveal_strlit(".DS_Store");
    assert forall|k: int| 0 <= k < ignore_entries().len() implies line_safe(#[trigger] ignore_entries()[k]) by {
        let e = ignore_entries()[k];
        assert forall|q: int| 0 <= q < e.len() implies e[q] != '\n' by {
            if k == 0 { assert(e == ".pensa/db.sqlite"@); }
            else if k == 1 { assert(e == ".sgf/logs/"@); }
            else if k == 2 { assert(e == ".sgf/run/"@); }
            else if k == 3 { assert(e == ".sgf/prompts/.assembled/"@); }
            else if k == 4 { assert(e == ".ralph-complete"@); }
            else if k == 5 { assert(e == ".ralph-ding"@); }
            else if k == 6 { assert(e == "/target"@); }
            else if k == 7 { assert(e == "node_modules/"@); }
            else if k == 8 { assert(e == ".svelte-kit/"@); }
            else if k == 9 { assert(e == ".env"@); }
            else if k == 10 { assert(e == ".env.local"@); }
            else if k == 11 { assert(e == ".env.*.local"@); }
            else { assert(e == ".DS_Store"@); }
        }
    }
}

proof fn lemma_entry_lines_layout(m: Seq<Seq<char>>, k: int)
    requires
        0 <= k < m.len(),
    ensures
        ({
            let off = entry_lines(m.take(k)).len() as int;
            let t = entry_lines(m);
            &&& off + m[k].len() < t.len()
            &&& t.subrange(off, off + m[k].len()) == m[k]
            &&& t[off + m[k].len()] == '\n'
            &&& (off == 0 || t[off - 1] == '\n')
        }),
    decreases m.len(),
{
    let off = entry_lines(m.take(k)).len() as int;
    let t = entry_lines(m);
    reveal_strlit("\n");
    if k == m.len() - 1 {
        assert(m.take(k) =~= m.drop_last());
        assert(t.subrange(off, off + m[k].len()) =~= m[k]);
        if off > 0 {
            lemma_entry_lines_ends(m.drop_last());
        }
    } else {
        lemma_entry_lines_layout(m.drop_last(), k);
        assert(m.drop_last().take(k) =~= m.take(k));
        let t0 = entry_lines(m.drop_last());
        assert(t == t0 + m.last() + "\n"@);
        assert(t.subrange(off, off + m[k].len()) =~= t0.subrange(off, off + m[k].len()));
    }
}

proof fn lemma_entry_lines_ends(m: Seq<Seq<char>>)
    requires
        m.len() > 0,
    ensures
        entry_lines(m).len() > 0,
        entry_lines(m).last() == '\n',
{
    reveal_strlit("\n");
}

proof fn lemma_missing_contains(s: Seq<char>, es: Seq<Seq<char>>, e: Seq<char>)
    requires
        es.contains(e),
        !has_line(s, e),
    ensures
        missing_entries(s, es).contains(e),
    decreases es.len(),
{
    if es.last() == e {
        assert(missing_entries(s, es).last() == e);
    } else {
        let k = choose|k: int| 0 <= k < es.len() && es[k] == e;
        assert(es.drop_last()[k] == e);
        lemma_missing_contains(s, es.drop_last(), e);
        let rest = missing_entries(s, es.drop_last());
        let q = choose|q: int| 0 <= q < rest.len() && rest[q] == e;
        if !has_line(s, es.last()) {
            assert(rest.push(es.last())[q] == e);
        }
    }
}

proof fn lemma_none_missing(s: Seq<char>, es: Seq<Seq<char>>)
    requires
        forall|k: int| 0 <= k < es.len() ==> has_line(s, #[trigger] es[k]),
    ensures
        missing_entries(s, es).len() == 0,
    decreases es.len(),
{
    if es.len() > 0 {
        assert(has_line(s, es[es.len() - 1]));
        lemma_none_missing(s, es.drop_last());
    }
}

/// Merging the ignore file is idempotent: once merged, a second merge finds
/// nothing to add and leaves the file as it is.
pub proof fn lemma_ignore_merge_idempotent(x: Seq<char>)
    ensures
        merged_ignore(x) matches Some(y) ==> merged_ignore(y) is None,
{
    if let Some(y) = merged_ignore(x) {
        let es = ignore_entries();
        let m = missing_entries(x, es);
        let base = if x.len() > 0 && x.last() == '\n' { x } else { x + "\n"@ };
        let head = "\n# Springfield\n"@;
        reveal_strlit("\n# Springfield\n");
        reveal_strlit("\n");
        let pfx = base + head;
        assert(y == pfx + entry_lines(m));
        lemma_entries_safe();
        assert forall|k: int| 0 <= k < es.len() implies has_line(y, #[trigger] es[k]) by {
            let e = es[k];
            lemma_safe_trimmed(e);
            if has_line(x, e) {
                let (i, j) = choose|i: int, j: int| line_at(x, i, j) && #[trigger] trimmed(x.subrange(i, j)) == e;
                assert(y.subrange(i, j) =~= x.subrange(i, j));
                if j < x.len() {
                    assert(y[j] == x[j]);
                } else {
                    if x.len() > 0 && x.last() == '\n' {
                        assert(y[j] == head[0]);
                    } else {
                        assert(y[j] == base[j]);
                    }
                }
                if i > 0 {
                    assert(y[i - 1] == x[i - 1]);
                }
                assert forall|q: int| i <= q < j implies y[q] != '\n' by {
                    assert(y[q] == x[q]);
                }
                assert(line_at(y, i, j));
            } else {
                assert(es.contains(e));
                lemma_missing_contains(x, es, e);
                let q = choose|q: int| 0 <= q < m.len() && m[q] == e;
                lemma_entry_lines_layout(m, q);
                let t = entry_lines(m);
                let off = entry_lines(m.take(q)).len() as int;
                let i = pfx.len() + off;
                let j = i + e.len();
                assert(y.subrange(i, j) =~= t.subrange(off, off + e.len()));
                assert(y[j] == t[off + e.len()]);
                if off == 0 {
                    assert(y[i - 1] == head[head.len() - 1]);
                } else {
                    assert(y[i - 1] == t[off - 1]);
                }
                assert forall|r: int| i <= r < j implies y[r] != '\n' by {
                    assert(y[r] == e[r - i]);
                }
                assert(line_at(y, i, j));
            }
        }
        lemma_none_missing(y, es);
    }
}

/// The permission rules that keep the agent away from the orchestrator's
/// own files.
pub open spec fn deny_rules() -> Seq<Seq<char>> {
    seq!["Edit .sgf/**"@, "Write .sgf/**"@, "Bash rm .sgf/**"@, "Bash mv .sgf/**"@]
}

/// `list` with each of `add` appended that it does not already hold, in
/// order.
pub open spec fn with_missing(list: Seq<Seq<char>>, add: Seq<Seq<char>>) -> Seq<Seq<char>>
    decreases add.len(),
{
    if add.len() == 0 {
        list
    } else {
        let l = with_missing(list, add.drop_last());
        if l.contains(add.last()) {
            l
        } else {
            l.push(add.last())
        }
    }
}

pub open spec fn str_views(v: Seq<String>) -> Seq<Seq<char>> {
    v.map_values(|s: String| s@)
}

fn contains_string(v: &Vec<String>, s: &str) -> (r: bool)
    ensures
        r == str_views(v@).contains(s@),
{
    let mut i: usize = 0;
    while i < v.len()
        invariant
            i <= v@.len(),
            forall|j: int| 0 <= j < i ==> v@[j]@ != s@,
        decreases v@.len() - i,
    {
        if str_eq(v[i].as_str(), s) {
            proof {
                assert(str_views(v@)[i as int] == s@);
            }
            return true;
        }
        i = i + 1;
    }
    proof {
        if str_views(v@).contains(s@) {
            let j = choose|j: int| 0 <= j < str_views(v@).len() && str_views(v@)[j] == s@;
            assert(v@[j]@ == s@);
        }
    }
    false
}

/// The settings' deny list with the orchestrator's rules added where
/// missing.
pub fn merge_deny_rules(existing: &Vec<String>) -> (r: Vec<String>)
    ensures
        str_views(r@) == with_missing(str_views(existing@), deny_rules()),
{
    let rules = vec!["Edit .sgf/**", "Write .sgf/**", "Bash rm .sgf/**", "Bash mv .sgf/**"];
    let ghost rv = rules@.map_values(|s: &str| s@);
    assert(rv =~= deny_rules());
    let mut out: Vec<String> = Vec::new();
    let mut i: usize = 0;
    while i < existing.len()
        invariant
            i <= existing@.len(),
            out@.len() == i,
            str_views(out@) == str_views(existing@).take(i as int),
        decreases existing@.len() - i,
    {
        let ghost before = out@;
        let c = existing[i].clone();
        assert(c@ == existing@[i as int]@);
        out.push(c);
        proof {
            assert(out@ == before.push(c));
            assert forall|q: int| 0 <= q < i + 1 implies #[trigger] str_views(out@)[q] == str_views(existing@).take(i + 1)[q] by {
                if q < i {
                    assert(out@[q] == before[q]);
                    assert(str_views(before)[q] == str_views(existing@).take(i as int)[q]);
                }
            }
            assert(str_views(out@) =~= str_views(existing@).take(i + 1));
        }
        i = i + 1;
    }
    proof {
        assert(str_views(existing@).take(existing@.len() as int) =~= str_views(existing@));
    }
    let mut k: usize = 0;
    while k < rules.len()
        invariant
            k <= rules@.len(),
            rv == rules@.map_values(|s: &str| s@),
            str_views(out@) == with_missing(str_views(existing@), rv.take(k as int)),
        decreases rules@.len() - k,
    {
        proof {
            assert(rv.take(k + 1).drop_last() =~= rv.take(k as int));
        }
        if !contains_string(&out, rules[k]) {
            out.push(rules[k].to_owned());
        }
        proof {
            assert(str_views(out@) =~= with_missing(str_views(existing@), rv.take(k + 1)));
        }
        k = k + 1;
    }
    proof {
        assert(rv.take(rv.len() as int) =~= rv);
    }
    out
}

proof fn lemma_with_missing_holds(list: Seq<Seq<char>>, add: Seq<Seq<char>>)
    ensures
        forall|k: int| 0 <= k < add.len() ==> with_missing(list, add).contains(#[trigger] add[k]),
        forall|x: Seq<char>| list.contains(x) ==> with_missing(list, add).contains(x),
    decreases add.len(),
{
    if add.len() > 0 {
        lemma_with_missing_holds(list, add.drop_last());
        let l = with_missing(list, add.drop_last());
        assert forall|k: int| 0 <= k < add.len() implies with_missing(list, add).contains(#[trigger] add[k]) by {
            if k < add.len() - 1 {
                assert(add.drop_last()[k] == add[k]);
                assert(l.contains(add[k]));
                if !l.contains(add.last()) {
                    let q = choose|q: int| 0 <= q < l.len() && l[q] == add[k];
                    assert(l.push(add.last())[q] == add[k]);
                }
            } else if !l.contains(add.last()) {
                assert(l.push(add.last())[l.len() as int] == add[k]);
            }
        }
        assert forall|x: Seq<char>| list.contains(x) implies with_missing(list, add).contains(x) by {
            assert(l.contains(x));
            if !l.contains(add.last()) {
                let q = choose|q: int| 0 <= q < l.len() && l[q] == x;
                assert(l.push(add.last())[q] == x);
            }
        }
    }
}

proof fn lemma_with_present(list: Seq<Seq<char>>, add: Seq<Seq<char>>)
    requires
        forall|k: int| 0 <= k < add.len() ==> list.contains(#[trigger] add[k]),
    ensures
        with_missing(list, add) == list,
    decreases add.len(),
{
    if add.len() > 0 {
        assert(list.contains(add[add.len() - 1]));
        lemma_with_present(list, add.drop_last());
    }
}

/// Merging the deny rules twice gives the same list as merging once.
pub proof fn lemma_deny_merge_idempotent(list: Seq<Seq<char>>)
    ensures
        with_missing(with_missing(list, deny_rules()), deny_rules()) == with_missing(list, deny_rules()),
{
    lemma_with_missing_holds(list, deny_rules());
    lemma_with_present(with_missing(list, deny_rules()), deny_rules());
}

/// What the hook merge reads of a repository entry's `hooks`.
#[derive(Debug)]
pub enum HooksView {
    Absent,
    NotSequence,
    /// Each hook's `id`, where it is a string.
    Items(Vec<Option<String>>),
}

/// What the hook merge reads of one entry of `repos`.
#[derive(Debug)]
pub struct RepoView {
    pub is_mapping: bool,
    /// The entry's `repo`, where it is a string.
    pub repo: Option<String>,
    pub hooks: HooksView,
}

/// What the hook merge reads of the document's `repos`.
#[derive(Debug)]
pub enum ReposView {
    Absent,
    NotSequence,
    Items(Vec<RepoView>),
}

/// The hooks to add, and where: into the repository entry at `target`, or
/// into a new `local` entry where there is none.
#[derive(Debug, PartialEq, Eq, Structural)]
pub struct HookPlan {
    pub add_export: bool,
    pub add_import: bool,
    pub target: Option<usize>,
}

/// The shapes of the configuration that the merge cannot work with.
#[derive(Debug, Clone, Copy, PartialEq, Eq, Structural)]
pub enum HookShapeError {
    RootNotMapping,
    ReposNotSequence,
    RepoNotMapping,
    HooksNotSequence,
}

pub open spec fn ids_have(hs: Seq<Option<String>>, id: Seq<char>) -> bool {
    exists|k: int| 0 <= k < hs.len() && (#[trigger] hs[k]) is Some && hs[k]->Some_0@ == id
}

pub open spec fn repo_has(r: RepoView, id: Seq<char>) -> bool {
    match r.hooks {
        HooksView::Items(hs) => ids_have(hs@, id),
        _ => false,
    }
}

/// Some repository entry has a hook with this id.
pub open spec fn hook_present(rs: Seq<RepoView>, id: Seq<char>) -> bool {
    exists|i: int| 0 <= i < rs.len() && repo_has(#[trigger] rs[i], id)
}

pub open spec fn is_local(r: RepoView) -> bool {
    r.repo is Some && r.repo->Some_0@ == "local"@
}

/// `t` is the first entry whose `repo` is `local`.
pub open spec fn first_local_at(rs: Seq<RepoView>, t: int) -> bool {
    0 <= t < rs.len() && is_local(rs[t]) && forall|j: int| 0 <= j < t ==> !is_local(#[trigger] rs[j])
}

pub open spec fn repo_items(repos: ReposView) -> Seq<RepoView> {
    match repos {
        ReposView::Items(v) => v@,
        _ => Seq::empty(),
    }
}

/// The hook merge's decision: nothing where both tracker hooks are
/// present anywhere; otherwise the missing ones go into the first `local`
/// entry (or a new one), unless the document has a shape the merge cannot
/// edit.
pub open spec fn hook_plan(root_is_mapping: bool, repos: ReposView) -> Result<Option<HookPlan>, HookShapeError> {
    let rs = repo_items(repos);
    let ex = hook_present(rs, "pensa-export"@);
    let im = hook_present(rs, "pensa-import"@);
    if ex && im {
        Ok(None)
    } else if !root_is_mapping {
        Err(HookShapeError::RootNotMapping)
    } else if repos is NotSequence {
        Err(HookShapeError::ReposNotSequence)
    } else if exists|t: int| first_local_at(rs, t) {
        let t = choose|t: int| first_local_at(rs, t);
        if !rs[t].is_mapping {
            Err(HookShapeError::RepoNotMapping)
        } else if rs[t].hooks is NotSequence {
            Err(HookShapeError::HooksNotSequence)
        } else {
            Ok(Some(HookPlan { add_export: !ex, add_import: !im, target: Some(t as usize) }))
        }
    } else {
        Ok(Some(HookPlan { add_export: !ex, add_import: !im, target: None }))
    }
}

fn hook_in(rs: &Vec<RepoView>, id: &str) -> (r: bool)
    ensures
        r == hook_present(rs@, id@),
{
    let mut i: usize = 0;
    while i < rs.len()
        invariant
            i <= rs@.len(),
            forall|q: int| 0 <= q < i ==> !repo_has(#[trigger] rs@[q], id@),
        decreases rs@.len() - i,
    {
        if let HooksView::Items(hs) = &rs[i].hooks {
            let mut k: usize = 0;
            while k < hs.len()
                invariant
                    i < rs@.len(),
                    k <= hs@.len(),
                    rs@[i as int].hooks == HooksView::Items(*hs),
                    forall|q: int| 0 <= q < k ==> !((#[trigger] hs@[q]) is Some && hs@[q]->Some_0@ == id@),
                decreases hs@.len() - k,
            {
                if let Some(h) = &hs[k] {
                    if str_eq(h.as_str(), id) {
                        proof {
                            assert(ids_have(hs@, id@));
                            assert(repo_has(rs@[i as int], id@));
                        }
                        return true;
                    }
                }
                k = k + 1;
            }
        }
        i = i + 1;
    }
    false
}

fn local_of(rs: &Vec<RepoView>) -> (r: Option<usize>)
    ensures
        match r {
            Some(t) => first_local_at(rs@, t as int),
            None => !exists|t: int| first_local_at(rs@, t),
        },
{
    let mut i: usize = 0;
    while i < rs.len()
        invariant
            i <= rs@.len(),
            forall|q: int| 0 <= q < i ==> !is_local(#[trigger] rs@[q]),
        decreases rs@.len() - i,
    {
        if let Some(name) = &rs[i].repo {
            if str_eq(name.as_str(), "local") {
                return Some(i);
            }
        }
        i = i + 1;
    }
    proof {
        assert forall|t: int| !first_local_at(rs@, t) by {
            if 0 <= t < rs@.len() {
                assert(!is_local(rs@[t]));
            }
        }
    }
    None
}

/// Decides the pre-commit hook merge: which of the export and import hooks
/// to add and into which repository entry.
pub fn plan_hooks(root_is_mapping: bool, repos: &ReposView) -> (r: Result<Option<HookPlan>, HookShapeError>)
    ensures
        r == hook_plan(root_is_mapping, *repos),
{
    let empty: Vec<RepoView> = Vec::new();
    let rs = match repos {
        ReposView::Items(v) => v,
        _ => &empty,
    };
    proof {
        assert(rs@ == repo_items(*repos));
    }
    let ex = hook_in(rs, "pensa-export");
    let im = hook_in(rs, "pensa-import");
    if ex && im {
        return Ok(None);
    }
    if !root_is_mapping {
        return Err(HookShapeError::RootNotMapping);
    }
    if let ReposView::NotSequence = repos {
        return Err(HookShapeError::ReposNotSequence);
    }
    match local_of(rs) {
        Some(t) => {
            proof {
                let c = choose|c: int| first_local_at(rs@, c);
                if c < t {
                    assert(!is_local(rs@[c]));
                } else if t < c {
                    assert(!is_local(rs@[t as int]));
                }
                assert(c == t);
            }
            if !rs[t].is_mapping {
                Err(HookShapeError::RepoNotMapping)
            } else if let HooksView::NotSequence = rs[t].hooks {
                Err(HookShapeError::HooksNotSequence)
            } else {
                Ok(Some(HookPlan { add_export: !ex, add_import: !im, target: Some(t) }))
            }
        },
        None => Ok(Some(HookPlan { add_export: !ex, add_import: !im, target: None })),
    }
}

/// Once both tracker hooks are present, the hook merge plans nothing,
/// whatever else the configuration holds: a second merge leaves the file
/// as the first one left it.
pub proof fn lemma_hook_merge_settles(root_is_mapping: bool, repos: ReposView)
    requires
        hook_present(repo_items(repos), "pensa-export"@),
        hook_present(repo_items(repos), "pensa-import"@),
    ensures
        hook_plan(root_is_mapping, repos) == Ok::<Option<HookPlan>, HookShapeError>(None),
{
}

/// Carries out a hook plan on the repository entries: the missing hooks go
/// into the chosen entry, or into a new `local` one. Afterwards both hooks
/// are present, so planning again adds nothing.
pub fn apply_hooks(repos: &mut Vec<RepoView>, plan: &HookPlan)
    requires
        hook_plan(true, ReposView::Items(*old(repos))) == Ok::<Option<HookPlan>, HookShapeError>(Some(*plan)),
    ensures
        hook_present(final(repos)@, "pensa-export"@),
        hook_present(final(repos)@, "pensa-import"@),
        forall|id: Seq<char>| hook_present(old(repos)@, id) ==> hook_present(final(repos)@, id),
        hook_plan(true, ReposView::Items(*final(repos))) == Ok::<Option<HookPlan>, HookShapeError>(None),
{
    let ghost before = repos@;
    let mut added: Vec<Option<String>> = Vec::new();
    if plan.add_export {
        added.push(Some(String::from_str("pensa-export")));
    }
    if plan.add_import {
        added.push(Some(String::from_str("pensa-import")));
    }
    proof {
        let k = if plan.add_export { 1int } else { 0 };
        assert(plan.add_export ==> added@[0] is Some && added@[0]->Some_0@ == "pensa-export"@);
        assert(plan.add_import ==> added@[k] is Some && added@[k]->Some_0@ == "pensa-import"@);
        assert(added@.len() == (if plan.add_export { 1int } else { 0 }) + (if plan.add_import { 1int } else { 0 }));
    }
    let n = repos.len();
    let ghost add = added@;
    match plan.target {
        Some(t) => {
            proof {
                let c = choose|c: int| first_local_at(before, c);
                assert(0 <= c < n);
                assert(c == t as int);
            }
            let old_entry = repos.remove(t);
            let mut hs = match old_entry.hooks {
                HooksView::Items(v) => v,
                _ => Vec::new(),
            };
            let ghost old_hs = hs@;
            hs.append(&mut added);
            let entry = RepoView { is_mapping: old_entry.is_mapping, repo: old_entry.repo, hooks: HooksView::Items(hs) };
            repos.insert(t, entry);
            proof {
                let now = repos@;
                assert(now.len() == before.len());
                assert forall|q: int| 0 <= q < now.len() && q != t implies now[q] == before[q] by {
                }
                assert forall|id: Seq<char>| hook_present(before, id) implies hook_present(now, id) by {
                    let i = choose|i: int| 0 <= i < before.len() && repo_has(#[trigger] before[i], id);
                    if i == t {
                        if let HooksView::Items(ohs) = before[i].hooks {
                            let k = choose|k: int| 0 <= k < ohs@.len() && (#[trigger] ohs@[k]) is Some && ohs@[k]->Some_0@ == id;
                            assert(ohs@ == old_hs);
                            assert(hs@[k] == ohs@[k]);
                            assert(repo_has(now[i], id));
                        }
                    } else {
                        assert(repo_has(now[i], id));
                    }
                }
                reveal_strlit("pensa-export");
                reveal_strlit("pensa-import");
                if plan.add_export {
                    assert(hs@ == old_hs + add);
                    assert(hs@[old_hs.len() as int] == add[0]);
                    assert(repo_has(now[t as int], "pensa-export"@));
                }
                if plan.add_import {
                    let k = old_hs.len() + if plan.add_export { 1int } else { 0 };
                    assert(hs@ == old_hs + add);
                    assert(hs@[k] == add[k - old_hs.len()]);
                    assert(repo_has(now[t as int], "pensa-import"@));
                }
            }
        },
        None => {
            let entry = RepoView { is_mapping: true, repo: Some(String::from_str("local")), hooks: HooksView::Items(added) };
            repos.push(entry);
            proof {
                let now = repos@;
                assert forall|id: Seq<char>| hook_present(before, id) implies hook_present(now, id) by {
                    let i = choose|i: int| 0 <= i < before.len() && repo_has(#[trigger] before[i], id);
                    assert(now[i] == before[i]);
                }
                reveal_strlit("pensa-export");
                reveal_strlit("pensa-import");
                let n = before.len() as int;
                if plan.add_export {
                    assert(repo_has(now[n], "pensa-export"@));
                }
                if plan.add_import {
                    let k = if plan.add_export { 1int } else { 0 };
                    assert(repo_has(now[n], "pensa-import"@));
                }
            }
        },
    }
}

} // verus!
