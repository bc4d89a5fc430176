use vstd::prelude::*;

use crate::payload::{find_char, substring};
use crate::vars::string_eq;

verus! {

/// How many characters of `s` come before the first `c`, or its length.
pub open spec fn first_index(s: Seq<char>, c: char) -> nat
    decreases s.len(),
{
    if s.len() == 0 || s[0] == c {
        0
    } else {
        1 + first_index(s.drop_first(), c)
    }
}

/// Pairs of strings as plain values.
pub open spec fn pair_views(v: Seq<(String, String)>) -> Seq<(Seq<char>, Seq<char>)> {
    v.map_values(|p: (String, String)| (p.0@, p.1@))
}

pub open spec fn distinct_keys(m: Seq<(Seq<char>, Seq<char>)>) -> bool {
    forall|i: int, j: int| 0 <= i < j < m.len() ==> #[trigger] m[i].0 != #[trigger] m[j].0
}

/// The mapping with `k` bound to `v`: in place where `k` is bound, else at
/// the end.
pub open spec fn bind(m: Seq<(Seq<char>, Seq<char>)>, k: Seq<char>, v: Seq<char>) -> Seq<(Seq<char>, Seq<char>)> {
    if exists|i: int| 0 <= i < m.len() && #[trigger] m[i].0 == k {
        m.update(choose|i: int| 0 <= i < m.len() && #[trigger] m[i].0 == k, (k, v))
    } else {
        m.push((k, v))
    }
}

/// The mapping after one line: a blank line, a `#` comment and a line
/// without `=` leave it as it is; `KEY=VALUE` binds the text before the
/// first `=` to the text after it.
pub open spec fn apply_line(m: Seq<(Seq<char>, Seq<char>)>, line: Seq<char>) -> Seq<(Seq<char>, Seq<char>)> {
    let e = first_index(line, '=');
    if line.len() == 0 || line[0] == '#' || e >= line.len() {
        m
    } else {
        bind(m, line.subrange(0, e as int), line.subrange(e + 1 as int, line.len() as int))
    }
}

/// The mapping after the lines of `t`, in order, starting from `m`.
pub open spec fn apply_text(t: Seq<char>, m: Seq<(Seq<char>, Seq<char>)>) -> Seq<(Seq<char>, Seq<char>)>
    decreases t.len(),
{
    if t.len() == 0 {
        m
    } else {
        let k = first_index(t, '\n');
        let m2 = apply_line(m, t.subrange(0, k as int));
        if k < t.len() {
            apply_text(t.subrange(k + 1 as int, t.len() as int), m2)
        } else {
            m2
        }
    }
}

pub(crate) proof fn lemma_first_index(s: Seq<char>, c: char, k: int)
    requires
        0 <= k <= s.len(),
        forall|i: int| 0 <= i < k ==> s[i] != c,
        k == s.len() || s[k] == c,
    ensures
        first_index(s, c) == k,
    decreases k,
{
    if k > 0 {
        lemma_first_index(s.drop_first(), c, k - 1);
    }
}

/// Reads `KEY=VALUE` lines of dotenv text into a mapping, in the order in
/// which keys first appear; a later line for a key replaces its value.
/// Blank lines, lines that open with `#` and lines without `=` are skipped.
pub fn parse_envs(text: &str) -> (r: Vec<(String, String)>)
    ensures
        pair_views(r@) == apply_text(text@, Seq::empty()),
        distinct_keys(pair_views(r@)),
{
    let n = text.unicode_len();
    let mut r: Vec<(String, String)> = Vec::new();
    let mut pos: usize = 0;
    assert(text@.subrange(0, n as int) =~= text@);
    assert(pair_views(r@) =~= Seq::<(Seq<char>, Seq<char>)>::empty());
    while pos < n
        invariant
            pos <= n,
            n == text@.len(),
            distinct_keys(pair_views(r@)),
            apply_text(text@.subrange(pos as int, n as int), pair_views(r@)) == apply_text(text@, Seq::empty()),
        decreases n - pos,
    {
        let ghost rest = text@.subrange(pos as int, n as int);
        let eol = find_char(text, n, pos, '\n');
        let eq = find_char(text, n, pos, '=');
        let ghost line = text@.subrange(pos as int, eol as int);
        proof {
            lemma_first_index(rest, '\n', eol - pos);
            assert(rest.subrange(0, eol - pos) =~= line);
            let e = if eq < eol { eq - pos } else { eol - pos };
            lemma_first_index(line, '=', e);
            if eol < n {
                assert(rest.subrange(eol - pos + 1, rest.len() as int) =~= text@.subrange(eol + 1, n as int));
            }
        }
        let ghost before = pair_views(r@);
        if eol > pos && text.get_char(pos) != '#' && eq < eol {
            let key = substring(text, pos, eq);
            let value = substring(text, eq + 1, eol);
            assert(key@ =~= line.subrange(0, eq - pos));
            assert(value@ =~= line.subrange(eq - pos + 1, line.len() as int));
            bind_in(&mut r, key, value);
        }
        assert(pair_views(r@) == apply_line(before, line));
        pos = if eol < n { eol + 1 } else { n };
        assert(eol == n ==> text@.subrange(pos as int, n as int) =~= Seq::<char>::empty());
    }
    r
}

fn bind_in(r: &mut Vec<(String, String)>, key: String, value: String)
    requires
        distinct_keys(pair_views(old(r)@)),
    ensures
        distinct_keys(pair_views(final(r)@)),
        pair_views(final(r)@) == bind(pair_views(old(r)@), key@, value@),
{
    let ghost m = pair_views(r@);
    let mut i: usize = 0;
    while i < r.len()
        invariant
            i <= r@.len(),
            m == pair_views(r@),
            m == pair_views(old(r)@),
            distinct_keys(m),
            forall|j: int| 0 <= j < i ==> m[j].0 != key@,
        decreases r@.len() - i,
    {
        if string_eq(&r[i].0, key.as_str()) {
            proof {
                assert(m[i as int].0 == key@);
                let k = choose|j: int| 0 <= j < m.len() && #[trigger] m[j].0 == key@;
                if k != i as int {
                    if k < i as int {
                        assert(m[k].0 != m[i as int].0);
                    } else {
                        assert(m[i as int].0 != m[k].0);
                    }
                }
                assert(k == i as int);
            }
            r.set(i, (key, value));
            assert(pair_views(r@) =~= m.update(i as int, (key@, value@)));
            return;
        }
        i = i + 1;
    }
    r.push((key, value));
    assert(pair_views(r@) =~= m.push((key@, value@)));
}

/// Splits `KEY=VALUE` at its first `=`: `None` where there is no `=` or
/// the key before it is empty.
pub fn split_assignment(arg: &str) -> (r: Option<(String, String)>)
    ensures
        match r {
            None => first_index(arg@, '=') == 0 || first_index(arg@, '=') >= arg@.len(),
            Some((k, v)) => 0 < first_index(arg@, '=') < arg@.len() && k@ == arg@.subrange(
                0,
                first_index(arg@, '=') as int,
            ) && v@ == arg@.subrange(first_index(arg@, '=') + 1 as int, arg@.len() as int),
        },
{
    let n = arg.unicode_len();
    let e = find_char(arg, n, 0, '=');
    proof {
        lemma_first_index(arg@, '=', e as int);
    }
    if e == 0 || e == n {
        return None;
    }
    Some((substring(arg, 0, e), substring(arg, e + 1, n)))
}

} // verus!
