use vstd::prelude::*;

use crate::date::{date_text, Date};
use crate::error::StoreError;
use crate::date::lemma_date_text_injective;
use crate::vars::{has_name, index_of, inserted, opt_view, removed, unique_names, Env, EnvModel, EnvVec};

verus! {

/// The sentinel that opens a comment line.
pub open spec fn comment_prefix() -> Seq<char> {
    seq!['#', ' ', 'c', 'o', 'm', 'm', 'e', 'n', 't', ':', ' ']
}

/// The sentinel that opens an expiration line.
pub open spec fn expires_prefix() -> Seq<char> {
    seq!['#', ' ', 'e', 'x', 'p', 'i', 'r', 'e', 's', ':', ' ']
}

/// The characters of Unicode's `White_Space` property, those that
/// `char::is_whitespace` accepts.
pub open spec fn is_space(c: char) -> bool {
    ('\u{09}' <= c && c <= '\u{0D}') || c == ' ' || c == '\u{85}' || c == '\u{A0}' || c == '\u{1680}' || (
    '\u{2000}' <= c && c <= '\u{200A}') || c == '\u{2028}' || c == '\u{2029}' || c == '\u{202F}' || c
        == '\u{205F}' || c == '\u{3000}'
}

pub open spec fn free_of(s: Seq<char>, c: char) -> bool {
    forall|i: int| 0 <= i < s.len() ==> #[trigger] s[i] != c
}

/// A name that the payload can carry: non-empty, with no `=` and no line
/// break, and not opening with `#`, so that a variable's line is never read
/// as the metadata line of the variable before it.
pub open spec fn valid_name(n: Seq<char>) -> bool {
    n.len() > 0 && n[0] != '#' && free_of(n, '=') && free_of(n, '\n')
}

/// A value that the payload can carry: no `=`, no line break, no leading
/// whitespace.
pub open spec fn valid_value(v: Seq<char>) -> bool {
    free_of(v, '=') && free_of(v, '\n') && (v.len() > 0 ==> !is_space(v[0]))
}

pub open spec fn valid_env(e: EnvModel) -> bool {
    &&& valid_name(e.name)
    &&& valid_value(e.value)
    &&& (e.comment matches Some(c) ==> free_of(c, '\n'))
    &&& (e.expires matches Some(d) ==> d.valid())
}

/// A set of variables that serializes without `InvalidValue`.
pub open spec fn serializable(m: Seq<EnvModel>) -> bool {
    unique_names(m) && forall|i: int| 0 <= i < m.len() ==> valid_env(#[trigger] m[i])
}

/// The lines of one variable: `NAME=VALUE`, then its comment and its
/// expiration date where it has them.
pub open spec fn env_text(e: EnvModel) -> Seq<char> {
    e.name + seq!['='] + e.value + seq!['\n'] + match e.comment {
        Some(c) => comment_prefix() + c + seq!['\n'],
        None => Seq::<char>::empty(),
    } + match e.expires {
        Some(d) => expires_prefix() + date_text(d) + seq!['\n'],
        None => Seq::<char>::empty(),
    }
}

/// The payload text of a set of variables.
pub open spec fn payload_text(m: Seq<EnvModel>) -> Seq<char>
    decreases m.len(),
{
    if m.len() == 0 {
        Seq::<char>::empty()
    } else {
        env_text(m[0]) + payload_text(m.subrange(1, m.len() as int))
    }
}

pub proof fn lemma_payload_split(m: Seq<EnvModel>, k: int)
    requires
        0 <= k <= m.len(),
    ensures
        payload_text(m) == payload_text(m.subrange(0, k)) + payload_text(m.subrange(k, m.len() as int)),
    decreases m.len(),
{
    if k == 0 {
        assert(m.subrange(0, 0) =~= Seq::<EnvModel>::empty());
        assert(m.subrange(0, m.len() as int) =~= m);
        assert(payload_text(m.subrange(0, 0)) =~= Seq::<char>::empty());
        assert(payload_text(m) =~= Seq::<char>::empty() + payload_text(m));
    } else {
        let t = m.subrange(1, m.len() as int);
        lemma_payload_split(t, k - 1);
        assert(m.subrange(0, k).subrange(1, k) =~= t.subrange(0, k - 1));
        assert(t.subrange(k - 1, t.len() as int) =~= m.subrange(k, m.len() as int));
        assert(m.subrange(0, k)[0] == m[0]);
        assert(payload_text(m.subrange(0, k)) == env_text(m[0]) + payload_text(t.subrange(0, k - 1)));
        assert(payload_text(m) =~= payload_text(m.subrange(0, k)) + payload_text(
            m.subrange(k, m.len() as int),
        ));
    }
}

pub proof fn lemma_payload_push(m: Seq<EnvModel>, e: EnvModel)
    ensures
        payload_text(m.push(e)) == payload_text(m) + env_text(e),
{
    let m2 = m.push(e);
    lemma_payload_split(m2, m.len() as int);
    assert(m2.subrange(0, m.len() as int) =~= m);
    let last = m2.subrange(m.len() as int, m2.len() as int);
    assert(last[0] == e);
    assert(last.subrange(1, 1) =~= Seq::<EnvModel>::empty());
    assert(payload_text(last.subrange(1, 1)) =~= Seq::<char>::empty());
    assert(payload_text(last) =~= env_text(e) + Seq::<char>::empty());
}

proof fn lemma_env_text_nonempty(e: EnvModel)
    requires
        valid_name(e.name),
    ensures
        env_text(e).len() > 0,
        env_text(e)[0] == e.name[0],
{
}

/// Inserting a fresh variable and removing it again gives back the set it
/// started from, and so the same payload text.
pub proof fn lemma_insert_then_remove(m: Seq<EnvModel>, e: EnvModel)
    requires
        unique_names(m),
        !has_name(m, e.name),
    ensures
        inserted(m, e) matches Ok(m2) && removed(m2, e.name) matches Ok(m3) && m3 == m && payload_text(m3)
            == payload_text(m),
{
    let m2 = m.push(e);
    assert(m2[m.len() as int].name == e.name);
    assert(has_name(m2, e.name));
    let k = index_of(m2, e.name);
    if k != m.len() {
        assert(m[k].name == e.name);
    }
    assert(m2.remove(k) =~= m);
}

// ---------------------------------------------------------------- exec helpers

fn comment_sentinel() -> (r: &'static str)
    ensures
        r@ == comment_prefix(),
{
    proof {
        reveal_strlit("# comment: ");
    }
    "# comment: "
}

fn expires_sentinel() -> (r: &'static str)
    ensures
        r@ == expires_prefix(),
{
    proof {
        reveal_strlit("# expires: ");
    }
    "# expires: "
}

fn equals_sign() -> (r: &'static str)
    ensures
        r@ == seq!['='],
{
    proof {
        reveal_strlit("=");
    }
    "="
}

fn newline() -> (r: &'static str)
    ensures
        r@ == seq!['\n'],
{
    proof {
        reveal_strlit("\n");
    }
    "\n"
}

/// Whether `s` holds no `c`.
fn is_free_of(s: &str, c: char) -> (r: bool)
    ensures
        r == free_of(s@, c),
{
    let n = s.unicode_len();
    let mut i: usize = 0;
    while i < n
        invariant
            i <= n,
            n == s@.len(),
            forall|j: int| 0 <= j < i ==> s@[j] != c,
        decreases n - i,
    {
        if s.get_char(i) == c {
            return false;
        }
        i = i + 1;
    }
    true
}

fn check_name(s: &str) -> (r: bool)
    ensures
        r == valid_name(s@),
{
    if s.unicode_len() == 0 {
        return false;
    }
    s.get_char(0) != '#' && is_free_of(s, '=') && is_free_of(s, '\n')
}

fn check_value(s: &str) -> (r: bool)
    ensures
        r == valid_value(s@),
{
    if !is_free_of(s, '=') || !is_free_of(s, '\n') {
        return false;
    }
    if s.unicode_len() == 0 {
        return true;
    }
    !is_space_exec(s.get_char(0))
}

fn is_space_exec(c: char) -> (r: bool)
    ensures
        r == is_space(c),
{
    ('\u{09}' <= c && c <= '\u{0D}') || c == ' ' || c == '\u{85}' || c == '\u{A0}' || c == '\u{1680}' || (
    '\u{2000}' <= c && c <= '\u{200A}') || c == '\u{2028}' || c == '\u{2029}' || c == '\u{202F}' || c
        == '\u{205F}' || c == '\u{3000}'
}

fn check_env(e: &Env) -> (r: bool)
    ensures
        r == valid_env(e@),
{
    if !check_name(e.name.as_str()) || !check_value(e.value.as_str()) {
        return false;
    }
    match &e.comment {
        Some(c) => if !is_free_of(c.as_str(), '\n') {
            return false;
        },
        None => {},
    }
    match &e.expiration_date {
        Some(d) => check_date(d),
        None => true,
    }
}

fn check_date(d: &Date) -> (r: bool)
    ensures
        r == d.valid(),
{
    Date::from_ymd(d.year, d.month, d.day).is_some()
}

/// Appends the lines of one variable.
fn push_env_text(s: &mut String, e: &Env)
    requires
        valid_env(e@),
    ensures
        final(s)@ == old(s)@ + env_text(e@),
{
    let ghost start = s@;
    s.append(e.name.as_str());
    s.append(equals_sign());
    s.append(e.value.as_str());
    s.append(newline());
    let ghost after_line = s@;
    match &e.comment {
        Some(c) => {
            s.append(comment_sentinel());
            s.append(c.as_str());
            s.append(newline());
        },
        None => {},
    }
    let ghost after_comment = s@;
    match &e.expiration_date {
        Some(d) => {
            s.append(expires_sentinel());
            let t = d.to_text();
            s.append(t.as_str());
            s.append(newline());
        },
        None => {},
    }
    assert(s@ =~= start + env_text(e@));
}

/// The payload text of a set; fails with `InvalidValue` where a name, value,
/// comment or date cannot be carried.
pub fn serialize(envs: &EnvVec) -> (r: Result<String, StoreError>)
    requires
        envs.wf(),
    ensures
        r is Ok <==> serializable(envs@),
        r matches Ok(s) ==> s@ == payload_text(envs@),
        r matches Err(e) ==> e == StoreError::InvalidValue,
{
    let items = envs.entries();
    let ghost m = envs@;
    assert(items@.map_values(|e: Env| e@) == m);
    let mut s = String::new();
    let mut i: usize = 0;
    while i < items.len()
        invariant
            i <= items@.len(),
            items@.len() == m.len(),
            items@.map_values(|e: Env| e@) == m,
            envs@ == m,
            unique_names(m),
            forall|j: int| 0 <= j < i ==> valid_env(#[trigger] m[j]),
            s@ == payload_text(m.subrange(0, i as int)),
        decreases items@.len() - i,
    {
        let e = &items[i];
        assert(e@ == m[i as int]);
        if !check_env(e) {
            assert(!valid_env(m[i as int]));
            assert(!serializable(m));
            return Err(StoreError::InvalidValue);
        }
        proof {
            lemma_payload_push(m.subrange(0, i as int), e@);
            assert(m.subrange(0, i as int).push(e@) =~= m.subrange(0, i + 1));
        }
        push_env_text(&mut s, e);
        i = i + 1;
    }
    assert(m.subrange(0, m.len() as int) =~= m);
    Ok(s)
}

// ---------------------------------------------------------------- parsing

/// A variable's own line.
pub open spec fn var_line(n: Seq<char>, v: Seq<char>) -> Seq<char> {
    n + seq!['='] + v + seq!['\n']
}

/// A metadata line: its sentinel, its text, a line break.
pub open spec fn meta_line(prefix: Seq<char>, c: Seq<char>) -> Seq<char> {
    prefix + c + seq!['\n']
}

pub open spec fn comment_part(e: EnvModel) -> Seq<char> {
    match e.comment {
        Some(c) => meta_line(comment_prefix(), c),
        None => Seq::<char>::empty(),
    }
}

pub open spec fn expires_part(e: EnvModel) -> Seq<char> {
    match e.expires {
        Some(d) => meta_line(expires_prefix(), date_text(d)),
        None => Seq::<char>::empty(),
    }
}

/// What is left of `t` from `pos` on.
pub open spec fn tail(t: Seq<char>, pos: int) -> Seq<char> {
    t.subrange(pos, t.len() as int)
}

pub open spec fn starts_with_at(t: Seq<char>, pos: int, p: Seq<char>) -> bool {
    pos + p.len() <= t.len() && t.subrange(pos, pos + p.len()) == p
}

proof fn lemma_tail_concat(t: Seq<char>, pos: int, x: Seq<char>, y: Seq<char>)
    requires
        0 <= pos <= t.len(),
        tail(t, pos) == x + y,
    ensures
        pos + x.len() + y.len() == t.len(),
        tail(t, pos + x.len()) == y,
        t.subrange(pos, pos + x.len()) == x,
        forall|i: int| 0 <= i < x.len() ==> t[pos + i] == #[trigger] x[i],
{
    assert(tail(t, pos).len() == t.len() - pos);
    assert(tail(t, pos + x.len()) =~= (x + y).subrange(x.len() as int, (x + y).len() as int));
    assert(t.subrange(pos, pos + x.len()) =~= (x + y).subrange(0, x.len() as int));
    assert forall|i: int| 0 <= i < x.len() implies t[pos + i] == #[trigger] x[i] by {
        assert(tail(t, pos)[i] == (x + y)[i]);
    }
}

proof fn lemma_env_text_parts(e: EnvModel, u: Seq<char>)
    ensures
        env_text(e) + u == var_line(e.name, e.value) + (comment_part(e) + (expires_part(e) + u)),
        env_text(e).len() == var_line(e.name, e.value).len() + comment_part(e).len() + expires_part(e).len(),
{
    assert(env_text(e) + u =~= var_line(e.name, e.value) + (comment_part(e) + (expires_part(e) + u)));
}

/// First position at or after `from` that holds `c`, or the length.
pub(crate) fn find_char(t: &str, n: usize, from: usize, c: char) -> (r: usize)
    requires
        n == t@.len(),
        from <= n,
    ensures
        from <= r <= n,
        forall|j: int| from <= j < r ==> t@[j] != c,
        r < n ==> t@[r as int] == c,
{
    let mut i: usize = from;
    while i < n
        invariant
            from <= i <= n,
            n == t@.len(),
            forall|j: int| from <= j < i ==> t@[j] != c,
        decreases n - i,
    {
        if t.get_char(i) == c {
            return i;
        }
        i = i + 1;
    }
    i
}

fn starts_with(t: &str, n: usize, pos: usize, p: &str) -> (r: bool)
    requires
        n == t@.len(),
        pos <= n,
    ensures
        r == starts_with_at(t@, pos as int, p@),
{
    let k = p.unicode_len();
    if k > n - pos {
        return false;
    }
    let mut i: usize = 0;
    while i < k
        invariant
            i <= k,
            k == p@.len(),
            pos + k <= n,
            n == t@.len(),
            forall|j: int| 0 <= j < i ==> t@[pos + j] == p@[j],
        decreases k - i,
    {
        if t.get_char(pos + i) != p.get_char(i) {
            assert(t@.subrange(pos as int, pos + k)[i as int] != p@[i as int]);
            return false;
        }
        i = i + 1;
    }
    assert(t@.subrange(pos as int, pos + k) =~= p@);
    true
}

pub(crate) fn substring(t: &str, from: usize, to: usize) -> (r: String)
    requires
        from <= to <= t@.len(),
    ensures
        r@ == t@.subrange(from as int, to as int),
{
    t.substring_char(from, to).to_owned()
}

/// Reads `NAME=VALUE` and its line break at `pos`.
fn read_var_line(t: &str, n: usize, pos: usize) -> (r: Option<(String, String, usize)>)
    requires
        n == t@.len(),
        pos <= n,
    ensures
        r matches Some((a, b, np)) ==> valid_name(a@) && valid_value(b@) && pos < np <= n
            && t@.subrange(pos as int, np as int) == var_line(a@, b@),
        forall|a: Seq<char>, b: Seq<char>, w: Seq<char>|
            valid_name(a) && valid_value(b) && tail(t@, pos as int) == #[trigger] (var_line(a, b) + w)
            ==> (r matches Some((x, y, np)) && x@ == a && y@ == b && np == pos + var_line(a, b).len()),
{
    let eol = find_char(t, n, pos, '\n');
    let eq = find_char(t, n, pos, '=');
    proof {
        assert forall|a: Seq<char>, b: Seq<char>, w: Seq<char>|
            valid_name(a) && valid_value(b) && tail(t@, pos as int) == #[trigger] (var_line(a, b) + w)
            implies eq == pos + a.len() && eol == pos + a.len() + 1 + b.len() && eol < n by {
            lemma_tail_concat(t@, pos as int, var_line(a, b), w);
            let l = var_line(a, b);
            let ia = a.len() as int;
            let ib = a.len() + 1 + b.len() as int;
            assert(l[ia] == '=');
            assert(l[ib] == '\n');
            assert(t@[pos + ia] == l[ia]);
            assert(t@[pos + ib] == l[ib]);
            assert(pos + ib < n);
            if eq < pos + ia {
                let k = eq - pos;
                assert(t@[pos + k] == l[k]);
                assert(l[k] == a[k]);
            }
            if eol < pos + ib {
                let k = eol - pos;
                assert(t@[pos + k] == l[k]);
                if k < ia {
                    assert(l[k] == a[k]);
                } else if k > ia {
                    assert(l[k] == b[k - ia - 1]);
                }
            }
        }
    }
    if eol == n || eq >= eol {
        return None;
    }
    let a = substring(t, pos, eq);
    let b = substring(t, eq + 1, eol);
    proof {
        assert forall|x: Seq<char>, y: Seq<char>, w: Seq<char>|
            valid_name(x) && valid_value(y) && tail(t@, pos as int) == #[trigger] (var_line(x, y) + w)
            implies a@ == x && b@ == y by {
            lemma_tail_concat(t@, pos as int, var_line(x, y), w);
            let l = var_line(x, y);
            assert forall|k: int| 0 <= k < x.len() implies a@[k] == x[k] by {
                assert(t@[pos + k] == l[k]);
            }
            assert forall|k: int| 0 <= k < y.len() implies b@[k] == y[k] by {
                assert(t@[pos + (x.len() + 1 + k)] == l[x.len() + 1 + k]);
            }
            assert(a@ =~= x);
            assert(b@ =~= y);
        }
    }
    if !check_name(a.as_str()) || !check_value(b.as_str()) {
        return None;
    }
    assert(t@.subrange(pos as int, eol + 1) =~= var_line(a@, b@));
    Some((a, b, eol + 1))
}

/// What stands at a position where a metadata line may begin.
enum Meta {
    /// The line does not open with the sentinel.
    Absent,
    /// The line opens with the sentinel and ends before the text does: its
    /// text and the position after its line break.
    Present(String, usize),
    /// The line opens with the sentinel but has no line break.
    Broken,
}

fn read_meta(t: &str, n: usize, pos: usize, p: &str) -> (r: Meta)
    requires
        n == t@.len(),
        pos <= n,
    ensures
        r is Absent <==> !starts_with_at(t@, pos as int, p@),
        r matches Meta::Present(c, np) ==> pos < np <= n && free_of(c@, '\n') && t@.subrange(
            pos as int,
            np as int,
        ) == meta_line(p@, c@),
        forall|c: Seq<char>, w: Seq<char>|
            free_of(c, '\n') && tail(t@, pos as int) == #[trigger] (meta_line(p@, c) + w) ==> (
            r matches Meta::Present(x, np) && x@ == c && np == pos + meta_line(p@, c).len()),
{
    if !starts_with(t, n, pos, p) {
        proof {
            assert forall|c: Seq<char>, w: Seq<char>|
                free_of(c, '\n') && tail(t@, pos as int) == #[trigger] (meta_line(p@, c) + w)
                implies false by {
                lemma_tail_concat(t@, pos as int, meta_line(p@, c), w);
                assert(t@.subrange(pos as int, pos + p@.len()) =~= meta_line(p@, c).subrange(0, p@.len() as int));
                assert(meta_line(p@, c).subrange(0, p@.len() as int) =~= p@);
            }
        }
        return Meta::Absent;
    }
    let start = pos + p.unicode_len();
    let eol = find_char(t, n, start, '\n');
    proof {
        assert forall|c: Seq<char>, w: Seq<char>|
            free_of(c, '\n') && tail(t@, pos as int) == #[trigger] (meta_line(p@, c) + w)
            implies eol == start + c.len() && eol < n by {
            lemma_tail_concat(t@, pos as int, meta_line(p@, c), w);
            let l = meta_line(p@, c);
            assert(l[p@.len() + c.len() as int] == '\n');
            if eol < start + c.len() {
                assert(l[eol - pos] == c[eol - start]);
            }
        }
    }
    if eol == n {
        return Meta::Broken;
    }
    let c = substring(t, start, eol);
    assert(t@.subrange(pos as int, start as int) =~= p@);
    assert(t@.subrange(pos as int, eol + 1) =~= meta_line(p@, c@));
    proof {
        assert forall|x: Seq<char>, w: Seq<char>|
            free_of(x, '\n') && tail(t@, pos as int) == #[trigger] (meta_line(p@, x) + w)
            implies c@ == x by {
            lemma_tail_concat(t@, pos as int, meta_line(p@, x), w);
            let l = meta_line(p@, x);
            assert forall|k: int| 0 <= k < x.len() implies c@[k] == x[k] by {
                assert(t@[pos + (p@.len() + k)] == l[p@.len() + k]);
            }
            assert(c@ =~= x);
        }
    }
    Meta::Present(c, eol + 1)
}

/// The variable whose lines begin at `pos`, and the position after them.
fn read_group(t: &str, n: usize, pos: usize) -> (r: Option<(Env, usize)>)
    requires
        n == t@.len(),
        pos <= n,
    ensures
        r matches Some((e, np)) ==> pos < np <= n && valid_env(e@) && t@.subrange(pos as int, np as int)
            == env_text(e@),
        forall|e: EnvModel, u: Seq<char>|
            valid_env(e) && tail(t@, pos as int) == #[trigger] (env_text(e) + u) && (u.len() == 0
                || u[0] != '#') ==> (r matches Some((x, np)) && x@ == e && np == pos + env_text(e).len()),
{
    let line = read_var_line(t, n, pos);
    let (name, value, p1) = match line {
        Some(l) => l,
        None => {
            proof {
                assert forall|e: EnvModel, u: Seq<char>|
                    valid_env(e) && tail(t@, pos as int) == #[trigger] (env_text(e) + u) implies false by {
                    lemma_env_text_parts(e, u);
                    let w = comment_part(e) + (expires_part(e) + u);
                    assert(tail(t@, pos as int) == var_line(e.name, e.value) + w);
                }
            }
            return None;
        },
    };
    // Facts that any expected variable at `pos` fixes.
    proof {
        assert forall|e: EnvModel, u: Seq<char>|
            valid_env(e) && tail(t@, pos as int) == #[trigger] (env_text(e) + u)
            implies name@ == e.name && value@ == e.value && p1 == pos + var_line(e.name, e.value).len()
                && tail(t@, p1 as int) == comment_part(e) + (expires_part(e) + u) by {
            lemma_env_text_parts(e, u);
            let w = comment_part(e) + (expires_part(e) + u);
            assert(tail(t@, pos as int) == var_line(e.name, e.value) + w);
            lemma_tail_concat(t@, pos as int, var_line(e.name, e.value), w);
        }
    }
    let cm = read_meta(t, n, p1, comment_sentinel());
    let (comment, p2) = match cm {
        Meta::Absent => (None, p1),
        Meta::Present(c, np) => (Some(c), np),
        Meta::Broken => {
            proof {
                assert forall|e: EnvModel, u: Seq<char>|
                    valid_env(e) && tail(t@, pos as int) == #[trigger] (env_text(e) + u) && (u.len() == 0
                        || u[0] != '#') implies false by {
                    lemma_env_text_parts(e, u);
                    let w = comment_part(e) + (expires_part(e) + u);
                    assert(tail(t@, pos as int) == var_line(e.name, e.value) + w);
                    lemma_no_comment_start(e, u, t@, p1 as int);
                    if let Some(c) = e.comment {
                        assert(tail(t@, p1 as int) == meta_line(comment_prefix(), c) + (expires_part(e) + u));
                    }
                }
            }
            return None;
        },
    };
    proof {
        assert forall|e: EnvModel, u: Seq<char>|
            valid_env(e) && tail(t@, pos as int) == #[trigger] (env_text(e) + u) && (u.len() == 0
                || u[0] != '#')
            implies opt_view(comment) == e.comment && p2 == pos + var_line(e.name, e.value).len()
                + comment_part(e).len() && tail(t@, p2 as int) == expires_part(e) + u by {
            lemma_env_text_parts(e, u);
            let w = comment_part(e) + (expires_part(e) + u);
            assert(tail(t@, pos as int) == var_line(e.name, e.value) + w);
            lemma_no_comment_start(e, u, t@, p1 as int);
            match e.comment {
                Some(c) => {
                    assert(tail(t@, p1 as int) == meta_line(comment_prefix(), c) + (expires_part(e) + u));
                    lemma_tail_concat(t@, p1 as int, meta_line(comment_prefix(), c), expires_part(e) + u);
                },
                None => {
                    assert(comment_part(e) + (expires_part(e) + u) =~= expires_part(e) + u);
                },
            }
        }
    }
    let xm = read_meta(t, n, p2, expires_sentinel());
    let (expires, p3) = match xm {
        Meta::Absent => (None, p2),
        Meta::Present(text, np) => {
            match Date::parse(text.as_str()) {
                Some(d) => (Some(d), np),
                None => {
                    proof {
                        assert forall|e: EnvModel, u: Seq<char>|
                            valid_env(e) && tail(t@, pos as int) == #[trigger] (env_text(e) + u) && (
                            u.len() == 0 || u[0] != '#') implies false by {
                            lemma_no_expires_start(e, u, t@, p2 as int);
                            if let Some(d) = e.expires {
                                lemma_date_text_free(d);
                                assert(tail(t@, p2 as int) == meta_line(expires_prefix(), date_text(d)) + u);
                            }
                        }
                    }
                    return None;
                },
            }
        },
        Meta::Broken => {
            proof {
                assert forall|e: EnvModel, u: Seq<char>|
                    valid_env(e) && tail(t@, pos as int) == #[trigger] (env_text(e) + u) && (u.len() == 0
                        || u[0] != '#') implies false by {
                    lemma_no_expires_start(e, u, t@, p2 as int);
                    if let Some(d) = e.expires {
                        lemma_date_text_free(d);
                        assert(tail(t@, p2 as int) == meta_line(expires_prefix(), date_text(d)) + u);
                    }
                }
            }
            return None;
        },
    };
    let env = Env { name, value, comment, expiration_date: expires };
    proof {
        assert(comment_part(env@) == t@.subrange(p1 as int, p2 as int));
        assert(expires_part(env@) == t@.subrange(p2 as int, p3 as int));
        assert(t@.subrange(pos as int, p3 as int) =~= t@.subrange(pos as int, p1 as int) + t@.subrange(
            p1 as int,
            p2 as int,
        ) + t@.subrange(p2 as int, p3 as int));
        assert(env_text(env@) =~= var_line(name@, value@) + comment_part(env@) + expires_part(env@));
        assert forall|e: EnvModel, u: Seq<char>|
            valid_env(e) && tail(t@, pos as int) == #[trigger] (env_text(e) + u) && (u.len() == 0
                || u[0] != '#') implies env@ == e && p3 == pos + env_text(e).len() by {
            lemma_env_text_parts(e, u);
            lemma_no_expires_start(e, u, t@, p2 as int);
            if let Some(d) = e.expires {
                lemma_date_text_free(d);
                assert(tail(t@, p2 as int) == meta_line(expires_prefix(), date_text(d)) + u);
                lemma_date_text_injective(d);
            }
        }
    }
    Some((env, p3))
}

proof fn lemma_date_text_free(d: Date)
    ensures
        free_of(date_text(d), '\n'),
{
}

/// Where a variable has no comment, what follows its own line does not open
/// with the comment sentinel.
proof fn lemma_no_comment_start(e: EnvModel, u: Seq<char>, t: Seq<char>, p: int)
    requires
        0 <= p <= t.len(),
        tail(t, p) == comment_part(e) + (expires_part(e) + u),
        u.len() == 0 || u[0] != '#',
    ensures
        e.comment is None ==> !starts_with_at(t, p, comment_prefix()),
        e.comment is None ==> tail(t, p) == expires_part(e) + u,
{
    if e.comment is None {
        assert(comment_part(e) + (expires_part(e) + u) =~= expires_part(e) + u);
        if starts_with_at(t, p, comment_prefix()) {
            assert(t.subrange(p, p + 11)[0] == t[p]);
            assert(t.subrange(p, p + 11)[2] == t[p + 2]);
            assert(tail(t, p)[0] == t[p]);
            assert(tail(t, p)[2] == t[p + 2]);
            if let Some(d) = e.expires {
                assert((expires_part(e) + u)[2] == 'e');
            }
        }
    }
}

/// Where a variable has no expiration date, what follows its lines does not
/// open with the expiration sentinel.
proof fn lemma_no_expires_start(e: EnvModel, u: Seq<char>, t: Seq<char>, p: int)
    requires
        0 <= p <= t.len(),
        tail(t, p) == expires_part(e) + u,
        u.len() == 0 || u[0] != '#',
    ensures
        e.expires is None ==> !starts_with_at(t, p, expires_prefix()),
        e.expires is None ==> tail(t, p) == u,
{
    if e.expires is None {
        assert(expires_part(e) + u =~= u);
        if starts_with_at(t, p, expires_prefix()) {
            assert(t.subrange(p, p + 11)[0] == t[p]);
            assert(tail(t, p)[0] == t[p]);
        }
    }
}

/// The text of a set from its `k`-th variable on is that variable's lines,
/// then the text of the rest.
proof fn lemma_next_group(m: Seq<EnvModel>, k: int)
    requires
        0 <= k < m.len(),
        serializable(m),
    ensures
        payload_text(m.subrange(k, m.len() as int)) == env_text(m[k]) + payload_text(
            m.subrange(k + 1, m.len() as int),
        ),
        k + 1 < m.len() ==> payload_text(m.subrange(k + 1, m.len() as int)).len() > 0 && payload_text(
            m.subrange(k + 1, m.len() as int),
        )[0] != '#',
        k + 1 == m.len() ==> payload_text(m.subrange(k + 1, m.len() as int)).len() == 0,
{
    let r = m.subrange(k, m.len() as int);
    assert(r[0] == m[k]);
    assert(r.subrange(1, r.len() as int) =~= m.subrange(k + 1, m.len() as int));
    if k + 1 < m.len() {
        let r2 = m.subrange(k + 1, m.len() as int);
        assert(r2[0] == m[k + 1]);
        assert(valid_env(m[k + 1]));
        lemma_env_text_nonempty(m[k + 1]);
        assert(payload_text(r2) == env_text(r2[0]) + payload_text(r2.subrange(1, r2.len() as int)));
    }
}

/// Reads a payload back into a set of variables; fails with `Corrupt` where
/// the text is the payload of no set. Every set that the payload stands for
/// is the one read back.
pub fn parse(t: &str) -> (r: Result<EnvVec, StoreError>)
    ensures
        r matches Ok(v) ==> v.wf() && serializable(v@) && payload_text(v@) == t@,
        forall|m: Seq<EnvModel>|
            serializable(m) && #[trigger] payload_text(m) == t@ ==> (r matches Ok(v) && v@ == m),
        r matches Err(e) ==> e == StoreError::Corrupt,
{
    let n = t.unicode_len();
    let mut envs = EnvVec::new();
    let mut pos: usize = 0;
    assert(envs@ =~= Seq::<EnvModel>::empty());
    assert(payload_text(envs@) =~= t@.subrange(0, 0));
    proof {
        assert forall|m: Seq<EnvModel>| serializable(m) && #[trigger] payload_text(m) == t@
            implies envs@ == m.subrange(0, envs@.len() as int) by {
            assert(m.subrange(0, 0) =~= Seq::<EnvModel>::empty());
        }
    }
    while pos < n
        invariant
            pos <= n,
            n == t@.len(),
            envs.wf(),
            serializable(envs@),
            payload_text(envs@) == t@.subrange(0, pos as int),
            forall|m: Seq<EnvModel>| serializable(m) && #[trigger] payload_text(m) == t@
                ==> envs@.len() <= m.len() && envs@ == m.subrange(0, envs@.len() as int),
        decreases n - pos,
    {
        let ghost k = envs@.len() as int;
        proof {
            assert forall|m: Seq<EnvModel>| serializable(m) && #[trigger] payload_text(m) == t@
                implies k < m.len() && tail(t@, pos as int) == env_text(m[k]) + payload_text(
                    m.subrange(k + 1, m.len() as int),
                ) by {
                lemma_payload_split(m, k);
                if k == m.len() {
                    assert(m.subrange(k, m.len() as int) =~= Seq::<EnvModel>::empty());
                    assert(m.subrange(0, k) =~= m);
                    assert(false);
                }
                lemma_next_group(m, k);
                assert(tail(t@, pos as int) =~= payload_text(m.subrange(k, m.len() as int)));
            }
        }
        let g = read_group(t, n, pos);
        match g {
            None => {
                proof {
                    assert forall|m: Seq<EnvModel>| serializable(m) && #[trigger] payload_text(m) == t@
                        implies false by {
                        lemma_next_group(m, k);
                        assert(valid_env(m[k]));
                    }
                }
                return Err(StoreError::Corrupt);
            },
            Some((e, np)) => {
                proof {
                    assert forall|m: Seq<EnvModel>| serializable(m) && #[trigger] payload_text(m) == t@
                        implies e@ == m[k] && np == pos + env_text(m[k]).len() by {
                        lemma_next_group(m, k);
                        assert(valid_env(m[k]));
                    }
                }
                if envs.contains(e.name.as_str()) {
                    proof {
                        assert forall|m: Seq<EnvModel>| serializable(m) && #[trigger] payload_text(m) == t@
                            implies false by {
                            let i = choose|i: int| 0 <= i < envs@.len() && #[trigger] envs@[i].name == e@.name;
                            assert(envs@[i] == m[i]);
                            assert(m[i].name != m[k].name);
                        }
                    }
                    return Err(StoreError::Corrupt);
                }
                let ghost before = envs@;
                let ins = envs.insert(e);
                proof {
                    assert(inserted(before, e@) == Ok::<Seq<EnvModel>, StoreError>(before.push(e@)));
                    assert(envs@ == before.push(e@));
                    lemma_payload_push(before, e@);
                    assert(t@.subrange(0, np as int) =~= t@.subrange(0, pos as int) + t@.subrange(
                        pos as int,
                        np as int,
                    ));
                    assert forall|i: int| 0 <= i < envs@.len() implies valid_env(#[trigger] envs@[i]) by {
                        if i < before.len() {
                            assert(envs@[i] == before[i]);
                        }
                    }
                    assert forall|m: Seq<EnvModel>| serializable(m) && #[trigger] payload_text(m) == t@
                        implies envs@.len() <= m.len() && envs@ == m.subrange(0, envs@.len() as int) by {
                        assert(m.subrange(0, k + 1) =~= m.subrange(0, k).push(m[k]));
                    }
                }
                pos = np;
            },
        }
    }
    proof {
        assert(t@.subrange(0, n as int) =~= t@);
        assert forall|m: Seq<EnvModel>| serializable(m) && #[trigger] payload_text(m) == t@
            implies envs@ == m by {
            let k = envs@.len() as int;
            lemma_payload_split(m, k);
            if k < m.len() {
                lemma_next_group(m, k);
                assert(valid_env(m[k]));
                lemma_env_text_nonempty(m[k]);
            }
            assert(m.subrange(0, m.len() as int) =~= m);
        }
    }
    Ok(envs)
}

/// Two sequences split at their first `c` into the same parts.
proof fn lemma_first_sep(x1: Seq<char>, y1: Seq<char>, x2: Seq<char>, y2: Seq<char>, c: char)
    requires
        free_of(x1, c),
        free_of(x2, c),
        x1 + seq![c] + y1 == x2 + seq![c] + y2,
    ensures
        x1 == x2,
        y1 == y2,
{
    let t = x1 + seq![c] + y1;
    if x1.len() < x2.len() {
        assert(t[x1.len() as int] == c);
        assert((x2 + seq![c] + y2)[x1.len() as int] == x2[x1.len() as int]);
    } else if x2.len() < x1.len() {
        assert((x2 + seq![c] + y2)[x2.len() as int] == c);
        assert(t[x2.len() as int] == x1[x2.len() as int]);
    }
    assert(x1 =~= t.subrange(0, x1.len() as int));
    assert(x2 =~= (x2 + seq![c] + y2).subrange(0, x2.len() as int));
    assert(y1 =~= t.subrange(x1.len() + 1 as int, t.len() as int));
    assert(y2 =~= (x2 + seq![c] + y2).subrange(x2.len() + 1 as int, t.len() as int));
}

/// Text that is empty or does not open with `#`.
pub open spec fn plain_start(u: Seq<char>) -> bool {
    u.len() == 0 || u[0] != '#'
}

/// The lines of one variable, followed by text that does not open with `#`,
/// determine the variable and that text.
proof fn lemma_group_unique(e1: EnvModel, u1: Seq<char>, e2: EnvModel, u2: Seq<char>)
    requires
        valid_env(e1),
        valid_env(e2),
        plain_start(u1),
        plain_start(u2),
        env_text(e1) + u1 == env_text(e2) + u2,
    ensures
        e1 == e2,
        u1 == u2,
{
    let w1 = comment_part(e1) + (expires_part(e1) + u1);
    let w2 = comment_part(e2) + (expires_part(e2) + u2);
    lemma_env_text_parts(e1, u1);
    lemma_env_text_parts(e2, u2);
    assert(var_line(e1.name, e1.value) + w1 =~= e1.name + seq!['='] + (e1.value + seq!['\n'] + w1));
    assert(var_line(e2.name, e2.value) + w2 =~= e2.name + seq!['='] + (e2.value + seq!['\n'] + w2));
    lemma_first_sep(e1.name, e1.value + seq!['\n'] + w1, e2.name, e2.value + seq!['\n'] + w2, '=');
    lemma_first_sep(e1.value, w1, e2.value, w2, '\n');
    let r1 = expires_part(e1) + u1;
    let r2 = expires_part(e2) + u2;
    match (e1.comment, e2.comment) {
        (Some(a), Some(b)) => {
            assert(w1 =~= comment_prefix() + (a + seq!['\n'] + r1));
            assert(w2 =~= comment_prefix() + (b + seq!['\n'] + r2));
            assert(a + seq!['\n'] + r1 =~= w1.subrange(11, w1.len() as int));
            assert(b + seq!['\n'] + r2 =~= w2.subrange(11, w2.len() as int));
            lemma_first_sep(a, r1, b, r2, '\n');
        },
        (Some(a), None) => {
            assert(w1[0] == '#' && w1[2] == 'c');
            assert(w2 =~= r2);
            if let Some(d) = e2.expires {
                assert(r2[2] == 'e');
            } else {
                assert(r2 =~= u2);
            }
        },
        (None, Some(b)) => {
            assert(w2[0] == '#' && w2[2] == 'c');
            assert(w1 =~= r1);
            if let Some(d) = e1.expires {
                assert(r1[2] == 'e');
            } else {
                assert(r1 =~= u1);
            }
        },
        (None, None) => {
            assert(w1 =~= r1);
            assert(w2 =~= r2);
        },
    }
    assert(r1 == r2);
    match (e1.expires, e2.expires) {
        (Some(d1), Some(d2)) => {
            lemma_date_text_free(d1);
            lemma_date_text_free(d2);
            assert(r1 =~= expires_prefix() + (date_text(d1) + seq!['\n'] + u1));
            assert(r2 =~= expires_prefix() + (date_text(d2) + seq!['\n'] + u2));
            assert(date_text(d1) + seq!['\n'] + u1 =~= r1.subrange(11, r1.len() as int));
            assert(date_text(d2) + seq!['\n'] + u2 =~= r2.subrange(11, r2.len() as int));
            lemma_first_sep(date_text(d1), u1, date_text(d2), u2, '\n');
            lemma_date_text_injective(d1);
        },
        (Some(d1), None) => {
            assert(r1[0] == '#');
            assert(r2 =~= u2);
        },
        (None, Some(d2)) => {
            assert(r2[0] == '#');
            assert(r1 =~= u1);
        },
        (None, None) => {
            assert(r1 =~= u1);
            assert(r2 =~= u2);
        },
    }
}

proof fn lemma_serializable_rest(m: Seq<EnvModel>)
    requires
        serializable(m),
        m.len() > 0,
    ensures
        serializable(m.subrange(1, m.len() as int)),
        valid_env(m[0]),
        plain_start(payload_text(m.subrange(1, m.len() as int))),
{
    let r = m.subrange(1, m.len() as int);
    assert forall|i: int, j: int| 0 <= i < j < r.len() implies #[trigger] r[i].name != #[trigger] r[j].name by {
        assert(r[i] == m[i + 1] && r[j] == m[j + 1]);
    }
    assert forall|i: int| 0 <= i < r.len() implies valid_env(#[trigger] r[i]) by {
        assert(r[i] == m[i + 1]);
    }
    lemma_next_group(m, 0);
}

/// Only one serializable set has a given payload text: what is read back
/// from a payload is the set it was written from.
pub proof fn lemma_payload_injective(m1: Seq<EnvModel>, m2: Seq<EnvModel>)
    requires
        serializable(m1),
        serializable(m2),
        payload_text(m1) == payload_text(m2),
    ensures
        m1 == m2,
    decreases m1.len(),
{
    if m1.len() == 0 || m2.len() == 0 {
        if m1.len() > 0 {
            lemma_env_text_nonempty(m1[0]);
        }
        if m2.len() > 0 {
            lemma_env_text_nonempty(m2[0]);
        }
        assert(m1 =~= m2);
    } else {
        let r1 = m1.subrange(1, m1.len() as int);
        let r2 = m2.subrange(1, m2.len() as int);
        lemma_serializable_rest(m1);
        lemma_serializable_rest(m2);
        lemma_group_unique(m1[0], payload_text(r1), m2[0], payload_text(r2));
        lemma_payload_injective(r1, r2);
        assert(m1 =~= seq![m1[0]] + r1);
        assert(m2 =~= seq![m2[0]] + r2);
    }
}

} // verus!
