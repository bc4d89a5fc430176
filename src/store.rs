use vstd::prelude::*;

use crate::date::Date;
use crate::error::StoreError;
use crate::payload::{free_of, var_line};
use crate::vars::{string_eq, string_views, EnvModel, EnvVec};

verus! {

/// The extension of a profile file, with its dot.
pub open spec fn env_suffix() -> Seq<char> {
    seq!['.', 'e', 'n', 'v']
}

/// A profile name: non-empty, not opening with `.`, without a path
/// separator.
pub open spec fn valid_profile_name(n: Seq<char>) -> bool {
    n.len() > 0 && n[0] != '.' && free_of(n, '/') && free_of(n, '\\')
}

/// The profile that a file of the profiles directory stands for: the stem of
/// a file with extension `.env` whose stem does not open with `.`.
pub open spec fn profile_stem(f: Seq<char>) -> Option<Seq<char>> {
    if f.len() > 4 && f.subrange(f.len() - 4, f.len() as int) == env_suffix() && f[0] != '.' {
        Some(f.subrange(0, f.len() - 4))
    } else {
        None
    }
}

/// The profiles that a listing of file names shows, in the listing's order.
pub open spec fn listed(fs: Seq<Seq<char>>) -> Seq<Seq<char>>
    decreases fs.len(),
{
    if fs.len() == 0 {
        Seq::<Seq<char>>::empty()
    } else {
        listed(fs.drop_last()) + match profile_stem(fs.last()) {
            Some(s) => seq![s],
            None => Seq::<Seq<char>>::empty(),
        }
    }
}

fn env_ext() -> (r: &'static str)
    ensures
        r@ == env_suffix(),
{
    proof {
        reveal_strlit(".env");
    }
    ".env"
}

fn stem_of(f: &str) -> (r: Option<String>)
    ensures
        match (r, profile_stem(f@)) {
            (Some(s), Some(t)) => s@ == t,
            (None, None) => true,
            _ => false,
        },
{
    let n = f.unicode_len();
    if n <= 4 || f.get_char(0) == '.' {
        return None;
    }
    let ext = f.substring_char(n - 4, n);
    if !string_eq(&ext.to_owned(), env_ext()) {
        return None;
    }
    Some(f.substring_char(0, n - 4).to_owned())
}

/// The names of the profiles among the file names of the profiles
/// directory, in their order: files with another extension, and files whose
/// stem opens with `.`, are left out.
pub fn profile_names(files: &Vec<String>) -> (r: Vec<String>)
    ensures
        string_views(r@) == listed(string_views(files@)),
{
    let ghost fs = string_views(files@);
    let mut r: Vec<String> = Vec::new();
    let mut i: usize = 0;
    while i < files.len()
        invariant
            i <= files@.len(),
            fs == string_views(files@),
            string_views(r@) == listed(fs.subrange(0, i as int)),
        decreases files@.len() - i,
    {
        let ghost before = r@;
        assert(fs.subrange(0, i + 1).drop_last() =~= fs.subrange(0, i as int));
        assert(fs.subrange(0, i + 1).last() == files@[i as int]@);
        match stem_of(files[i].as_str()) {
            Some(s) => {
                r.push(s);
                assert(string_views(r@) =~= string_views(before).push(r@.last()@));
            },
            None => {},
        }
        i = i + 1;
        assert(string_views(r@) =~= listed(fs.subrange(0, i as int)));
    }
    assert(fs.subrange(0, i as int) =~= fs);
    r
}

/// Every listed name is a valid-looking stem of a `.env` file of the
/// listing: none opens with `.`, and the file it came from is its name with
/// `.env` appended.
pub proof fn lemma_listing_hygiene(fs: Seq<Seq<char>>)
    ensures
        forall|i: int|
            0 <= i < listed(fs).len() ==> #[trigger] listed(fs)[i].len() > 0 && listed(fs)[i][0] != '.'
                && fs.contains(listed(fs)[i] + env_suffix()),
    decreases fs.len(),
{
    if fs.len() > 0 {
        let init = fs.drop_last();
        lemma_listing_hygiene(init);
        assert forall|i: int| 0 <= i < listed(fs).len() implies #[trigger] listed(fs)[i].len() > 0
            && listed(fs)[i][0] != '.' && fs.contains(listed(fs)[i] + env_suffix()) by {
            if i < listed(init).len() {
                assert(listed(fs)[i] == listed(init)[i]);
                let j = choose|j: int| 0 <= j < init.len() && init[j] == listed(init)[i] + env_suffix();
                assert(fs[j] == init[j]);
            } else {
                let f = fs.last();
                let s = f.subrange(0, f.len() - 4);
                assert(listed(fs)[i] == s);
                assert(s[0] == f[0]);
                assert(s + env_suffix() =~= f);
                assert(fs[fs.len() - 1] == f);
            }
        }
    }
}

/// The file name of a profile; fails with `InvalidValue` where the name is
/// empty, opens with `.` or holds a path separator.
pub fn profile_file_name(name: &str) -> (r: Result<String, StoreError>)
    ensures
        valid_profile_name(name@) ==> (r matches Ok(f) && f@ == name@ + env_suffix()),
        !valid_profile_name(name@) ==> r == Err::<String, StoreError>(StoreError::InvalidValue),
{
    let n = name.unicode_len();
    if n == 0 || name.get_char(0) == '.' {
        return Err(StoreError::InvalidValue);
    }
    let mut i: usize = 0;
    while i < n
        invariant
            i <= n,
            n == name@.len(),
            forall|j: int| 0 <= j < i ==> name@[j] != '/' && name@[j] != '\\',
        decreases n - i,
    {
        let c = name.get_char(i);
        if c == '/' || c == '\\' {
            return Err(StoreError::InvalidValue);
        }
        i = i + 1;
    }
    let mut f = name.to_owned();
    f.append(env_ext());
    Ok(f)
}

/// A profile's file, once named, is listed under the profile's name.
pub proof fn lemma_file_name_listed(name: Seq<char>)
    requires
        valid_profile_name(name),
    ensures
        profile_stem(name + env_suffix()) == Some(name),
        listed(seq![name + env_suffix()]) == seq![name],
{
    let f = name + env_suffix();
    assert(f.subrange(f.len() - 4, f.len() as int) =~= env_suffix());
    assert(f.subrange(0, f.len() - 4) =~= name);
    let fs = seq![f];
    assert(fs.drop_last() =~= Seq::<Seq<char>>::empty());
    assert(listed(fs.drop_last()) =~= Seq::<Seq<char>>::empty());
    assert(fs.last() == f);
    assert(listed(fs) =~= Seq::<Seq<char>>::empty() + seq![name]);
}

/// Whether `n` is among the selected names; an empty selection selects all.
pub open spec fn picked(n: Seq<char>, sel: Seq<Seq<char>>) -> bool {
    sel.len() == 0 || sel.contains(n)
}

/// The plaintext export: `NAME=VALUE` lines of the selected variables, in
/// the set's order, with no metadata.
pub open spec fn export_spec(m: Seq<EnvModel>, sel: Seq<Seq<char>>) -> Seq<char>
    decreases m.len(),
{
    if m.len() == 0 {
        Seq::<char>::empty()
    } else {
        export_spec(m.drop_last(), sel) + if picked(m.last().name, sel) {
            var_line(m.last().name, m.last().value)
        } else {
            Seq::<char>::empty()
        }
    }
}

fn is_selected(n: &String, sel: &Vec<String>) -> (r: bool)
    ensures
        r == picked(n@, string_views(sel@)),
{
    if sel.len() == 0 {
        return true;
    }
    let ghost ss = string_views(sel@);
    let mut i: usize = 0;
    while i < sel.len()
        invariant
            i <= sel@.len(),
            ss == string_views(sel@),
            forall|j: int| 0 <= j < i ==> ss[j] != n@,
        decreases sel@.len() - i,
    {
        if string_eq(n, sel[i].as_str()) {
            assert(ss[i as int] == n@);
            return true;
        }
        i = i + 1;
    }
    false
}

/// The plaintext of a profile's selected variables. Fails with `Missing`
/// where the set is empty or no variable is selected.
pub fn export_text(envs: &EnvVec, selected: &Vec<String>) -> (r: Result<String, StoreError>)
    ensures
        (exists|i: int| 0 <= i < envs@.len() && picked(#[trigger] envs@[i].name, string_views(selected@)))
            ==> (r matches Ok(s) && s@ == export_spec(envs@, string_views(selected@))),
        !(exists|i: int| 0 <= i < envs@.len() && picked(#[trigger] envs@[i].name, string_views(selected@)))
            ==> r == Err::<String, StoreError>(StoreError::Missing),
{
    let items = envs.entries();
    let ghost m = envs@;
    let ghost sel = string_views(selected@);
    let mut s = String::new();
    let mut any = false;
    let mut i: usize = 0;
    while i < items.len()
        invariant
            i <= items@.len(),
            items@.len() == m.len(),
            items@.map_values(|e: crate::vars::Env| e@) == m,
            m == envs@,
            sel == string_views(selected@),
            s@ == export_spec(m.subrange(0, i as int), sel),
            any == exists|j: int| 0 <= j < i && picked(#[trigger] m[j].name, sel),
        decreases items@.len() - i,
    {
        let e = &items[i];
        assert(e@ == m[i as int]);
        assert(m.subrange(0, i + 1).drop_last() =~= m.subrange(0, i as int));
        if is_selected(&e.name, selected) {
            s.append(e.name.as_str());
            s.append(equals());
            s.append(e.value.as_str());
            s.append(line_break());
            any = true;
        }
        i = i + 1;
        assert(s@ =~= export_spec(m.subrange(0, i as int), sel));
    }
    assert(m.subrange(0, i as int) =~= m);
    if !any {
        return Err(StoreError::Missing);
    }
    Ok(s)
}

fn equals() -> (r: &'static str)
    ensures
        r@ == seq!['='],
{
    proof {
        reveal_strlit("=");
    }
    "="
}

fn line_break() -> (r: &'static str)
    ensures
        r@ == seq!['\n'],
{
    proof {
        reveal_strlit("\n");
    }
    "\n"
}

/// The names of the variables whose expiration date is on or before
/// `today`, in the set's order.
pub open spec fn expired_spec(m: Seq<EnvModel>, today: Date) -> Seq<Seq<char>>
    decreases m.len(),
{
    if m.len() == 0 {
        Seq::<Seq<char>>::empty()
    } else {
        expired_spec(m.drop_last(), today) + match m.last().expires {
            Some(d) => if d.on_or_before(today) {
                seq![m.last().name]
            } else {
                Seq::<Seq<char>>::empty()
            },
            None => Seq::<Seq<char>>::empty(),
        }
    }
}

/// The names of the variables that have expired by `today`.
pub fn expired_names(envs: &EnvVec, today: &Date) -> (r: Vec<String>)
    ensures
        string_views(r@) == expired_spec(envs@, *today),
{
    let items = envs.entries();
    let ghost m = envs@;
    let mut r: Vec<String> = Vec::new();
    let mut i: usize = 0;
    while i < items.len()
        invariant
            i <= items@.len(),
            items@.len() == m.len(),
            items@.map_values(|e: crate::vars::Env| e@) == m,
            m == envs@,
            string_views(r@) == expired_spec(m.subrange(0, i as int), *today),
        decreases items@.len() - i,
    {
        let e = &items[i];
        assert(e@ == m[i as int]);
        assert(m.subrange(0, i + 1).drop_last() =~= m.subrange(0, i as int));
        let ghost before = r@;
        match &e.expiration_date {
            Some(d) => if d.is_on_or_before(today) {
                let n = e.name.clone();
                r.push(n);
                assert(string_views(r@) =~= string_views(before).push(n@));
            },
            None => {},
        }
        i = i + 1;
        assert(string_views(r@) =~= expired_spec(m.subrange(0, i as int), *today));
    }
    assert(m.subrange(0, i as int) =~= m);
    r
}

/// Lexicographic order of character sequences, a prefix first.
pub open spec fn lex_le(a: Seq<char>, b: Seq<char>) -> bool
    decreases a.len(),
{
    if a.len() == 0 {
        true
    } else if b.len() == 0 {
        false
    } else if a[0] != b[0] {
        a[0] < b[0]
    } else {
        lex_le(a.drop_first(), b.drop_first())
    }
}

pub open spec fn lex_sorted(s: Seq<Seq<char>>) -> bool {
    forall|i: int, j: int| 0 <= i < j < s.len() ==> lex_le(#[trigger] s[i], #[trigger] s[j])
}

proof fn lemma_lex_total(a: Seq<char>, b: Seq<char>)
    ensures
        lex_le(a, b) || lex_le(b, a),
    decreases a.len(),
{
    if a.len() > 0 && b.len() > 0 && a[0] == b[0] {
        lemma_lex_total(a.drop_first(), b.drop_first());
    }
}

proof fn lemma_lex_trans(a: Seq<char>, b: Seq<char>, c: Seq<char>)
    requires
        lex_le(a, b),
        lex_le(b, c),
    ensures
        lex_le(a, c),
    decreases a.len(),
{
    if a.len() > 0 && b.len() > 0 && c.len() > 0 && a[0] == b[0] && b[0] == c[0] {
        lemma_lex_trans(a.drop_first(), b.drop_first(), c.drop_first());
    }
}

fn lex_le_exec(a: &str, b: &str) -> (r: bool)
    ensures
        r == lex_le(a@, b@),
{
    let n = a.unicode_len();
    let m = b.unicode_len();
    let mut i: usize = 0;
    assert(a@.subrange(0, n as int) =~= a@);
    assert(b@.subrange(0, m as int) =~= b@);
    while i < n && i < m
        invariant
            i <= n,
            i <= m,
            n == a@.len(),
            m == b@.len(),
            lex_le(a@, b@) == lex_le(a@.subrange(i as int, n as int), b@.subrange(i as int, m as int)),
        decreases n - i,
    {
        let x = a.get_char(i);
        let y = b.get_char(i);
        let ghost sa = a@.subrange(i as int, n as int);
        let ghost sb = b@.subrange(i as int, m as int);
        assert(sa[0] == x && sb[0] == y);
        if x != y {
            return x < y;
        }
        assert(sa.drop_first() =~= a@.subrange(i + 1, n as int));
        assert(sb.drop_first() =~= b@.subrange(i + 1, m as int));
        i = i + 1;
    }
    i == n
}

/// The names in lexicographic order, the same names as many times each.
pub fn sort_names(names: Vec<String>) -> (r: Vec<String>)
    ensures
        lex_sorted(string_views(r@)),
        string_views(r@).to_multiset() == string_views(names@).to_multiset(),
{
    let mut r: Vec<String> = Vec::new();
    let mut i: usize = 0;
    assert(string_views(names@).subrange(0, 0) =~= Seq::<Seq<char>>::empty());
    assert(string_views(r@) =~= Seq::<Seq<char>>::empty());
    while i < names.len()
        invariant
            i <= names@.len(),
            lex_sorted(string_views(r@)),
            string_views(r@).to_multiset() == string_views(names@).subrange(0, i as int).to_multiset(),
        decreases names@.len() - i,
    {
        let x = names[i].clone();
        let ghost rv = string_views(r@);
        let mut k: usize = 0;
        while k < r.len() && lex_le_exec(r[k].as_str(), x.as_str())
            invariant
                k <= r@.len(),
                rv == string_views(r@),
                forall|j: int| 0 <= j < k ==> lex_le(#[trigger] rv[j], x@),
            decreases r@.len() - k,
        {
            k = k + 1;
        }
        proof {
            if k < r.len() {
                lemma_lex_total(rv[k as int], x@);
            }
        }
        let ghost before = r@;
        r.insert(k, x);
        proof {
            let nv = string_views(r@);
            assert(nv =~= rv.insert(k as int, x@));
            assert forall|a: int, b: int| 0 <= a < b < nv.len() implies lex_le(#[trigger] nv[a], #[trigger] nv[b]) by {
                if b == k {
                    assert(nv[a] == rv[a]);
                } else if a == k {
                    assert(nv[b] == rv[b - 1]);
                    if b - 1 > k {
                        assert(lex_le(rv[k as int], rv[b - 1]));
                        lemma_lex_trans(x@, rv[k as int], rv[b - 1]);
                    }
                } else if a < k && b > k {
                    assert(nv[a] == rv[a] && nv[b] == rv[b - 1]);
                    assert(lex_le(rv[a], rv[b - 1]));
                } else if a < k {
                    assert(nv[a] == rv[a] && nv[b] == rv[b]);
                } else {
                    assert(nv[a] == rv[a - 1] && nv[b] == rv[b - 1]);
                    assert(lex_le(rv[a - 1], rv[b - 1]));
                }
            }
            assert(x@ == string_views(names@)[i as int]);
            assert(string_views(names@).subrange(0, i + 1) =~= string_views(names@).subrange(0, i as int).push(
                x@,
            ));
            vstd::seq_lib::to_multiset_insert(rv, k as int, x@);
            vstd::seq_lib::to_multiset_build(string_views(names@).subrange(0, i as int), x@);
        }
        i = i + 1;
    }
    assert(string_views(names@).subrange(0, i as int) =~= string_views(names@));
    r
}

} // verus!
