use vstd::prelude::*;

use crate::dotenv::{first_index, lemma_first_index, pair_views};
use crate::payload::{find_char, substring};
use crate::vars::string_eq;

verus! {

/// The `k`-th `:`-separated field of a line, empty where the line has fewer.
pub open spec fn field(s: Seq<char>, k: nat) -> Seq<char>
    decreases k,
{
    let e = first_index(s, ':');
    if k == 0 {
        s.subrange(0, e as int)
    } else if e >= s.len() {
        Seq::<char>::empty()
    } else {
        field(s.subrange(e + 1 as int, s.len() as int), (k - 1) as nat)
    }
}

/// What is read so far from a key listing: the fingerprint waiting for its
/// user id, and the (label, fingerprint) pairs found.
pub type ListState = (Option<Seq<char>>, Seq<(Seq<char>, Seq<char>)>);

/// One line of the agent's colon-separated key listing: a `sec` record
/// opens a new secret key, its first `fpr` record gives the fingerprint,
/// and the next `uid` record gives the label and completes the pair.
pub open spec fn key_line(st: ListState, line: Seq<char>) -> ListState {
    let tag = field(line, 0);
    if tag == seq!['s', 'e', 'c'] {
        (None, st.1)
    } else if tag == seq!['f', 'p', 'r'] && st.0 is None {
        (Some(field(line, 9)), st.1)
    } else if tag == seq!['u', 'i', 'd'] && st.0 is Some {
        (None, st.1.push((field(line, 9), st.0->0)))
    } else {
        st
    }
}

/// The state after the lines of `t`, in order, starting from `st`.
pub open spec fn key_lines(t: Seq<char>, st: ListState) -> ListState
    decreases t.len(),
{
    if t.len() == 0 {
        st
    } else {
        let k = first_index(t, '\n');
        let st2 = key_line(st, t.subrange(0, k as int));
        if k < t.len() {
            key_lines(t.subrange(k + 1 as int, t.len() as int), st2)
        } else {
            st2
        }
    }
}

fn field_of(line: &str, k: usize) -> (r: String)
    ensures
        r@ == field(line@, k as nat),
{
    let n = line.unicode_len();
    let mut pos: usize = 0;
    let mut j: usize = k;
    assert(line@.subrange(0, n as int) =~= line@);
    while j > 0
        invariant
            pos <= n,
            n == line@.len(),
            j <= k,
            field(line@, k as nat) == field(line@.subrange(pos as int, n as int), j as nat),
        decreases j,
    {
        let ghost rest = line@.subrange(pos as int, n as int);
        let e = find_char(line, n, pos, ':');
        proof {
            lemma_first_index(rest, ':', e - pos);
        }
        if e == n {
            return String::new();
        }
        assert(rest.subrange(e - pos + 1, rest.len() as int) =~= line@.subrange(e + 1, n as int));
        pos = e + 1;
        j = j - 1;
    }
    let ghost rest = line@.subrange(pos as int, n as int);
    let e = find_char(line, n, pos, ':');
    proof {
        lemma_first_index(rest, ':', e - pos);
    }
    let r = substring(line, pos, e);
    assert(r@ =~= rest.subrange(0, e - pos));
    r
}

fn is_tag(s: &String, t: &str) -> (r: bool)
    ensures
        r == (s@ == t@),
{
    string_eq(s, t)
}

/// The secret keys that the agent lists, as (label, fingerprint) pairs in
/// the listing's order.
pub fn parse_key_list(text: &str) -> (r: Vec<(String, String)>)
    ensures
        pair_views(r@) == key_lines(text@, (None, Seq::empty())).1,
{
    let n = text.unicode_len();
    let mut r: Vec<(String, String)> = Vec::new();
    let mut fp: Option<String> = None;
    let mut pos: usize = 0;
    assert(text@.subrange(0, n as int) =~= text@);
    assert(pair_views(r@) =~= Seq::<(Seq<char>, Seq<char>)>::empty());
    proof {
        reveal_strlit("sec");
        reveal_strlit("fpr");
        reveal_strlit("uid");
    }
    while pos < n
        invariant
            pos <= n,
            n == text@.len(),
            "sec"@ == seq!['s', 'e', 'c'],
            "fpr"@ == seq!['f', 'p', 'r'],
            "uid"@ == seq!['u', 'i', 'd'],
            key_lines(text@.subrange(pos as int, n as int), (crate::vars::opt_view(fp), pair_views(r@)))
                == key_lines(text@, (None, Seq::empty())),
        decreases n - pos,
    {
        let ghost rest = text@.subrange(pos as int, n as int);
        let eol = find_char(text, n, pos, '\n');
        let line = substring(text, pos, eol);
        proof {
            lemma_first_index(rest, '\n', eol - pos);
            assert(rest.subrange(0, eol - pos) =~= line@);
            if eol < n {
                assert(rest.subrange(eol - pos + 1, rest.len() as int) =~= text@.subrange(eol + 1, n as int));
            }
        }
        let ghost st = (crate::vars::opt_view(fp), pair_views(r@));
        let tag = field_of(line.as_str(), 0);
        if is_tag(&tag, "sec") {
            fp = None;
        } else if is_tag(&tag, "fpr") && fp.is_none() {
            fp = Some(field_of(line.as_str(), 9));
        } else if is_tag(&tag, "uid") && fp.is_some() {
            let label = field_of(line.as_str(), 9);
            let f = fp.unwrap();
            let ghost before = pair_views(r@);
            r.push((label, f));
            assert(pair_views(r@) =~= before.push((label@, f@)));
            fp = None;
        }
        assert((crate::vars::opt_view(fp), pair_views(r@)) == key_line(st, line@));
        pos = if eol < n { eol + 1 } else { n };
        assert(eol == n ==> text@.subrange(pos as int, n as int) =~= Seq::<char>::empty());
    }
    r
}

} // verus!
