use vstd::prelude::*;

use crate::date::Date;
use crate::error::StoreError;

verus! {

/// What a variable is, as a mathematical value.
pub struct EnvModel {
    pub name: Seq<char>,
    pub value: Seq<char>,
    pub comment: Option<Seq<char>>,
    pub expires: Option<Date>,
}

/// One environment variable with its optional metadata.
#[derive(Debug)]
pub struct Env {
    pub name: String,
    pub value: String,
    pub comment: Option<String>,
    pub expiration_date: Option<Date>,
}

pub open spec fn opt_view(o: Option<String>) -> Option<Seq<char>> {
    match o {
        Some(s) => Some(s@),
        None => None,
    }
}

impl View for Env {
    type V = EnvModel;

    open spec fn view(&self) -> EnvModel {
        EnvModel {
            name: self.name@,
            value: self.value@,
            comment: opt_view(self.comment),
            expires: self.expiration_date,
        }
    }
}

fn copy_opt(o: &Option<String>) -> (r: Option<String>)
    ensures
        opt_view(r) == opt_view(*o),
{
    match o {
        Some(s) => Some(s.clone()),
        None => None,
    }
}

impl Env {
    /// A variable from its four fields.
    pub fn new(name: String, value: String, comment: Option<String>, expiration_date: Option<Date>) -> (r: Env)
        ensures
            r.name == name,
            r.value == value,
            r.comment == comment,
            r.expiration_date == expiration_date,
    {
        Env { name, value, comment, expiration_date }
    }

    /// A copy of this variable.
    pub fn duplicate(&self) -> (r: Env)
        ensures
            r@ == self@,
    {
        Env {
            name: self.name.clone(),
            value: self.value.clone(),
            comment: copy_opt(&self.comment),
            expiration_date: self.expiration_date,
        }
    }
}

/// The characters of each string.
pub open spec fn string_views(v: Seq<String>) -> Seq<Seq<char>> {
    v.map_values(|s: String| s@)
}

/// Whether some variable of `m` has the name `n`.
pub open spec fn has_name(m: Seq<EnvModel>, n: Seq<char>) -> bool {
    exists|i: int| 0 <= i < m.len() && #[trigger] m[i].name == n
}

/// No two variables share a name.
pub open spec fn unique_names(m: Seq<EnvModel>) -> bool {
    forall|i: int, j: int| 0 <= i < j < m.len() ==> #[trigger] m[i].name != #[trigger] m[j].name
}

/// The position of the variable named `n`.
pub open spec fn index_of(m: Seq<EnvModel>, n: Seq<char>) -> int {
    choose|i: int| 0 <= i < m.len() && #[trigger] m[i].name == n
}

/// The names of `m`, in order.
pub open spec fn names(m: Seq<EnvModel>) -> Seq<Seq<char>> {
    m.map_values(|e: EnvModel| e.name)
}

/// The value of the variable named `n`, if there is one.
pub open spec fn lookup(m: Seq<EnvModel>, n: Seq<char>) -> Option<Seq<char>> {
    if has_name(m, n) {
        Some(m[index_of(m, n)].value)
    } else {
        None
    }
}

/// The set after an insertion of `e`.
pub open spec fn inserted(m: Seq<EnvModel>, e: EnvModel) -> Result<Seq<EnvModel>, StoreError> {
    if has_name(m, e.name) {
        Err(StoreError::Duplicate)
    } else {
        Ok(m.push(e))
    }
}

/// The set after the variable named `n` is given the value `v`.
pub open spec fn edited(m: Seq<EnvModel>, n: Seq<char>, v: Seq<char>) -> Result<Seq<EnvModel>, StoreError> {
    if has_name(m, n) {
        let i = index_of(m, n);
        Ok(m.update(i, EnvModel { value: v, ..m[i] }))
    } else {
        Err(StoreError::Missing)
    }
}

/// The set after the variable named `n` is removed.
pub open spec fn removed(m: Seq<EnvModel>, n: Seq<char>) -> Result<Seq<EnvModel>, StoreError> {
    if has_name(m, n) {
        Ok(m.remove(index_of(m, n)))
    } else {
        Err(StoreError::Missing)
    }
}

/// An ordered set of variables with unique names.
#[derive(Debug)]
pub struct EnvVec {
    envs: Vec<Env>,
}

impl View for EnvVec {
    type V = Seq<EnvModel>;

    closed spec fn view(&self) -> Seq<EnvModel> {
        self.envs@.map_values(|e: Env| e@)
    }
}

impl EnvVec {
    pub open spec fn wf(&self) -> bool {
        unique_names(self@)
    }

    /// An empty set.
    pub fn new() -> (r: EnvVec)
        ensures
            r@ == Seq::<EnvModel>::empty(),
            r.wf(),
    {
        EnvVec { envs: Vec::new() }
    }

    pub fn len(&self) -> (r: usize)
        ensures
            r == self@.len(),
    {
        self.envs.len()
    }

    pub fn is_empty(&self) -> (r: bool)
        ensures
            r == (self@.len() == 0),
    {
        self.envs.len() == 0
    }

    /// The variables, in insertion order.
    pub fn entries(&self) -> (r: &[Env])
        ensures
            r@.map_values(|e: Env| e@) == self@,
    {
        self.envs.as_slice()
    }

    /// The position of the variable named `name`.
    pub fn position(&self, name: &str) -> (r: Option<usize>)
        requires
            self.wf(),
        ensures
            r is None <==> !has_name(self@, name@),
            r matches Some(i) ==> i < self@.len() && self@[i as int].name == name@ && i == index_of(
                self@,
                name@,
            ),
    {
        let mut i: usize = 0;
        while i < self.envs.len()
            invariant
                i <= self@.len(),
                self.wf(),
                self@.len() == self.envs@.len(),
                forall|j: int| 0 <= j < i ==> self@[j].name != name@,
            decreases self@.len() - i,
        {
            if string_eq(&self.envs[i].name, name) {
                proof {
                    assert(self@[i as int].name == name@);
                    assert(has_name(self@, name@));
                    let k = index_of(self@, name@);
                    if k < i as int {
                        assert(self@[k].name != self@[i as int].name);
                    } else if k > i as int {
                        assert(self@[i as int].name != self@[k].name);
                    }
                }
                return Some(i);
            }
            i = i + 1;
        }
        None
    }

    pub fn contains(&self, name: &str) -> (r: bool)
        requires
            self.wf(),
        ensures
            r == has_name(self@, name@),
    {
        self.position(name).is_some()
    }

    /// The value of the variable named `name`.
    pub fn get(&self, name: &str) -> (r: Option<&String>)
        requires
            self.wf(),
        ensures
            match r {
                Some(v) => lookup(self@, name@) == Some(v@),
                None => lookup(self@, name@) is None,
            },
    {
        match self.position(name) {
            Some(i) => Some(&self.envs[i].value),
            None => None,
        }
    }

    /// The names, in insertion order.
    pub fn keys(&self) -> (r: Vec<String>)
        ensures
            string_views(r@) == names(self@),
    {
        let mut r: Vec<String> = Vec::new();
        let mut i: usize = 0;
        while i < self.envs.len()
            invariant
                i <= self@.len(),
                self@.len() == self.envs@.len(),
                string_views(r@) == names(self@).subrange(0, i as int),
            decreases self@.len() - i,
        {
            let ghost before = r@;
            let n = self.envs[i].name.clone();
            assert(n@ == self@[i as int].name);
            r.push(n);
            assert(r@ == before.push(n));
            i = i + 1;
            assert(string_views(r@) =~= string_views(before).push(n@));
            assert(string_views(r@) =~= names(self@).subrange(0, i as int));
        }
        assert(names(self@).subrange(0, i as int) =~= names(self@));
        r
    }

    /// Appends a variable; fails with `Duplicate` where its name is taken.
    pub fn insert(&mut self, e: Env) -> (r: Result<(), StoreError>)
        requires
            old(self).wf(),
        ensures
            final(self).wf(),
            match inserted(old(self)@, e@) {
                Ok(m) => r is Ok && final(self)@ == m,
                Err(err) => r == Err::<(), StoreError>(err) && final(self)@ == old(self)@,
            },
    {
        if self.contains(e.name.as_str()) {
            return Err(StoreError::Duplicate);
        }
        let ghost m = self@;
        self.envs.push(e);
        assert(self@ =~= m.push(e@));
        Ok(())
    }

    /// Gives the variable named `name` a new value, in place; fails with
    /// `Missing` where there is none.
    pub fn edit(&mut self, name: &str, value: String) -> (r: Result<(), StoreError>)
        requires
            old(self).wf(),
        ensures
            final(self).wf(),
            match edited(old(self)@, name@, value@) {
                Ok(m) => r is Ok && final(self)@ == m,
                Err(err) => r == Err::<(), StoreError>(err) && final(self)@ == old(self)@,
            },
    {
        match self.position(name) {
            None => Err(StoreError::Missing),
            Some(i) => {
                let ghost m = self@;
                self.envs[i].value = value;
                assert(self@ =~= m.update(i as int, EnvModel { value: value@, ..m[i as int] }));
                Ok(())
            },
        }
    }

    /// Removes the variable named `name`, keeping the order of the others;
    /// fails with `Missing` where there is none.
    pub fn remove(&mut self, name: &str) -> (r: Result<(), StoreError>)
        requires
            old(self).wf(),
        ensures
            final(self).wf(),
            match removed(old(self)@, name@) {
                Ok(m) => r is Ok && final(self)@ == m,
                Err(err) => r == Err::<(), StoreError>(err) && final(self)@ == old(self)@,
            },
    {
        match self.position(name) {
            None => Err(StoreError::Missing),
            Some(i) => {
                let ghost m = self@;
                self.envs.remove(i);
                assert(self@ =~= m.remove(i as int));
                Ok(())
            },
        }
    }
}

/// Whether two strings hold the same characters.
pub(crate) fn string_eq(a: &String, b: &str) -> (r: bool)
    ensures
        r == (a@ == b@),
{
    let x = a.as_str();
    let n = x.unicode_len();
    if n != b.unicode_len() {
        return false;
    }
    let mut i: usize = 0;
    while i < n
        invariant
            i <= n,
            n == x@.len(),
            n == b@.len(),
            x@ == a@,
            forall|j: int| 0 <= j < i ==> x@[j] == b@[j],
        decreases n - i,
    {
        if x.get_char(i) != b.get_char(i) {
            return false;
        }
        i = i + 1;
    }
    assert(x@ =~= b@);
    true
}

} // verus!
