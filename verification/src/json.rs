//! The document model: a dynamically typed JSON tree whose objects keep
//! insertion order. Numbers are carried as their literal decimal text, so a
//! document round-trips without re-interpreting values the pipeline never
//! touches.

use vstd::prelude::*;

verus! {

broadcast use vstd::group_vstd_default;

/// A JSON value. Object entries keep their insertion order; a number holds
/// its literal text exactly as it appeared in the source document.
#[derive(Debug, PartialEq, Eq)]
pub enum Json {
    Null,
    Bool(bool),
    Num(String),
    Str(String),
    Arr(Vec<Json>),
    Obj(Vec<(String, Json)>),
}

/// The mathematical shape of a [`Json`] value.
pub enum JsonView {
    Null,
    Bool(bool),
    Num(Seq<char>),
    Str(Seq<char>),
    Arr(Seq<JsonView>),
    Obj(Seq<(Seq<char>, JsonView)>),
}

pub open spec fn json_view(j: Json) -> JsonView
    decreases j,
{
    match j {
        Json::Null => JsonView::Null,
        Json::Bool(b) => JsonView::Bool(b),
        Json::Num(s) => JsonView::Num(s@),
        Json::Str(s) => JsonView::Str(s@),
        Json::Arr(a) => JsonView::Arr(arr_view(a@)),
        Json::Obj(m) => JsonView::Obj(obj_view(m@)),
    }
}

pub open spec fn arr_view(s: Seq<Json>) -> Seq<JsonView>
    decreases s,
{
    if s.len() <= 0 {
        Seq::empty()
    } else {
        seq![json_view(s[0])] + arr_view(s.drop_first())
    }
}

pub open spec fn obj_view(s: Seq<(String, Json)>) -> Seq<(Seq<char>, JsonView)>
    decreases s,
{
    if s.len() <= 0 {
        Seq::empty()
    } else {
        seq![(s[0].0@, json_view(s[0].1))] + obj_view(s.drop_first())
    }
}

impl View for Json {
    type V = JsonView;

    open spec fn view(&self) -> JsonView {
        json_view(*self)
    }
}

/// `arr_view` maps `json_view` over the elements, position by position.
pub broadcast proof fn lemma_arr_view(s: Seq<Json>)
    ensures
        (#[trigger] arr_view(s)).len() == s.len(),
        forall|i: int| 0 <= i < s.len() ==> arr_view(s)[i] == json_view(s[i]),
    decreases s.len(),
{
    if s.len() > 0 {
        lemma_arr_view(s.drop_first());
    }
}

/// `obj_view` maps the views of key and value over the entries, position by
/// position.
pub broadcast proof fn lemma_obj_view(s: Seq<(String, Json)>)
    ensures
        (#[trigger] obj_view(s)).len() == s.len(),
        forall|i: int| 0 <= i < s.len() ==> obj_view(s)[i] == (s[i].0@, json_view(s[i].1)),
    decreases s.len(),
{
    if s.len() > 0 {
        lemma_obj_view(s.drop_first());
    }
}

/// The value of the first entry with key `k`, searching from the front.
pub open spec fn obj_find(entries: Seq<(Seq<char>, JsonView)>, k: Seq<char>) -> Option<JsonView>
    decreases entries.len(),
{
    if entries.len() == 0 {
        None
    } else if entries[0].0 == k {
        Some(entries[0].1)
    } else {
        obj_find(entries.skip(1), k)
    }
}

/// Replace the value of the first entry with key `k`, keeping its position;
/// append a new entry when no entry has that key.
pub open spec fn obj_put(
    entries: Seq<(Seq<char>, JsonView)>,
    k: Seq<char>,
    v: JsonView,
) -> Seq<(Seq<char>, JsonView)>
    decreases entries.len(),
{
    if entries.len() == 0 {
        seq![(k, v)]
    } else if entries[0].0 == k {
        seq![(entries[0].0, v)] + entries.skip(1)
    } else {
        seq![entries[0]] + obj_put(entries.skip(1), k, v)
    }
}

/// Remove the first entry with key `k`, keeping the order of the others.
pub open spec fn obj_del(
    entries: Seq<(Seq<char>, JsonView)>,
    k: Seq<char>,
) -> Seq<(Seq<char>, JsonView)>
    decreases entries.len(),
{
    if entries.len() == 0 {
        entries
    } else if entries[0].0 == k {
        entries.skip(1)
    } else {
        seq![entries[0]] + obj_del(entries.skip(1), k)
    }
}

impl JsonView {
    /// Look a key up, as reading a field of an object: `None` when the value
    /// is not an object or has no such key.
    pub open spec fn get(self, k: Seq<char>) -> Option<JsonView> {
        match self {
            JsonView::Obj(entries) => obj_find(entries, k),
            _ => None,
        }
    }

    /// Store `v` under `k`. A non-object value is replaced by a fresh
    /// one-entry object.
    pub open spec fn put(self, k: Seq<char>, v: JsonView) -> JsonView {
        match self {
            JsonView::Obj(entries) => JsonView::Obj(obj_put(entries, k, v)),
            _ => JsonView::Obj(seq![(k, v)]),
        }
    }

    /// Drop the entry under `k`; anything that is not an object with that key
    /// is unchanged.
    pub open spec fn del(self, k: Seq<char>) -> JsonView {
        match self {
            JsonView::Obj(entries) => JsonView::Obj(obj_del(entries, k)),
            _ => self,
        }
    }

    pub open spec fn is_nonempty_string(self) -> bool {
        self is Str && self->Str_0.len() > 0
    }
}

/// Whether two string slices hold the same characters.
#[verifier::loop_isolation(false)]
pub(crate) fn str_eq(a: &str, b: &str) -> (r: bool)
    ensures
        r == (a@ == b@),
{
    let na = a.unicode_len();
    let nb = b.unicode_len();
    if na != nb {
        proof {
            if a@ == b@ {
                assert(a@.len() == b@.len());
            }
        }
        return false;
    }
    let mut i: usize = 0;
    while i < na
        invariant
            0 <= i <= na,
            forall|j: int| 0 <= j < i ==> a@[j] == b@[j],
        decreases na - i,
    {
        if a.get_char(i) != b.get_char(i) {
            proof {
                assert(a@[i as int] != b@[i as int]);
                if a@ == b@ {
                    assert(a@[i as int] == b@[i as int]);
                }
            }
            return false;
        }
        i += 1;
    }
    proof {
        assert(a@ =~= b@);
    }
    true
}

/// The position of the first entry with key `k`, if any.
pub(crate) fn find_key(m: &Vec<(String, Json)>, k: &str) -> (r: Option<usize>)
    ensures
        match r {
            Some(i) => i < m.len() && obj_view(m@)[i as int].0 == k@ && (forall|j: int|
                0 <= j < i ==> #[trigger] obj_view(m@)[j].0 != k@),
            None => forall|j: int| 0 <= j < m.len() ==> #[trigger] obj_view(m@)[j].0 != k@,
        },
{
    proof {
        lemma_obj_view(m@);
    }
    let n = m.len();
    for i in 0..n
        invariant
            n == m.len(),
            obj_view(m@).len() == n,
            forall|j: int| 0 <= j < n ==> #[trigger] obj_view(m@)[j].0 == m[j].0@,
            forall|j: int| 0 <= j < i ==> #[trigger] obj_view(m@)[j].0 != k@,
    {
        if str_eq(m[i].0.as_str(), k) {
            return Some(i);
        }
    }
    None
}

/// When the first `i` keys differ from `k` and entry `i` has key `k`,
/// `obj_find` returns entry `i`'s value.
pub proof fn lemma_obj_find_at(entries: Seq<(Seq<char>, JsonView)>, k: Seq<char>, i: int)
    requires
        0 <= i < entries.len(),
        entries[i].0 == k,
        forall|j: int| 0 <= j < i ==> #[trigger] entries[j].0 != k,
    ensures
        obj_find(entries, k) == Some(entries[i].1),
    decreases i,
{
    if i > 0 {
        lemma_obj_find_at(entries.skip(1), k, i - 1);
    }
}

/// When no key equals `k`, `obj_find` returns nothing.
pub proof fn lemma_obj_find_missing(entries: Seq<(Seq<char>, JsonView)>, k: Seq<char>)
    requires
        forall|j: int| 0 <= j < entries.len() ==> #[trigger] entries[j].0 != k,
    ensures
        obj_find(entries, k) is None,
    decreases entries.len(),
{
    if entries.len() > 0 {
        lemma_obj_find_missing(entries.skip(1), k);
    }
}

impl Json {
    /// Read the field `k`: `None` when `self` is not an object or has no such
    /// key.
    pub fn get<'a>(&'a self, k: &str) -> (r: Option<&'a Json>)
        ensures
            match r {
                Some(v) => self@.get(k@) == Some(v@),
                None => self@.get(k@) is None,
            },
    {
        match self {
            Json::Obj(m) => {
                match find_key(m, k) {
                    Some(i) => {
                        proof {
                            lemma_obj_view(m@);
                            lemma_obj_find_at(obj_view(m@), k@, i as int);
                        }
                        Some(&m[i].1)
                    },
                    None => {
                        proof {
                            lemma_obj_view(m@);
                            lemma_obj_find_missing(obj_view(m@), k@);
                        }
                        None
                    },
                }
            },
            _ => None,
        }
    }

    /// Store `v` under `k`, as [`JsonView::put`] describes.
    pub fn put(self, k: &str, v: Json) -> (r: Json)
        ensures
            r@ == self@.put(k@, v@),
    {
        let ghost vv = v@;
        match self {
            Json::Obj(mut m) => {
                let ghost entries = obj_view(m@);
                proof {
                    lemma_obj_view(m@);
                }
                match find_key(&m, k) {
                    Some(i) => {
                        let key = m[i].0.clone();
                        m.set(i, (key, v));
                        proof {
                            lemma_obj_view(m@);
                            lemma_obj_put_at(entries, k@, vv, i as int);
                            assert(obj_view(m@) =~= obj_put(entries, k@, vv));
                        }
                        Json::Obj(m)
                    },
                    None => {
                        m.push((String::from_str(k), v));
                        proof {
                            lemma_obj_view(m@);
                            lemma_obj_put_missing(entries, k@, vv);
                            assert(obj_view(m@) =~= obj_put(entries, k@, vv));
                        }
                        Json::Obj(m)
                    },
                }
            },
            _ => {
                let mut m: Vec<(String, Json)> = Vec::new();
                m.push((String::from_str(k), v));
                proof {
                    lemma_obj_view(m@);
                    assert(obj_view(m@) =~= seq![(k@, vv)]);
                }
                Json::Obj(m)
            },
        }
    }

    /// Drop the entry under `k`, as [`JsonView::del`] describes.
    pub fn del(self, k: &str) -> (r: Json)
        ensures
            r@ == self@.del(k@),
    {
        match self {
            Json::Obj(mut m) => {
                let ghost entries = obj_view(m@);
                proof {
                    lemma_obj_view(m@);
                }
                match find_key(&m, k) {
                    Some(i) => {
                        m.remove(i);
                        proof {
                            lemma_obj_view(m@);
                            lemma_obj_del_at(entries, k@, i as int);
                            assert(obj_view(m@) =~= obj_del(entries, k@));
                        }
                        Json::Obj(m)
                    },
                    None => {
                        proof {
                            lemma_obj_del_missing(entries, k@);
                        }
                        Json::Obj(m)
                    },
                }
            },
            _ => self,
        }
    }
}

/// When the first `i` keys differ from `k` and entry `i` has key `k`,
/// `obj_put` replaces exactly entry `i`'s value.
pub proof fn lemma_obj_put_at(entries: Seq<(Seq<char>, JsonView)>, k: Seq<char>, v: JsonView, i: int)
    requires
        0 <= i < entries.len(),
        entries[i].0 == k,
        forall|j: int| 0 <= j < i ==> #[trigger] entries[j].0 != k,
    ensures
        obj_put(entries, k, v) =~= entries.update(i, (entries[i].0, v)),
    decreases i,
{
    if i == 0 {
        assert(obj_put(entries, k, v) =~= entries.update(0, (entries[0].0, v)));
    } else {
        lemma_obj_put_at(entries.skip(1), k, v, i - 1);
        assert(obj_put(entries, k, v) =~= entries.update(i, (entries[i].0, v)));
    }
}

/// When no key equals `k`, `obj_put` appends one entry at the end.
pub proof fn lemma_obj_put_missing(entries: Seq<(Seq<char>, JsonView)>, k: Seq<char>, v: JsonView)
    requires
        forall|j: int| 0 <= j < entries.len() ==> #[trigger] entries[j].0 != k,
    ensures
        obj_put(entries, k, v) =~= entries.push((k, v)),
    decreases entries.len(),
{
    if entries.len() == 0 {
    } else {
        lemma_obj_put_missing(entries.skip(1), k, v);
        assert(obj_put(entries, k, v) =~= entries.push((k, v)));
    }
}

/// When the first `i` keys differ from `k` and entry `i` has key `k`,
/// `obj_del` removes exactly entry `i`.
pub proof fn lemma_obj_del_at(entries: Seq<(Seq<char>, JsonView)>, k: Seq<char>, i: int)
    requires
        0 <= i < entries.len(),
        entries[i].0 == k,
        forall|j: int| 0 <= j < i ==> #[trigger] entries[j].0 != k,
    ensures
        obj_del(entries, k) =~= entries.subrange(0, i) + entries.skip(i + 1),
    decreases i,
{
    if i == 0 {
        assert(obj_del(entries, k) =~= entries.subrange(0, 0) + entries.skip(1));
    } else {
        lemma_obj_del_at(entries.skip(1), k, i - 1);
        assert(obj_del(entries, k) =~= entries.subrange(0, i) + entries.skip(i + 1));
    }
}

/// When no key equals `k`, `obj_del` changes nothing.
pub proof fn lemma_obj_del_missing(entries: Seq<(Seq<char>, JsonView)>, k: Seq<char>)
    requires
        forall|j: int| 0 <= j < entries.len() ==> #[trigger] entries[j].0 != k,
    ensures
        obj_del(entries, k) =~= entries,
    decreases entries.len(),
{
    if entries.len() == 0 {
    } else {
        lemma_obj_del_missing(entries.skip(1), k);
        assert(obj_del(entries, k) =~= entries);
    }
}

/// Storing under one key leaves every other key's lookup unchanged.
pub proof fn lemma_find_put_other(
    entries: Seq<(Seq<char>, JsonView)>,
    k1: Seq<char>,
    k2: Seq<char>,
    v: JsonView,
)
    requires
        k1 != k2,
    ensures
        obj_find(obj_put(entries, k2, v), k1) == obj_find(entries, k1),
    decreases entries.len(),
{
    if entries.len() == 0 {
        assert(obj_put(entries, k2, v) =~= seq![(k2, v)]);
        assert(obj_find(seq![(k2, v)], k1) == obj_find(seq![(k2, v)].skip(1), k1));
        assert(seq![(k2, v)].skip(1) =~= Seq::<(Seq<char>, JsonView)>::empty());
    } else if entries[0].0 == k2 {
        let r = seq![(entries[0].0, v)] + entries.skip(1);
        assert(r.skip(1) =~= entries.skip(1));
    } else {
        lemma_find_put_other(entries.skip(1), k1, k2, v);
        let r = seq![entries[0]] + obj_put(entries.skip(1), k2, v);
        assert(r.skip(1) =~= obj_put(entries.skip(1), k2, v));
        assert(r[0] == entries[0]);
    }
}

/// Looking up the key just stored gives the stored value.
pub proof fn lemma_find_put_same(entries: Seq<(Seq<char>, JsonView)>, k: Seq<char>, v: JsonView)
    ensures
        obj_find(obj_put(entries, k, v), k) == Some(v),
    decreases entries.len(),
{
    if entries.len() == 0 {
        assert(obj_put(entries, k, v) =~= seq![(k, v)]);
    } else if entries[0].0 == k {
        let r = seq![(entries[0].0, v)] + entries.skip(1);
        assert(r[0] == (entries[0].0, v));
    } else {
        lemma_find_put_same(entries.skip(1), k, v);
        let r = seq![entries[0]] + obj_put(entries.skip(1), k, v);
        assert(r.skip(1) =~= obj_put(entries.skip(1), k, v));
        assert(r[0] == entries[0]);
    }
}

/// Storing the value a key already has changes nothing.
pub proof fn lemma_put_same_value(entries: Seq<(Seq<char>, JsonView)>, k: Seq<char>, v: JsonView)
    requires
        obj_find(entries, k) == Some(v),
    ensures
        obj_put(entries, k, v) == entries,
    decreases entries.len(),
{
    if entries.len() == 0 {
    } else if entries[0].0 == k {
        assert(obj_put(entries, k, v) =~= entries);
    } else {
        lemma_put_same_value(entries.skip(1), k, v);
        assert(obj_put(entries, k, v) =~= entries);
    }
}

/// A failed lookup means no entry has the key.
pub proof fn lemma_find_none_missing(entries: Seq<(Seq<char>, JsonView)>, k: Seq<char>)
    requires
        obj_find(entries, k) is None,
    ensures
        forall|j: int| 0 <= j < entries.len() ==> (#[trigger] entries[j]).0 != k,
    decreases entries.len(),
{
    if entries.len() > 0 {
        lemma_find_none_missing(entries.skip(1), k);
        assert forall|j: int| 0 <= j < entries.len() implies (#[trigger] entries[j]).0 != k by {
            if j > 0 {
                assert(entries.skip(1)[j - 1] == entries[j]);
            }
        }
    }
}

/// Dropping one key leaves every other key's lookup unchanged.
pub proof fn lemma_find_del_other(
    entries: Seq<(Seq<char>, JsonView)>,
    k1: Seq<char>,
    k2: Seq<char>,
)
    requires
        k1 != k2,
    ensures
        obj_find(obj_del(entries, k2), k1) == obj_find(entries, k1),
    decreases entries.len(),
{
    if entries.len() == 0 {
    } else if entries[0].0 == k2 {
    } else {
        lemma_find_del_other(entries.skip(1), k1, k2);
        let r = seq![entries[0]] + obj_del(entries.skip(1), k2);
        assert(r.skip(1) =~= obj_del(entries.skip(1), k2));
        assert(r[0] == entries[0]);
    }
}

/// No two entries share a key.
pub open spec fn nodup_keys(entries: Seq<(Seq<char>, JsonView)>) -> bool {
    forall|i: int, j: int|
        0 <= i < j < entries.len() ==> (#[trigger] entries[i]).0 != (#[trigger] entries[j]).0
}

/// Dropping a key from a duplicate-free object really leaves no such key.
pub proof fn lemma_del_removes(entries: Seq<(Seq<char>, JsonView)>, k: Seq<char>)
    requires
        nodup_keys(entries),
    ensures
        obj_find(obj_del(entries, k), k) is None,
    decreases entries.len(),
{
    if entries.len() == 0 {
    } else if entries[0].0 == k {
        assert(forall|j: int|
            0 <= j < entries.len() - 1 ==> (#[trigger] entries.skip(1)[j]).0 == entries[j + 1].0);
        lemma_obj_find_missing(entries.skip(1), k);
    } else {
        assert(nodup_keys(entries.skip(1))) by {
            assert(forall|j: int|
                0 <= j < entries.len() - 1 ==> #[trigger] entries.skip(1)[j] == entries[j + 1]);
        }
        lemma_del_removes(entries.skip(1), k);
        let r = seq![entries[0]] + obj_del(entries.skip(1), k);
        assert(r.skip(1) =~= obj_del(entries.skip(1), k));
        assert(r[0] == entries[0]);
    }
}

/// Storing a value keeps the keys free of duplicates.
pub proof fn lemma_put_nodup(entries: Seq<(Seq<char>, JsonView)>, k: Seq<char>, v: JsonView)
    requires
        nodup_keys(entries),
    ensures
        nodup_keys(obj_put(entries, k, v)),
    decreases entries.len(),
{
    if entries.len() == 0 {
        assert(obj_put(entries, k, v) =~= seq![(k, v)]);
    } else if entries[0].0 == k {
        let r = seq![(entries[0].0, v)] + entries.skip(1);
        assert forall|i: int, j: int|
            0 <= i < j < r.len() implies (#[trigger] r[i]).0 != (#[trigger] r[j]).0 by {
            assert(r[i] == (if i == 0 { (entries[0].0, v) } else { entries[i] }) || r[i]
                == entries[i]);
            if i == 0 {
                assert(r[j] == entries[j]);
            } else {
                assert(r[i] == entries[i] && r[j] == entries[j]);
            }
        }
    } else {
        assert(nodup_keys(entries.skip(1))) by {
            assert(forall|j: int|
                0 <= j < entries.len() - 1 ==> #[trigger] entries.skip(1)[j] == entries[j + 1]);
        }
        lemma_put_nodup(entries.skip(1), k, v);
        let rest = obj_put(entries.skip(1), k, v);
        lemma_put_keys(entries.skip(1), k, v);
        let r = seq![entries[0]] + rest;
        assert forall|i: int, j: int|
            0 <= i < j < r.len() implies (#[trigger] r[i]).0 != (#[trigger] r[j]).0 by {
            if i == 0 {
                assert(r[j] == rest[j - 1]);
            } else {
                assert(r[i] == rest[i - 1] && r[j] == rest[j - 1]);
            }
        }
    }
}

/// The keys after a store are the old keys, plus possibly `k`.
pub proof fn lemma_put_keys(entries: Seq<(Seq<char>, JsonView)>, k: Seq<char>, v: JsonView)
    ensures
        forall|j: int|
            0 <= j < obj_put(entries, k, v).len() ==> ((#[trigger] obj_put(entries, k, v)[j]).0
                == k || exists|i: int|
                0 <= i < entries.len() && (#[trigger] entries[i]).0 == obj_put(
                    entries,
                    k,
                    v,
                )[j].0),
    decreases entries.len(),
{
    if entries.len() == 0 {
    } else if entries[0].0 == k {
        let r = seq![(entries[0].0, v)] + entries.skip(1);
        assert forall|j: int|
            0 <= j < r.len() implies ((#[trigger] r[j]).0 == k || exists|i: int|
                0 <= i < entries.len() && (#[trigger] entries[i]).0 == r[j].0) by {
            if j > 0 {
                assert(r[j] == entries[j]);
            }
        }
    } else {
        lemma_put_keys(entries.skip(1), k, v);
        let rest = obj_put(entries.skip(1), k, v);
        let r = seq![entries[0]] + rest;
        assert forall|j: int|
            0 <= j < r.len() implies ((#[trigger] r[j]).0 == k || exists|i: int|
                0 <= i < entries.len() && (#[trigger] entries[i]).0 == r[j].0) by {
            if j == 0 {
                assert(entries[0].0 == r[0].0);
            } else {
                assert(r[j] == rest[j - 1]);
                if rest[j - 1].0 != k {
                    let i0 = choose|i0: int|
                        0 <= i0 < entries.skip(1).len() && entries.skip(1)[i0].0 == rest[j - 1].0;
                    assert(entries[i0 + 1].0 == r[j].0);
                }
            }
        }
    }
}

/// Dropping a key keeps the keys free of duplicates.
pub proof fn lemma_del_nodup(entries: Seq<(Seq<char>, JsonView)>, k: Seq<char>)
    requires
        nodup_keys(entries),
    ensures
        nodup_keys(obj_del(entries, k)),
    decreases entries.len(),
{
    if entries.len() == 0 {
    } else if entries[0].0 == k {
        assert(forall|j: int|
            0 <= j < entries.len() - 1 ==> #[trigger] entries.skip(1)[j] == entries[j + 1]);
    } else {
        assert(nodup_keys(entries.skip(1))) by {
            assert(forall|j: int|
                0 <= j < entries.len() - 1 ==> #[trigger] entries.skip(1)[j] == entries[j + 1]);
        }
        lemma_del_nodup(entries.skip(1), k);
        lemma_del_keys(entries.skip(1), k);
        let rest = obj_del(entries.skip(1), k);
        let r = seq![entries[0]] + rest;
        assert forall|i: int, j: int|
            0 <= i < j < r.len() implies (#[trigger] r[i]).0 != (#[trigger] r[j]).0 by {
            if i == 0 {
                assert(r[j] == rest[j - 1]);
            } else {
                assert(r[i] == rest[i - 1] && r[j] == rest[j - 1]);
            }
        }
    }
}

/// Every key after a drop was a key before.
pub proof fn lemma_del_keys(entries: Seq<(Seq<char>, JsonView)>, k: Seq<char>)
    ensures
        forall|j: int|
            0 <= j < obj_del(entries, k).len() ==> exists|i: int|
                0 <= i < entries.len() && (#[trigger] entries[i]).0 == (#[trigger] obj_del(
                    entries,
                    k,
                )[j]).0,
    decreases entries.len(),
{
    if entries.len() == 0 {
    } else if entries[0].0 == k {
        assert forall|j: int|
            0 <= j < obj_del(entries, k).len() implies exists|i: int|
                0 <= i < entries.len() && (#[trigger] entries[i]).0 == (#[trigger] obj_del(
                    entries,
                    k,
                )[j]).0 by {
            assert(obj_del(entries, k)[j] == entries[j + 1]);
        }
    } else {
        lemma_del_keys(entries.skip(1), k);
        let rest = obj_del(entries.skip(1), k);
        let r = seq![entries[0]] + rest;
        assert forall|j: int|
            0 <= j < r.len() implies exists|i: int|
                0 <= i < entries.len() && (#[trigger] entries[i]).0 == (#[trigger] r[j]).0 by {
            if j == 0 {
                assert(entries[0].0 == r[0].0);
            } else {
                assert(r[j] == rest[j - 1]);
                let i0 = choose|i0: int|
                    0 <= i0 < entries.skip(1).len() && entries.skip(1)[i0].0 == rest[j - 1].0;
                assert(entries[i0 + 1].0 == r[j].0);
            }
        }
    }
}

} // verus!
