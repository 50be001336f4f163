//! Reference enumerators. Every glTF resource kind is referenced from a fixed
//! family of JSON paths; a path is a list of steps, and one engine walks the
//! document along a path, reading or rewriting the numeric value at its end.
//! Missing keys, wrongly typed nodes and non-numeric leaves are skipped.

use vstd::prelude::*;
use crate::json::{Json, JsonView, json_view, arr_view, obj_view, obj_find, obj_put,
    lemma_arr_view, lemma_obj_view, lemma_obj_find_at, lemma_obj_find_missing,
    lemma_obj_put_at, lemma_find_put_same, find_key};
use crate::numtext::{text_u64, u64_text, parse_u64, format_u64};

verus! {

broadcast use vstd::group_vstd_default;

/// One step of a reference path.
pub enum Step {
    /// Descend into this key of an object.
    Key(&'static str),
    /// Visit every element of an array.
    Each,
    /// Visit every value of an object.
    Vals,
}

/// The mathematical shape of a [`Step`].
pub enum StepV {
    Key(Seq<char>),
    Each,
    Vals,
}

pub open spec fn step_view(s: Step) -> StepV {
    match s {
        Step::Key(k) => StepV::Key(k@),
        Step::Each => StepV::Each,
        Step::Vals => StepV::Vals,
    }
}

pub open spec fn path_view(p: Seq<Step>) -> Seq<StepV> {
    p.map_values(|s: Step| step_view(s))
}

/// The values of an object's entries, in order.
pub open spec fn vals_of(es: Seq<(Seq<char>, JsonView)>) -> Seq<JsonView> {
    es.map_values(|e: (Seq<char>, JsonView)| e.1)
}

/// The number texts at the reference sites a path reaches, in traversal
/// order.
pub open spec fn sites(j: JsonView, path: Seq<StepV>) -> Seq<Seq<char>>
    decreases path.len(), 0int,
{
    if path.len() == 0 {
        match j {
            JsonView::Num(s) => seq![s],
            _ => Seq::empty(),
        }
    } else {
        match path[0] {
            StepV::Key(k) => match j {
                JsonView::Obj(es) => match obj_find(es, k) {
                    Some(v) => sites(v, path.skip(1)),
                    None => Seq::empty(),
                },
                _ => Seq::empty(),
            },
            StepV::Each => match j {
                JsonView::Arr(elems) => sites_seq(elems, path.skip(1)),
                _ => Seq::empty(),
            },
            StepV::Vals => match j {
                JsonView::Obj(es) => sites_seq(vals_of(es), path.skip(1)),
                _ => Seq::empty(),
            },
        }
    }
}

pub open spec fn sites_seq(elems: Seq<JsonView>, path: Seq<StepV>) -> Seq<Seq<char>>
    decreases path.len(), elems.len(),
{
    if elems.len() == 0 {
        Seq::empty()
    } else {
        sites(elems[0], path) + sites_seq(elems.drop_first(), path)
    }
}

/// How many entries of `t` are below `v`.
pub open spec fn count_lt(t: Seq<u64>, v: u64) -> int
    decreases t.len(),
{
    if t.len() == 0 {
        0int
    } else {
        (if t[0] < v {
            1int
        } else {
            0int
        }) + count_lt(t.drop_first(), v)
    }
}

/// What one reference site becomes: an index found in the table moves to its
/// rank there; every other text stays.
pub open spec fn remap1(t: Seq<u64>, s: Seq<char>) -> Seq<char> {
    match text_u64(s) {
        Some(v) => if t.contains(v) {
            u64_text(count_lt(t, v))
        } else {
            s
        },
        None => s,
    }
}

/// The document with every reference site of `path` rewritten by
/// [`remap1`]; everything else is unchanged.
pub open spec fn remap(j: JsonView, path: Seq<StepV>, t: Seq<u64>) -> JsonView
    decreases path.len(), 0int,
{
    if path.len() == 0 {
        match j {
            JsonView::Num(s) => JsonView::Num(remap1(t, s)),
            _ => j,
        }
    } else {
        match path[0] {
            StepV::Key(k) => match j {
                JsonView::Obj(es) => match obj_find(es, k) {
                    Some(v) => JsonView::Obj(obj_put(es, k, remap(v, path.skip(1), t))),
                    None => j,
                },
                _ => j,
            },
            StepV::Each => match j {
                JsonView::Arr(elems) => JsonView::Arr(remap_seq(elems, path.skip(1), t)),
                _ => j,
            },
            StepV::Vals => match j {
                JsonView::Obj(es) => JsonView::Obj(remap_vals(es, path.skip(1), t)),
                _ => j,
            },
        }
    }
}

pub open spec fn remap_seq(elems: Seq<JsonView>, path: Seq<StepV>, t: Seq<u64>) -> Seq<JsonView>
    decreases path.len(), elems.len(),
{
    if elems.len() == 0 {
        elems
    } else {
        seq![remap(elems[0], path, t)] + remap_seq(elems.drop_first(), path, t)
    }
}

pub open spec fn remap_vals(
    es: Seq<(Seq<char>, JsonView)>,
    path: Seq<StepV>,
    t: Seq<u64>,
) -> Seq<(Seq<char>, JsonView)>
    decreases path.len(), es.len(),
{
    if es.len() == 0 {
        es
    } else {
        seq![(es[0].0, remap(es[0].1, path, t))] + remap_vals(es.drop_first(), path, t)
    }
}

/// The distinct index values among a list of site texts.
pub open spec fn vals_used(texts: Seq<Seq<char>>) -> Set<u64>
    decreases texts.len(),
{
    if texts.len() == 0 {
        Set::empty()
    } else {
        let rest = vals_used(texts.drop_first());
        match text_u64(texts[0]) {
            Some(v) => rest.insert(v),
            None => rest,
        }
    }
}

/// The views of a list of strings.
pub open spec fn strs(v: Seq<String>) -> Seq<Seq<char>> {
    v.map_values(|s: String| s@)
}

/// Copy the number texts at the reference sites of `path` (from its `i`-th
/// step on), in traversal order.
pub fn collect_texts(j: &Json, path: &Vec<Step>, i: usize) -> (r: Vec<String>)
    requires
        i <= path@.len(),
    ensures
        strs(r@) == sites(j@, path_view(path@).skip(i as int)),
    decreases path@.len() - i,
{
    let ghost p = path_view(path@).skip(i as int);
    let mut out: Vec<String> = Vec::new();
    if i == path.len() {
        match j {
            Json::Num(s) => {
                out.push(s.clone());
                proof {
                    assert(strs(out@) =~= sites(j@, p));
                }
            },
            _ => {
                proof {
                    assert(strs(out@) =~= sites(j@, p));
                }
            },
        }
        return out;
    }
    let i1 = i + 1;
    proof {
        assert(p[0] == step_view(path@[i as int]));
        assert(p.skip(1) =~= path_view(path@).skip(i + 1));
    }
    match &path[i] {
        Step::Key(k) => {
            match j.get(k) {
                Some(child) => {
                    let sub = collect_texts(child, path, i1);
                    proof {
                        assert(strs(sub@) =~= sites(j@, p));
                    }
                    return sub;
                },
                None => {
                    proof {
                        assert(strs(out@) =~= sites(j@, p));
                    }
                    return out;
                },
            }
        },
        Step::Each => {
            match j {
                Json::Arr(elems) => {
                    let ghost ev = arr_view(elems@);
                    proof {
                        lemma_arr_view(elems@);
                        assert(ev.skip(0) =~= ev);
                    }
                    let n = elems.len();
                    let mut idx: usize = 0;
                    while idx < n
                        invariant
                            n == elems@.len(),
                            idx <= n,
                            ev == arr_view(elems@),
                            ev.len() == n,
                            forall|q: int| 0 <= q < n ==> ev[q] == elems@[q]@,
                            i1 == i + 1 <= path@.len(),
                            p == path_view(path@).skip(i as int),
                            p.skip(1) == path_view(path@).skip(i + 1),
                            strs(out@) + sites_seq(ev.skip(idx as int), p.skip(1)) == sites_seq(
                                ev,
                                p.skip(1),
                            ),
                        decreases n - idx,
                    {
                        let mut sub = collect_texts(&elems[idx], path, i1);
                        proof {
                            assert(ev.skip(idx as int)[0] == ev[idx as int]);
                            assert(ev.skip(idx as int).drop_first() =~= ev.skip(idx + 1));
                            assert(strs(out@ + sub@) =~= strs(out@) + strs(sub@));
                        }
                        out.append(&mut sub);
                        idx += 1;
                    }
                    proof {
                        assert(ev.skip(n as int) =~= Seq::<JsonView>::empty());
                        assert(strs(out@) =~= sites(j@, p));
                    }
                    return out;
                },
                _ => {
                    proof {
                        assert(strs(out@) =~= sites(j@, p));
                    }
                    return out;
                },
            }
        },
        Step::Vals => {
            match j {
                Json::Obj(es) => {
                    let ghost ev = vals_of(obj_view(es@));
                    proof {
                        lemma_obj_view(es@);
                        assert(ev.skip(0) =~= ev);
                    }
                    let n = es.len();
                    let mut idx: usize = 0;
                    while idx < n
                        invariant
                            n == es@.len(),
                            idx <= n,
                            ev == vals_of(obj_view(es@)),
                            ev.len() == n,
                            forall|q: int| 0 <= q < n ==> ev[q] == es@[q].1@,
                            i1 == i + 1 <= path@.len(),
                            p == path_view(path@).skip(i as int),
                            p.skip(1) == path_view(path@).skip(i + 1),
                            strs(out@) + sites_seq(ev.skip(idx as int), p.skip(1)) == sites_seq(
                                ev,
                                p.skip(1),
                            ),
                        decreases n - idx,
                    {
                        let mut sub = collect_texts(&es[idx].1, path, i1);
                        proof {
                            assert(ev.skip(idx as int)[0] == ev[idx as int]);
                            assert(ev.skip(idx as int).drop_first() =~= ev.skip(idx + 1));
                            assert(strs(out@ + sub@) =~= strs(out@) + strs(sub@));
                        }
                        out.append(&mut sub);
                        idx += 1;
                    }
                    proof {
                        assert(ev.skip(n as int) =~= Seq::<JsonView>::empty());
                        assert(strs(out@) =~= sites(j@, p));
                    }
                    return out;
                },
                _ => {
                    proof {
                        assert(strs(out@) =~= sites(j@, p));
                    }
                    return out;
                },
            }
        },
    }
}

/// Strictly increasing: the exec form of a set of indices, in rank order.
pub open spec fn sorted_strict(t: Seq<u64>) -> bool {
    forall|i: int, j: int| 0 <= i < j < t.len() ==> t[i] < t[j]
}

/// The distinct referenced indices, kept sorted; the position of an index is
/// its post-sweep replacement.
pub struct UsedSet {
    pub v: Vec<u64>,
}

impl UsedSet {
    pub open spec fn wf(&self) -> bool {
        sorted_strict(self.v@)
    }

    pub open spec fn set(&self) -> Set<u64> {
        self.v@.to_set()
    }

    pub fn new() -> (r: UsedSet)
        ensures
            r.wf(),
            r.set() == Set::<u64>::empty(),
            r.v@.len() == 0,
    {
        let r = UsedSet { v: Vec::new() };
        proof {
            assert(r.set() =~= Set::<u64>::empty());
        }
        r
    }

    /// Where `x` sits, or would sit, in rank order.
    fn lower_bound(&self, x: u64) -> (r: usize)
        requires
            self.wf(),
        ensures
            r <= self.v@.len(),
            forall|j: int| 0 <= j < r ==> self.v@[j] < x,
            forall|j: int| r <= j < self.v@.len() ==> self.v@[j] >= x,
            r == count_lt(self.v@, x),
    {
        let n = self.v.len();
        let mut i: usize = 0;
        proof {
            assert(self.v@.skip(0) =~= self.v@);
        }
        while i < n
            invariant
                self.wf(),
                n == self.v@.len(),
                0 <= i <= n,
                forall|j: int| 0 <= j < i ==> self.v@[j] < x,
                count_lt(self.v@, x) == i + count_lt(self.v@.skip(i as int), x),
            decreases n - i,
        {
            proof {
                assert(self.v@.skip(i as int)[0] == self.v@[i as int]);
                assert(self.v@.skip(i as int).drop_first() =~= self.v@.skip(i + 1));
            }
            if self.v[i] >= x {
                proof {
                    lemma_count_lt_none(self.v@.skip(i as int), x);
                }
                return i;
            }
            i += 1;
        }
        proof {
            assert(self.v@.skip(n as int) =~= Seq::<u64>::empty());
        }
        n
    }

    /// Add `x`, keeping the list sorted and duplicate-free.
    pub fn insert(&mut self, x: u64)
        requires
            old(self).wf(),
        ensures
            final(self).wf(),
            final(self).set() == old(self).set().insert(x),
    {
        let ghost t0 = self.v@;
        let i = self.lower_bound(x);
        if i < self.v.len() {
            let cur = self.v[i];
            if cur == x {
                proof {
                    assert(self.set().contains(x));
                    assert(final(self).set() =~= old(self).set().insert(x));
                }
                return;
            }
        }
        self.v.insert(i, x);
        proof {
            let t1 = self.v@;
            assert forall|a: int, b: int| 0 <= a < b < t1.len() implies t1[a] < t1[b] by {
                assert(t1 == t0.insert(i as int, x));
            }
            assert forall|y: u64| final(self).set().contains(y) <==> old(self).set().insert(
                x,
            ).contains(y) by {
                if y == x {
                    assert(t1[i as int] == y);
                    assert(t1.contains(y));
                } else {
                    if t0.contains(y) {
                        let q = choose|q: int| 0 <= q < t0.len() && t0[q] == y;
                        if q < i {
                            assert(t1[q] == y);
                        } else {
                            assert(t1[q + 1] == y);
                        }
                        assert(t1.contains(y));
                    }
                    if t1.contains(y) {
                        let q = choose|q: int| 0 <= q < t1.len() && t1[q] == y;
                        if q < i {
                            assert(t0[q] == y);
                        } else {
                            assert(q != i);
                            assert(t0[q - 1] == y);
                        }
                        assert(t0.contains(y));
                    }
                }
            }
            assert(final(self).set() =~= old(self).set().insert(x));
        }
    }

    /// Whether `x` is kept.
    pub fn contains(&self, x: u64) -> (r: bool)
        requires
            self.wf(),
        ensures
            r == self.v@.contains(x),
    {
        match self.rank_of(x) {
            Some(_) => true,
            None => false,
        }
    }

    /// The rank of `x`: how many kept indices are below it, when `x` is kept
    /// at all.
    pub fn rank_of(&self, x: u64) -> (r: Option<usize>)
        requires
            self.wf(),
        ensures
            match r {
                Some(i) => self.v@.contains(x) && i == count_lt(self.v@, x) && i < self.v@.len()
                    && self.v@[i as int] == x,
                None => !self.v@.contains(x),
            },
    {
        let i = self.lower_bound(x);
        if i < self.v.len() {
            let cur = self.v[i];
            if cur == x {
                return Some(i);
            }
        }
        proof {
            if self.v@.contains(x) {
                let q = choose|q: int| 0 <= q < self.v@.len() && self.v@[q] == x;
                assert(false);
            }
        }
        None
    }
}

/// When every entry is at least `v`, none is below it.
pub proof fn lemma_count_lt_none(t: Seq<u64>, v: u64)
    requires
        forall|j: int| 0 <= j < t.len() ==> t[j] >= v,
    ensures
        count_lt(t, v) == 0,
    decreases t.len(),
{
    if t.len() > 0 {
        lemma_count_lt_none(t.drop_first(), v);
    }
}

/// Rewrite the reference sites of `path` (from its `i`-th step on) through
/// the table, as [`remap`] states; the rest of the document is unchanged.
pub fn remap_path(j: Json, path: &Vec<Step>, i: usize, t: &UsedSet) -> (r: Json)
    requires
        i <= path@.len(),
        t.wf(),
    ensures
        r@ == remap(j@, path_view(path@).skip(i as int), t.v@),
    decreases path@.len() - i,
{
    let ghost p = path_view(path@).skip(i as int);
    let ghost tv = t.v@;
    if i == path.len() {
        match j {
            Json::Num(s) => {
                match parse_u64(s.as_str()) {
                    Some(v) => {
                        match t.rank_of(v) {
                            Some(rk) => {
                                let out = Json::Num(format_u64(rk as u64));
                                proof {
                                    assert(out@ == JsonView::Num(remap1(tv, s@)));
                                }
                                out
                            },
                            None => Json::Num(s),
                        }
                    },
                    None => Json::Num(s),
                }
            },
            other => other,
        }
    } else {
        let i1 = i + 1;
        proof {
            assert(p[0] == step_view(path@[i as int]));
            assert(p.skip(1) =~= path_view(path@).skip(i + 1));
        }
        let ghost p1 = path_view(path@).skip(i + 1);
        match &path[i] {
            Step::Key(k) => {
                match j {
                    Json::Obj(mut m) => {
                        let ghost entries = obj_view(m@);
                        proof {
                            lemma_obj_view(m@);
                        }
                        match find_key(&m, k) {
                            Some(idx) => {
                                let (key, val) = m.remove(idx);
                                let ghost valv = val@;
                                let val2 = remap_path(val, path, i1, t);
                                m.insert(idx, (key, val2));
                                proof {
                                    lemma_obj_view(m@);
                                    lemma_obj_find_at(entries, k@, idx as int);
                                    lemma_obj_put_at(entries, k@, remap(valv, p1, tv), idx as int);
                                    assert(obj_view(m@) =~= obj_put(
                                        entries,
                                        k@,
                                        remap(valv, p1, tv),
                                    ));
                                }
                                Json::Obj(m)
                            },
                            None => {
                                proof {
                                    lemma_obj_find_missing(entries, k@);
                                }
                                Json::Obj(m)
                            },
                        }
                    },
                    other => other,
                }
            },
            Step::Each => {
                match j {
                    Json::Arr(a) => {
                        let ghost orig = arr_view(a@);
                        let mut rest = a;
                        let mut out: Vec<Json> = Vec::new();
                        proof {
                            lemma_arr_view(rest@);
                            lemma_arr_view(out@);
                            assert(arr_view(out@) =~= Seq::<JsonView>::empty());
                        }
                        while rest.len() > 0
                            invariant
                                i1 == i + 1 <= path@.len(),
                                t.wf(),
                                tv == t.v@,
                                p1 == path_view(path@).skip(i + 1),
                                remap_seq(orig, p1, tv) == arr_view(out@) + remap_seq(
                                    arr_view(rest@),
                                    p1,
                                    tv,
                                ),
                            decreases rest@.len(),
                        {
                            let ghost rest0 = rest@;
                            let ghost out0 = out@;
                            proof {
                                lemma_arr_view(rest0);
                            }
                            let e = rest.remove(0);
                            let e2 = remap_path(e, path, i1, t);
                            out.push(e2);
                            proof {
                                lemma_arr_view(rest@);
                                lemma_arr_view(out0);
                                lemma_arr_view(out@);
                                assert(arr_view(rest@) =~= arr_view(rest0).drop_first());
                                assert(arr_view(out@) =~= arr_view(out0).push(
                                    remap(arr_view(rest0)[0], p1, tv),
                                ));
                                assert(remap_seq(arr_view(rest0), p1, tv) == seq![
                                    remap(arr_view(rest0)[0], p1, tv),
                                ] + remap_seq(arr_view(rest0).drop_first(), p1, tv));
                                assert(arr_view(out@) + remap_seq(arr_view(rest@), p1, tv)
                                    =~= arr_view(out0) + remap_seq(arr_view(rest0), p1, tv));
                            }
                        }
                        proof {
                            lemma_arr_view(rest@);
                            assert(arr_view(rest@) =~= Seq::<JsonView>::empty());
                            assert(arr_view(out@) =~= remap_seq(orig, p1, tv));
                        }
                        Json::Arr(out)
                    },
                    other => other,
                }
            },
            Step::Vals => {
                match j {
                    Json::Obj(m) => {
                        let ghost orig = obj_view(m@);
                        let mut rest = m;
                        let mut out: Vec<(String, Json)> = Vec::new();
                        proof {
                            lemma_obj_view(rest@);
                            lemma_obj_view(out@);
                            assert(obj_view(out@) =~= Seq::<(Seq<char>, JsonView)>::empty());
                        }
                        while rest.len() > 0
                            invariant
                                i1 == i + 1 <= path@.len(),
                                t.wf(),
                                tv == t.v@,
                                p1 == path_view(path@).skip(i + 1),
                                remap_vals(orig, p1, tv) == obj_view(out@) + remap_vals(
                                    obj_view(rest@),
                                    p1,
                                    tv,
                                ),
                            decreases rest@.len(),
                        {
                            let ghost rest0 = rest@;
                            let ghost out0 = out@;
                            proof {
                                lemma_obj_view(rest0);
                            }
                            let (key, val) = rest.remove(0);
                            let val2 = remap_path(val, path, i1, t);
                            out.push((key, val2));
                            proof {
                                lemma_obj_view(rest@);
                                lemma_obj_view(out0);
                                lemma_obj_view(out@);
                                assert(obj_view(rest@) =~= obj_view(rest0).drop_first());
                                assert(obj_view(out@) =~= obj_view(out0).push(
                                    (obj_view(rest0)[0].0, remap(obj_view(rest0)[0].1, p1, tv)),
                                ));
                                assert(remap_vals(obj_view(rest0), p1, tv) == seq![
                                    (obj_view(rest0)[0].0, remap(obj_view(rest0)[0].1, p1, tv)),
                                ] + remap_vals(obj_view(rest0).drop_first(), p1, tv));
                                assert(obj_view(out@) + remap_vals(obj_view(rest@), p1, tv)
                                    =~= obj_view(out0) + remap_vals(obj_view(rest0), p1, tv));
                            }
                        }
                        proof {
                            lemma_obj_view(rest@);
                            assert(obj_view(rest@) =~= Seq::<(Seq<char>, JsonView)>::empty());
                            assert(obj_view(out@) =~= remap_vals(orig, p1, tv));
                        }
                        Json::Obj(out)
                    },
                    other => other,
                }
            },
        }
    }
}

/// `remap_seq` rewrites element by element.
pub proof fn lemma_remap_seq_index(elems: Seq<JsonView>, path: Seq<StepV>, t: Seq<u64>)
    ensures
        remap_seq(elems, path, t).len() == elems.len(),
        forall|i: int|
            0 <= i < elems.len() ==> remap_seq(elems, path, t)[i] == remap(
                #[trigger] elems[i],
                path,
                t,
            ),
    decreases elems.len(),
{
    if elems.len() > 0 {
        lemma_remap_seq_index(elems.drop_first(), path, t);
        assert forall|i: int|
            0 <= i < elems.len() implies remap_seq(elems, path, t)[i] == remap(
            #[trigger] elems[i],
            path,
            t,
        ) by {
            if i > 0 {
                assert(elems.drop_first()[i - 1] == elems[i]);
                assert(remap_seq(elems, path, t)[i] == remap_seq(
                    elems.drop_first(),
                    path,
                    t,
                )[i - 1]);
            }
        }
    }
}

/// `remap_vals` rewrites value by value, keys kept.
pub proof fn lemma_remap_vals_index(es: Seq<(Seq<char>, JsonView)>, path: Seq<StepV>, t: Seq<u64>)
    ensures
        remap_vals(es, path, t).len() == es.len(),
        forall|i: int|
            0 <= i < es.len() ==> remap_vals(es, path, t)[i] == (
                (#[trigger] es[i]).0,
                remap(es[i].1, path, t),
            ),
    decreases es.len(),
{
    if es.len() > 0 {
        lemma_remap_vals_index(es.drop_first(), path, t);
        assert forall|i: int|
            0 <= i < es.len() implies remap_vals(es, path, t)[i] == (
            (#[trigger] es[i]).0,
            remap(es[i].1, path, t),
        ) by {
            if i > 0 {
                assert(es.drop_first()[i - 1] == es[i]);
                assert(remap_vals(es, path, t)[i] == remap_vals(
                    es.drop_first(),
                    path,
                    t,
                )[i - 1]);
            }
        }
    }
}

/// Rewriting a path's sites rewrites exactly the site texts: the sites of the
/// rewritten document are the old sites, each sent through [`remap1`].
pub proof fn lemma_sites_remap(j: JsonView, path: Seq<StepV>, t: Seq<u64>)
    ensures
        sites(remap(j, path, t), path) == sites(j, path).map_values(
            |s: Seq<char>| remap1(t, s),
        ),
    decreases path.len(), 0int,
{
    let f = |s: Seq<char>| remap1(t, s);
    if path.len() == 0 {
        match j {
            JsonView::Num(s) => {
                assert(sites(remap(j, path, t), path) =~= sites(j, path).map_values(f));
            },
            _ => {
                assert(sites(remap(j, path, t), path) =~= sites(j, path).map_values(f));
            },
        }
    } else {
        match path[0] {
            StepV::Key(k) => {
                match j {
                    JsonView::Obj(es) => {
                        match obj_find(es, k) {
                            Some(v) => {
                                lemma_find_put_same(es, k, remap(v, path.skip(1), t));
                                lemma_sites_remap(v, path.skip(1), t);
                            },
                            None => {
                                assert(sites(j, path).map_values(f) =~= Seq::<Seq<char>>::empty());
                            },
                        }
                    },
                    _ => {
                        assert(sites(j, path).map_values(f) =~= Seq::<Seq<char>>::empty());
                    },
                }
            },
            StepV::Each => {
                match j {
                    JsonView::Arr(elems) => {
                        lemma_remap_seq_index(elems, path.skip(1), t);
                        assert(remap_seq(elems, path.skip(1), t) =~= elems.map_values(
                            |e: JsonView| remap(e, path.skip(1), t),
                        ));
                        lemma_sites_seq_remap(elems, path.skip(1), t);
                    },
                    _ => {
                        assert(sites(j, path).map_values(f) =~= Seq::<Seq<char>>::empty());
                    },
                }
            },
            StepV::Vals => {
                match j {
                    JsonView::Obj(es) => {
                        lemma_remap_vals_index(es, path.skip(1), t);
                        assert(vals_of(remap_vals(es, path.skip(1), t)) =~= vals_of(
                            es,
                        ).map_values(|e: JsonView| remap(e, path.skip(1), t)));
                        lemma_sites_seq_remap(vals_of(es), path.skip(1), t);
                    },
                    _ => {
                        assert(sites(j, path).map_values(f) =~= Seq::<Seq<char>>::empty());
                    },
                }
            },
        }
    }
}

/// The element-wise form of [`lemma_sites_remap`].
pub proof fn lemma_sites_seq_remap(elems: Seq<JsonView>, path: Seq<StepV>, t: Seq<u64>)
    ensures
        sites_seq(
            elems.map_values(|e: JsonView| remap(e, path, t)),
            path,
        ) == sites_seq(elems, path).map_values(|s: Seq<char>| remap1(t, s)),
    decreases path.len(), elems.len(),
{
    let f = |s: Seq<char>| remap1(t, s);
    let g = |e: JsonView| remap(e, path, t);
    if elems.len() == 0 {
        assert(elems.map_values(g) =~= Seq::<JsonView>::empty());
        assert(sites_seq(elems.map_values(g), path) =~= sites_seq(elems, path).map_values(f));
    } else {
        lemma_sites_remap(elems[0], path, t);
        lemma_sites_seq_remap(elems.drop_first(), path, t);
        assert(elems.map_values(g).drop_first() =~= elems.drop_first().map_values(g));
        assert(elems.map_values(g)[0] == remap(elems[0], path, t));
        assert(sites_seq(elems.map_values(g), path) == sites(remap(elems[0], path, t), path)
            + sites_seq(elems.map_values(g).drop_first(), path));
        assert(sites_seq(elems, path).map_values(f) =~= sites(elems[0], path).map_values(f)
            + sites_seq(elems.drop_first(), path).map_values(f));
        assert(sites_seq(elems.map_values(g), path) =~= sites_seq(elems, path).map_values(f));
    }
}

} // verus!
