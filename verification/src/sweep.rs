//! The resource sweep: collect every index referenced for a kind, drop the
//! unreferenced entries of the kind's root array, and renumber every
//! reference to the rank its index now has.

use vstd::prelude::*;
use vstd::assert_sets_equal;
use crate::json::{Json, JsonView, json_view, arr_view, obj_view, obj_find, obj_put,
    lemma_arr_view, lemma_obj_view, lemma_obj_find_at, lemma_obj_find_missing,
    lemma_obj_put_at, lemma_find_put_other, lemma_find_put_same, find_key};
use crate::numtext::{text_u64, u64_text, lemma_u64_text_canonical};
use crate::paths::{Step, StepV, step_view, path_view, sites, sites_seq, remap, remap_seq,
    remap_vals, remap1, vals_used, strs, count_lt, sorted_strict, UsedSet, collect_texts,
    remap_path};

verus! {

broadcast use vstd::group_vstd_default;

/// The views of a list of paths.
pub open spec fn paths_view(ps: Seq<Vec<Step>>) -> Seq<Seq<StepV>> {
    ps.map_values(|p: Vec<Step>| path_view(p@))
}

/// The site texts of a whole family of paths, family order first.
pub open spec fn sites_multi(j: JsonView, paths: Seq<Seq<StepV>>) -> Seq<Seq<char>>
    decreases paths.len(),
{
    if paths.len() == 0 {
        Seq::empty()
    } else {
        sites(j, paths[0]) + sites_multi(j, paths.drop_first())
    }
}

/// The document with every site of every path rewritten through the table,
/// one path after the other.
pub open spec fn remap_multi(j: JsonView, paths: Seq<Seq<StepV>>, t: Seq<u64>) -> JsonView
    decreases paths.len(),
{
    if paths.len() == 0 {
        j
    } else {
        remap_multi(remap(j, paths[0], t), paths.drop_first(), t)
    }
}

/// The site texts that denote no unsigned 64-bit index, in order: the sweep
/// reports these and skips them.
pub open spec fn bads(texts: Seq<Seq<char>>) -> Seq<Seq<char>>
    decreases texts.len(),
{
    if texts.len() == 0 {
        Seq::empty()
    } else {
        (if text_u64(texts[0]) is None {
            seq![texts[0]]
        } else {
            Seq::empty()
        }) + bads(texts.drop_first())
    }
}

pub proof fn lemma_vals_used_concat(a: Seq<Seq<char>>, b: Seq<Seq<char>>)
    ensures
        vals_used(a + b) == vals_used(a).union(vals_used(b)),
        bads(a + b) == bads(a) + bads(b),
    decreases a.len(),
{
    if a.len() == 0 {
        assert(a + b =~= b);
        assert(vals_used(a).union(vals_used(b)) =~= vals_used(b));
        assert(bads(a) + bads(b) =~= bads(b));
    } else {
        lemma_vals_used_concat(a.drop_first(), b);
        assert((a + b).drop_first() =~= a.drop_first() + b);
        assert((a + b)[0] == a[0]);
        match text_u64(a[0]) {
            Some(v) => {
                assert(vals_used(a + b) =~= vals_used(a).union(vals_used(b)));
            },
            None => {
                assert(vals_used(a + b) =~= vals_used(a).union(vals_used(b)));
            },
        }
        assert(bads(a + b) =~= bads(a) + bads(b));
    }
}

/// Gather the index of every site text into `used`, and hand back the texts
/// that denote no index.
fn absorb_texts(texts: Vec<String>, used: &mut UsedSet, bad: &mut Vec<String>)
    requires
        old(used).wf(),
    ensures
        final(used).wf(),
        final(used).set() == old(used).set().union(vals_used(strs(texts@))),
        strs(final(bad)@) == strs(old(bad)@) + bads(strs(texts@)),
{
    let ghost all = strs(texts@);
    let mut rest = texts;
    proof {
        assert(strs(rest@) =~= all);
    }
    while rest.len() > 0
        invariant
            used.wf(),
            used.set().union(vals_used(strs(rest@))) == old(used).set().union(vals_used(all)),
            strs(bad@) + bads(strs(rest@)) == strs(old(bad)@) + bads(all),
        decreases rest@.len(),
    {
        let ghost rs = strs(rest@);
        let s = rest.remove(0);
        proof {
            assert(strs(rest@) =~= rs.drop_first());
            assert(rs[0] == s@);
        }
        match crate::numtext::parse_u64(s.as_str()) {
            Some(v) => {
                used.insert(v);
                proof {
                    assert(used.set().union(vals_used(strs(rest@))) == old(used).set().union(
                        vals_used(all),
                    )) by {
                        assert(vals_used(rs) == vals_used(rs.drop_first()).insert(v));
                        assert_sets_equal!(
                            used.set().union(vals_used(rs.drop_first())),
                            old(used).set().union(vals_used(all))
                        );
                    }
                }
            },
            None => {
                let ghost bad0 = strs(bad@);
                bad.push(s);
                proof {
                    assert(strs(bad@) =~= bad0.push(rs[0]));
                    assert(vals_used(rs) == vals_used(rs.drop_first()));
                    assert(bads(rs) == seq![rs[0]] + bads(rs.drop_first()));
                    assert(strs(bad@) + bads(strs(rest@)) =~= strs(old(bad)@) + bads(all));
                }
            },
        }
    }
    proof {
        assert(strs(rest@) =~= Seq::<Seq<char>>::empty());
        assert(vals_used(strs(rest@)) =~= Set::<u64>::empty());
        assert(final(used).set() =~= old(used).set().union(vals_used(all)));
        assert(strs(final(bad)@) =~= strs(old(bad)@) + bads(all));
    }
}

/// Gather every referenced index over a family of paths.
pub fn collect_multi(j: &Json, paths: &Vec<Vec<Step>>, used: &mut UsedSet, bad: &mut Vec<String>)
    requires
        old(used).wf(),
    ensures
        final(used).wf(),
        final(used).set() == old(used).set().union(vals_used(sites_multi(j@, paths_view(paths@)))),
        strs(final(bad)@) == strs(old(bad)@) + bads(sites_multi(j@, paths_view(paths@))),
{
    let ghost pv = paths_view(paths@);
    let n = paths.len();
    let mut k: usize = 0;
    proof {
        assert(pv.skip(0) =~= pv);
    }
    while k < n
        invariant
            used.wf(),
            n == paths@.len(),
            0 <= k <= n,
            pv == paths_view(paths@),
            pv.len() == n,
            used.set().union(vals_used(sites_multi(j@, pv.skip(k as int)))) == old(
                used,
            ).set().union(vals_used(sites_multi(j@, pv))),
            strs(bad@) + bads(sites_multi(j@, pv.skip(k as int))) == strs(old(bad)@) + bads(
                sites_multi(j@, pv),
            ),
        decreases n - k,
    {
        let texts = collect_texts(j, &paths[k], 0);
        proof {
            assert(pv.skip(k as int)[0] == pv[k as int]);
            assert(pv[k as int] == path_view(paths@[k as int]@));
            assert(path_view(paths@[k as int]@).skip(0) =~= path_view(paths@[k as int]@));
            assert(pv.skip(k as int).drop_first() =~= pv.skip(k + 1));
            lemma_vals_used_concat(
                sites(j@, pv[k as int]),
                sites_multi(j@, pv.skip(k + 1)),
            );
        }
        absorb_texts(texts, used, bad);
        proof {
            assert_sets_equal!(
                used.set().union(vals_used(sites_multi(j@, pv.skip(k + 1)))),
                old(used).set().union(vals_used(sites_multi(j@, pv)))
            );
            assert(strs(bad@) + bads(sites_multi(j@, pv.skip(k + 1))) =~= strs(old(bad)@) + bads(
                sites_multi(j@, pv),
            ));
        }
        k += 1;
    }
    proof {
        assert(pv.skip(n as int) =~= Seq::<Seq<StepV>>::empty());
        assert(vals_used(sites_multi(j@, pv.skip(n as int))) =~= Set::<u64>::empty());
        assert(final(used).set() =~= old(used).set().union(vals_used(sites_multi(j@, pv))));
        assert(strs(final(bad)@) =~= strs(old(bad)@) + bads(sites_multi(j@, pv)));
    }
}

/// Rewrite every reference over a family of paths through the table.
pub fn remap_multi_exec(j: Json, paths: &Vec<Vec<Step>>, t: &UsedSet) -> (r: Json)
    requires
        t.wf(),
    ensures
        r@ == remap_multi(j@, paths_view(paths@), t.v@),
{
    let ghost pv = paths_view(paths@);
    let ghost orig = j@;
    let n = paths.len();
    let mut cur = j;
    let mut k: usize = 0;
    proof {
        assert(pv.skip(0) =~= pv);
    }
    while k < n
        invariant
            t.wf(),
            n == paths@.len(),
            0 <= k <= n,
            pv == paths_view(paths@),
            pv.len() == n,
            remap_multi(cur@, pv.skip(k as int), t.v@) == remap_multi(orig, pv, t.v@),
        decreases n - k,
    {
        proof {
            assert(pv.skip(k as int)[0] == pv[k as int]);
            assert(pv[k as int] == path_view(paths@[k as int]@));
            assert(path_view(paths@[k as int]@).skip(0) =~= path_view(paths@[k as int]@));
            assert(pv.skip(k as int).drop_first() =~= pv.skip(k + 1));
        }
        cur = remap_path(cur, &paths[k], 0, t);
        k += 1;
    }
    proof {
        assert(pv.skip(n as int) =~= Seq::<Seq<StepV>>::empty());
    }
    cur
}

/// The entries whose index (counting from `i0`) is in the table.
pub open spec fn filter_kept(elems: Seq<JsonView>, t: Seq<u64>, i0: int) -> Seq<JsonView>
    decreases elems.len(),
{
    if elems.len() == 0 {
        Seq::empty()
    } else {
        (if 0 <= i0 <= u64::MAX && t.contains(i0 as u64) {
            seq![elems[0]]
        } else {
            Seq::empty()
        }) + filter_kept(elems.drop_first(), t, i0 + 1)
    }
}

/// Two strictly sorted lists of the same elements are the same list.
pub proof fn lemma_sorted_unique(a: Seq<u64>, b: Seq<u64>)
    requires
        sorted_strict(a),
        sorted_strict(b),
        a.to_set() == b.to_set(),
    ensures
        a == b,
    decreases a.len(),
{
    if a.len() == 0 {
        if b.len() > 0 {
            assert(b.to_set().contains(b[0]));
            assert(a.contains(b[0]));
            assert(false);
        }
        assert(a =~= b);
    } else {
        assert(b.len() > 0) by {
            assert(a.to_set().contains(a[0]));
            assert(b.contains(a[0]));
        }
        assert(a[0] == b[0]) by {
            assert(a.to_set().contains(a[0]));
            assert(b.contains(a[0]));
            let j = choose|j: int| 0 <= j < b.len() && b[j] == a[0];
            assert(b[0] <= a[0]);
            assert(b.to_set().contains(b[0]));
            assert(a.contains(b[0]));
            let i = choose|i: int| 0 <= i < a.len() && a[i] == b[0];
            assert(a[0] <= b[0]);
        }
        assert(a.drop_first().to_set() =~= b.drop_first().to_set()) by {
            assert forall|y: u64| a.drop_first().to_set().contains(y) <==> b.drop_first().to_set().contains(
                y,
            ) by {
                if a.drop_first().contains(y) {
                    let k = choose|k: int| 0 <= k < a.drop_first().len() && a.drop_first()[k] == y;
                    assert(a[k + 1] == y);
                    assert(y > a[0]);
                    assert(a.contains(y));
                    assert(a.to_set().contains(y));
                    assert(b.to_set().contains(y));
                    assert(b.contains(y));
                    let m = choose|m: int| 0 <= m < b.len() && b[m] == y;
                    assert(m != 0);
                    assert(b.drop_first()[m - 1] == y);
                }
                if b.drop_first().contains(y) {
                    let k = choose|k: int| 0 <= k < b.drop_first().len() && b.drop_first()[k] == y;
                    assert(b[k + 1] == y);
                    assert(y > b[0]);
                    assert(b.contains(y));
                    assert(b.to_set().contains(y));
                    assert(a.to_set().contains(y));
                    assert(a.contains(y));
                    let m = choose|m: int| 0 <= m < a.len() && a[m] == y;
                    assert(m != 0);
                    assert(a.drop_first()[m - 1] == y);
                }
            }
        }
        assert(sorted_strict(a.drop_first())) by {
            assert(forall|i: int|
                0 <= i < a.len() - 1 ==> #[trigger] a.drop_first()[i] == a[i + 1]);
        }
        assert(sorted_strict(b.drop_first())) by {
            assert(forall|i: int|
                0 <= i < b.len() - 1 ==> #[trigger] b.drop_first()[i] == b[i + 1]);
        }
        lemma_sorted_unique(a.drop_first(), b.drop_first());
        assert forall|i: int| 0 <= i < a.len() implies a[i] == b[i] by {
            if i > 0 {
                assert(a.drop_first()[i - 1] == b.drop_first()[i - 1]);
            }
        }
        assert(a =~= b);
    }
}

/// The one strictly sorted list of a finite set of indices.
pub open spec fn sorted_of(s: Set<u64>) -> Seq<u64> {
    choose|t: Seq<u64>| sorted_strict(t) && t.to_set() == s
}

pub proof fn lemma_sorted_of(t: Seq<u64>)
    requires
        sorted_strict(t),
    ensures
        sorted_of(t.to_set()) == t,
{
    assert(sorted_strict(t) && t.to_set() == t.to_set());
    let t2 = sorted_of(t.to_set());
    assert(sorted_strict(t2) && t2.to_set() == t.to_set());
    lemma_sorted_unique(t, t2);
}

/// Drop the unreferenced entries of the kind's root array; anything that is
/// not an array under that key is untouched.
pub open spec fn drop_unused(j: JsonView, key: Seq<char>, t: Seq<u64>) -> JsonView {
    match j.get(key) {
        Some(arr) => match arr {
            JsonView::Arr(elems) => j.put(key, JsonView::Arr(filter_kept(elems, t, 0))),
            _ => j,
        },
        _ => j,
    }
}

/// One whole sweep: remove what the table does not hold, then renumber every
/// reference to its rank.
pub open spec fn sweep_doc(j: JsonView, key: Seq<char>, paths: Seq<Seq<StepV>>, t: Seq<u64>) -> JsonView {
    remap_multi(drop_unused(j, key, t), paths, t)
}

/// The table a sweep works with: the distinct referenced indices, sorted.
pub open spec fn sweep_table(j: JsonView, paths: Seq<Seq<StepV>>) -> Seq<u64> {
    sorted_of(vals_used(sites_multi(j, paths)))
}

/// The document after sweeping one kind.
pub open spec fn sweep_spec(j: JsonView, key: Seq<char>, paths: Seq<Seq<StepV>>) -> JsonView {
    sweep_doc(j, key, paths, sweep_table(j, paths))
}

/// Keep the elements whose position is in the table.
fn filter_elems(elems: Vec<Json>, t: &UsedSet) -> (r: Vec<Json>)
    requires
        t.wf(),
    ensures
        arr_view(r@) == filter_kept(arr_view(elems@), t.v@, 0),
{
    let ghost orig = arr_view(elems@);
    let ghost tv = t.v@;
    let mut rest = elems;
    let mut out: Vec<Json> = Vec::new();
    let mut q: usize = 0;
    let nn = rest.len();
    proof {
        lemma_arr_view(out@);
        assert(arr_view(out@) =~= Seq::<JsonView>::empty());
        lemma_arr_view(rest@);
        assert(arr_view(rest@) =~= orig);
    }
    while rest.len() > 0
        invariant
            t.wf(),
            tv == t.v@,
            q + rest@.len() == nn,
            filter_kept(orig, tv, 0) == arr_view(out@) + filter_kept(arr_view(rest@), tv, q as int),
        decreases rest@.len(),
    {
        let ghost rest0 = arr_view(rest@);
        let ghost out0 = arr_view(out@);
        proof {
            lemma_arr_view(rest@);
            lemma_arr_view(out@);
        }
        let e = rest.remove(0);
        let keep = t.contains(q as u64);
        proof {
            lemma_arr_view(rest@);
            assert(arr_view(rest@) =~= rest0.drop_first());
        }
        if keep {
            out.push(e);
            proof {
                lemma_arr_view(out@);
                assert(arr_view(out@) =~= out0.push(rest0[0]));
                assert(arr_view(out@) + filter_kept(arr_view(rest@), tv, q + 1) =~= out0
                    + filter_kept(rest0, tv, q as int));
            }
        } else {
            proof {
                assert(arr_view(out@) + filter_kept(arr_view(rest@), tv, q + 1) =~= out0
                    + filter_kept(rest0, tv, q as int));
            }
        }
        q += 1;
    }
    proof {
        lemma_arr_view(rest@);
        assert(arr_view(rest@) =~= Seq::<JsonView>::empty());
        assert(arr_view(out@) =~= filter_kept(orig, tv, 0));
    }
    out
}

/// Sweep one resource kind: the cleaned document, the table of surviving
/// original indices in ascending order, and the site texts that denote no
/// index (reported, then skipped).
pub fn sweep_resources(gltf: Json, key: &str, paths: &Vec<Vec<Step>>) -> (r: (
    Json,
    UsedSet,
    Vec<String>,
))
    ensures
        r.1.wf(),
        r.1.set() == vals_used(sites_multi(gltf@, paths_view(paths@))),
        r.1.v@ == sweep_table(gltf@, paths_view(paths@)),
        r.0@ == sweep_spec(gltf@, key@, paths_view(paths@)),
        strs(r.2@) == bads(sites_multi(gltf@, paths_view(paths@))),
{
    let ghost pv = paths_view(paths@);
    let ghost orig = gltf@;
    let mut used = UsedSet::new();
    let mut bad: Vec<String> = Vec::new();
    collect_multi(&gltf, paths, &mut used, &mut bad);
    proof {
        assert_sets_equal!(used.set(), vals_used(sites_multi(orig, pv)));
        lemma_sorted_of(used.v@);
        assert(strs(bad@) =~= bads(sites_multi(orig, pv)));
    }
    let ghost tv = used.v@;
    let j1 = match gltf {
        Json::Obj(mut m) => {
            let ghost entries = obj_view(m@);
            proof {
                lemma_obj_view(m@);
            }
            match find_key(&m, key) {
                Some(idx) => {
                    let (kstr, val) = m.remove(idx);
                    proof {
                        lemma_obj_find_at(entries, key@, idx as int);
                    }
                    match val {
                        Json::Arr(elems) => {
                            let ghost ev = arr_view(elems@);
                            let filtered = filter_elems(elems, &used);
                            m.insert(idx, (kstr, Json::Arr(filtered)));
                            proof {
                                lemma_obj_view(m@);
                                lemma_obj_put_at(
                                    entries,
                                    key@,
                                    JsonView::Arr(filter_kept(ev, tv, 0)),
                                    idx as int,
                                );
                                assert(obj_view(m@) =~= obj_put(
                                    entries,
                                    key@,
                                    JsonView::Arr(filter_kept(ev, tv, 0)),
                                ));
                            }
                            Json::Obj(m)
                        },
                        other => {
                            m.insert(idx, (kstr, other));
                            proof {
                                lemma_obj_view(m@);
                                assert(obj_view(m@) =~= entries);
                            }
                            Json::Obj(m)
                        },
                    }
                },
                None => {
                    proof {
                        lemma_obj_find_missing(entries, key@);
                    }
                    Json::Obj(m)
                },
            }
        },
        other => other,
    };
    proof {
        assert(j1@ == drop_unused(orig, key@, tv));
    }
    let j2 = remap_multi_exec(j1, paths, &used);
    (j2, used, bad)
}

/// How many entries of `t` lie in `[lo, hi)`.
pub open spec fn count_range(t: Seq<u64>, lo: int, hi: int) -> int
    decreases t.len(),
{
    if t.len() == 0 {
        0int
    } else {
        (if lo <= t[0] < hi {
            1int
        } else {
            0int
        }) + count_range(t.drop_first(), lo, hi)
    }
}

proof fn lemma_count_range_split(t: Seq<u64>, lo: int, mid: int, hi: int)
    requires
        lo <= mid <= hi,
    ensures
        count_range(t, lo, hi) == count_range(t, lo, mid) + count_range(t, mid, hi),
    decreases t.len(),
{
    if t.len() > 0 {
        lemma_count_range_split(t.drop_first(), lo, mid, hi);
    }
}

proof fn lemma_count_range_unit(t: Seq<u64>, v: int)
    requires
        sorted_strict(t),
        0 <= v <= u64::MAX,
    ensures
        count_range(t, v, v + 1) == (if t.contains(v as u64) {
            1int
        } else {
            0int
        }),
    decreases t.len(),
{
    if t.len() > 0 {
        assert(sorted_strict(t.drop_first())) by {
            assert(forall|i: int|
                0 <= i < t.len() - 1 ==> #[trigger] t.drop_first()[i] == t[i + 1]);
        }
        lemma_count_range_unit(t.drop_first(), v);
        if t[0] == v as u64 {
            assert(t.contains(v as u64));
            if t.drop_first().contains(v as u64) {
                let k = choose|k: int|
                    0 <= k < t.drop_first().len() && t.drop_first()[k] == v as u64;
                assert(t[k + 1] == v as u64);
                assert(false);
            }
        } else {
            if t.contains(v as u64) {
                let k = choose|k: int| 0 <= k < t.len() && t[k] == v as u64;
                assert(k != 0);
                assert(t.drop_first()[k - 1] == v as u64);
            } else {
                if t.drop_first().contains(v as u64) {
                    let k = choose|k: int|
                        0 <= k < t.drop_first().len() && t.drop_first()[k] == v as u64;
                    assert(t[k + 1] == v as u64);
                    assert(t.contains(v as u64));
                }
            }
        }
    }
}

/// How many entries survive a filter: one for each table value inside the
/// index range.
pub proof fn lemma_filter_kept_len(elems: Seq<JsonView>, t: Seq<u64>, i0: int)
    requires
        sorted_strict(t),
        0 <= i0,
        i0 + elems.len() <= u64::MAX,
    ensures
        filter_kept(elems, t, i0).len() == count_range(t, i0, i0 + elems.len()),
    decreases elems.len(),
{
    if elems.len() == 0 {
        assert(count_range(t, i0, i0) == 0) by {
            lemma_count_range_split(t, i0, i0, i0);
        }
    } else {
        lemma_filter_kept_len(elems.drop_first(), t, i0 + 1);
        lemma_count_range_unit(t, i0);
        lemma_count_range_split(t, i0, i0 + 1, i0 + elems.len());
    }
}

/// Every path of the family starts by descending into a key other than
/// `key`.
pub open spec fn heads_differ(paths: Seq<Seq<StepV>>, key: Seq<char>) -> bool {
    forall|i: int|
        0 <= i < paths.len() ==> (#[trigger] paths[i]).len() > 0 && paths[i][0] is Key
            && paths[i][0]->Key_0 != key
}

/// Renumbering along a path that starts under another key leaves this key's
/// value alone.
pub proof fn lemma_remap_get_other(j: JsonView, path: Seq<StepV>, t: Seq<u64>, key: Seq<char>)
    requires
        path.len() > 0,
        path[0] is Key,
        path[0]->Key_0 != key,
    ensures
        remap(j, path, t).get(key) == j.get(key),
{
    match j {
        JsonView::Obj(es) => {
            match obj_find(es, path[0]->Key_0) {
                Some(v) => {
                    lemma_find_put_other(es, key, path[0]->Key_0, remap(v, path.skip(1), t));
                },
                None => {},
            }
        },
        _ => {},
    }
}

/// Renumbering along a whole family of such paths leaves this key's value
/// alone.
pub proof fn lemma_remap_multi_get_other(
    j: JsonView,
    paths: Seq<Seq<StepV>>,
    t: Seq<u64>,
    key: Seq<char>,
)
    requires
        heads_differ(paths, key),
    ensures
        remap_multi(j, paths, t).get(key) == j.get(key),
    decreases paths.len(),
{
    if paths.len() > 0 {
        lemma_remap_get_other(j, paths[0], t, key);
        assert(heads_differ(paths.drop_first(), key)) by {
            assert(forall|i: int|
                0 <= i < paths.len() - 1 ==> #[trigger] paths.drop_first()[i] == paths[i + 1]);
        }
        lemma_remap_multi_get_other(remap(j, paths[0], t), paths.drop_first(), t, key);
    }
}

/// After a sweep the kind's array holds exactly the entries whose index was
/// referenced: as many as there are distinct referenced indices below the
/// array's old length.
pub proof fn lemma_sweep_kind_len(
    j: JsonView,
    key: Seq<char>,
    paths: Seq<Seq<StepV>>,
    elems: Seq<JsonView>,
)
    requires
        heads_differ(paths, key),
        j.get(key) == Some(JsonView::Arr(elems)),
        elems.len() <= u64::MAX,
        sorted_strict(sweep_table(j, paths)),
    ensures
        sweep_spec(j, key, paths).get(key) == Some(
            JsonView::Arr(filter_kept(elems, sweep_table(j, paths), 0)),
        ),
        sweep_spec(j, key, paths).get(key)->Some_0->Arr_0.len() == count_range(
            sweep_table(j, paths),
            0,
            elems.len() as int,
        ),
{
    let t = sweep_table(j, paths);
    let kept = JsonView::Arr(filter_kept(elems, t, 0));
    assert(j is Obj);
    lemma_find_put_same(j->Obj_0, key, kept);
    assert(drop_unused(j, key, t).get(key) == Some(kept));
    lemma_remap_multi_get_other(drop_unused(j, key, t), paths, t, key);
    lemma_filter_kept_len(elems, t, 0);
}

proof fn lemma_count_lt_le_len(t: Seq<u64>, v: u64)
    ensures
        0 <= count_lt(t, v) <= t.len(),
    decreases t.len(),
{
    if t.len() > 0 {
        lemma_count_lt_le_len(t.drop_first(), v);
    }
}

/// The rank of a kept index lies below the table's size.
proof fn lemma_count_lt_in(t: Seq<u64>, v: u64)
    requires
        t.contains(v),
    ensures
        0 <= count_lt(t, v) < t.len(),
    decreases t.len(),
{
    lemma_count_lt_le_len(t, v);
    if t[0] == v {
        lemma_count_lt_le_len(t.drop_first(), v);
    } else {
        assert(t.drop_first().contains(v)) by {
            let q = choose|q: int| 0 <= q < t.len() && t[q] == v;
            assert(t.drop_first()[q - 1] == v);
        }
        lemma_count_lt_in(t.drop_first(), v);
    }
}

/// A table whose indices all lie below `n` is counted whole by the range.
proof fn lemma_count_range_all(t: Seq<u64>, n: int)
    requires
        forall|q: int| 0 <= q < t.len() ==> (#[trigger] t[q]) < n,
    ensures
        count_range(t, 0, n) == t.len(),
    decreases t.len(),
{
    if t.len() > 0 {
        assert(forall|q: int|
            0 <= q < t.len() - 1 ==> (#[trigger] t.drop_first()[q]) == t[q + 1]);
        lemma_count_range_all(t.drop_first(), n);
    }
}

/// Renumbering keeps references in range: a site holding a kept index is
/// rewritten to that index's rank, and when every kept index lies below the
/// array's old length, every rank lies below the array's new length.
pub proof fn lemma_remap1_in_range(t: Seq<u64>, s: Seq<char>, n: int)
    requires
        sorted_strict(t),
        t.len() <= u64::MAX + 1,
        text_u64(s) matches Some(v) && t.contains(v),
        forall|q: int| 0 <= q < t.len() ==> (#[trigger] t[q]) < n,
    ensures
        text_u64(remap1(t, s)) matches Some(r) && (r as int) < count_range(t, 0, n),
        count_range(t, 0, n) == t.len(),
{
    let v = text_u64(s)->Some_0;
    lemma_count_lt_in(t, v);
    lemma_u64_text_canonical(count_lt(t, v));
    lemma_count_range_all(t, n);
}

/// A strictly sorted list of indices grows at least as fast as its
/// positions; in particular it cannot be longer than the index space.
pub proof fn lemma_sorted_strict_ge(t: Seq<u64>)
    requires
        sorted_strict(t),
    ensures
        forall|i: int| 0 <= i < t.len() ==> (#[trigger] t[i]) >= t[0] + i,
        t.len() <= u64::MAX + 1,
    decreases t.len(),
{
    if t.len() > 0 {
        assert(sorted_strict(t.drop_first())) by {
            assert(forall|i: int|
                0 <= i < t.len() - 1 ==> #[trigger] t.drop_first()[i] == t[i + 1]);
        }
        lemma_sorted_strict_ge(t.drop_first());
        assert forall|i: int| 0 <= i < t.len() implies (#[trigger] t[i]) >= t[0] + i by {
            if i > 0 {
                assert(t.drop_first()[i - 1] == t[i]);
                assert(t[i] >= t.drop_first()[0] + (i - 1));
                assert(t.drop_first()[0] == t[1]);
                assert(t[1] > t[0]);
            }
        }
        if t.len() > u64::MAX + 1 {
            assert(t[u64::MAX as int + 1] >= t[0] + u64::MAX + 1);
        }
    }
}

/// Every index value among a list of texts is in the gathered set, and every
/// gathered value came from some text.
pub proof fn lemma_vals_used_member(texts: Seq<Seq<char>>, i: int)
    requires
        0 <= i < texts.len(),
        text_u64(texts[i]) is Some,
    ensures
        vals_used(texts).contains(text_u64(texts[i])->Some_0),
    decreases texts.len(),
{
    if i > 0 {
        assert(texts.drop_first()[i - 1] == texts[i]);
        lemma_vals_used_member(texts.drop_first(), i - 1);
    }
}

pub proof fn lemma_vals_used_source(texts: Seq<Seq<char>>, v: u64)
    requires
        vals_used(texts).contains(v),
    ensures
        exists|i: int| 0 <= i < texts.len() && text_u64(#[trigger] texts[i]) == Some(v),
    decreases texts.len(),
{
    if texts.len() > 0 {
        let rest = vals_used(texts.drop_first());
        if text_u64(texts[0]) == Some(v) {
            assert(text_u64(texts[0]) == Some(v));
        } else {
            assert(rest.contains(v));
            lemma_vals_used_source(texts.drop_first(), v);
            let i0 = choose|i0: int|
                0 <= i0 < texts.drop_first().len() && text_u64(
                    #[trigger] texts.drop_first()[i0],
                ) == Some(v);
            assert(texts[i0 + 1] == texts.drop_first()[i0]);
        }
    }
}

/// Storing under one key leaves the sites of a path that starts under
/// another key alone.
pub proof fn lemma_sites_put_other(
    j: JsonView,
    k2: Seq<char>,
    v: JsonView,
    path: Seq<StepV>,
)
    requires
        path.len() > 0,
        path[0] is Key,
        path[0]->Key_0 != k2,
    ensures
        sites(j.put(k2, v), path) == sites(j, path),
{
    let k1 = path[0]->Key_0;
    match j {
        JsonView::Obj(es) => {
            lemma_find_put_other(es, k1, k2, v);
        },
        _ => {
            let es = seq![(k2, v)];
            assert(es.skip(1) =~= Seq::<(Seq<char>, JsonView)>::empty());
            assert(obj_find(Seq::<(Seq<char>, JsonView)>::empty(), k1) is None);
            assert(obj_find(es, k1) is None);
            assert(sites(j.put(k2, v), path) =~= sites(j, path));
        },
    }
}

/// A single-path sweep leaves every reference in range: after the sweep,
/// each site of the kind's one reference path holds the rank of its old
/// index, below the count of kept indices — the swept array's new length —
/// provided every old reference was an index below `n`, the array's old
/// length, and the table is the sweep's own.
pub proof fn lemma_sweep_refs_in_range(j: JsonView, key: Seq<char>, path: Seq<StepV>, n: int)
    requires
        path.len() > 0,
        path[0] is Key,
        path[0]->Key_0 != key,
        0 <= n <= u64::MAX,
        sorted_strict(sweep_table(j, seq![path])),
        sweep_table(j, seq![path]).to_set() == vals_used(sites_multi(j, seq![path])),
        forall|i: int|
            0 <= i < sites(j, path).len() ==> (text_u64(#[trigger] sites(j, path)[i]) matches Some(
                v,
            ) && (v as int) < n),
    ensures
        ({
            let t = sweep_table(j, seq![path]);
            forall|i: int|
                0 <= i < sites(sweep_spec(j, key, seq![path]), path).len() ==> (text_u64(
                    #[trigger] sites(sweep_spec(j, key, seq![path]), path)[i],
                ) matches Some(v) && (v as int) < count_range(t, 0, n))
        }),
{
    let paths = seq![path];
    let t = sweep_table(j, paths);
    let texts = sites(j, path);
    assert(sites_multi(j, paths) =~= texts) by {
        assert(paths.drop_first() =~= Seq::<Seq<StepV>>::empty());
        assert(sites_multi(j, paths.drop_first()) =~= Seq::<Seq<char>>::empty());
        assert(texts + Seq::<Seq<char>>::empty() =~= texts);
    }
    assert forall|q: int| 0 <= q < t.len() implies ((#[trigger] t[q]) as int) < n by {
        assert(t.contains(t[q]));
        assert(t.to_set().contains(t[q]));
        assert(vals_used(texts).contains(t[q]));
        lemma_vals_used_source(texts, t[q]);
        let i = choose|i: int|
            0 <= i < texts.len() && text_u64(#[trigger] texts[i]) == Some(t[q]);
    }
    let jd = drop_unused(j, key, t);
    assert(sites(jd, path) == texts) by {
        match j.get(key) {
            Some(arr) => {
                if arr is Arr {
                    lemma_sites_put_other(j, key, JsonView::Arr(filter_kept(arr->Arr_0, t, 0)), path);
                }
            },
            None => {},
        }
    }
    let j1 = sweep_spec(j, key, paths);
    assert(j1 == remap(jd, path, t)) by {
        assert(paths.drop_first() =~= Seq::<Seq<StepV>>::empty());
        assert(remap_multi(remap(jd, paths[0], t), paths.drop_first(), t) == remap(
            jd,
            paths[0],
            t,
        ));
    }
    crate::paths::lemma_sites_remap(jd, path, t);
    let mapped = texts.map_values(|s: Seq<char>| remap1(t, s));
    assert(sites(j1, path) == mapped);
    lemma_sorted_strict_ge(t);
    assert forall|i: int|
        0 <= i < sites(j1, path).len() implies (text_u64(#[trigger] sites(j1, path)[i]) matches Some(
            v,
        ) && (v as int) < count_range(t, 0, n)) by {
        assert(sites(j1, path)[i] == mapped[i]);
        assert(mapped[i] == remap1(t, texts[i]));
        let v0 = text_u64(texts[i])->Some_0;
        lemma_vals_used_member(texts, i);
        assert(t.to_set().contains(v0));
        assert(t.contains(v0));
        lemma_remap1_in_range(t, texts[i], n);
    }
}

} // verus!
