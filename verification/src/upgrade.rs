//! The legacy upgrade of pre-0.36 VRM metadata: image names move out of the
//! old `extra` container, morph-target names move into `extras.targetNames`,
//! and placeholder `-1` attributes disappear from morph targets.

use vstd::prelude::*;
use crate::json::{Json, JsonView, json_view, arr_view, obj_view, obj_find, obj_put,
    lemma_arr_view, lemma_obj_view, lemma_obj_find_at, lemma_obj_find_missing,
    lemma_obj_put_at, lemma_find_put_other, lemma_find_del_other, lemma_del_removes,
    lemma_put_nodup, lemma_del_nodup, lemma_obj_del_missing, nodup_keys, find_key, str_eq};
use crate::numtext::{version_pair, version_major_minor};

verus! {

broadcast use vstd::group_vstd_default;

/// Whether the upgrade applies: no `extensions.VRM.exporterVersion`, and
/// `extensions.VRM.version` is a string naming a version at most `0.35`.
pub open spec fn upgrade_gate(j: JsonView) -> bool {
    match j.get("extensions"@) {
        Some(e) => match e.get("VRM"@) {
            Some(vrm) => vrm.get("exporterVersion"@) is None && (match vrm.get("version"@) {
                Some(v) => match v {
                    JsonView::Str(s) => match version_pair(s) {
                        Some((major, minor)) => major == 0 && minor <= 35,
                        None => false,
                    },
                    _ => false,
                },
                None => false,
            }),
            None => false,
        },
        None => false,
    }
}

/// An upgraded image: when its `name` is missing, no string, or empty, and
/// `extra.name` is a non-empty string, that becomes the name; `extra` then
/// disappears from every image object.
pub open spec fn upgrade_image(im: JsonView) -> JsonView {
    let name_weak = match im.get("name"@) {
        Some(v) => !(v is Str) || v->Str_0.len() == 0,
        None => true,
    };
    let extra_name = match im.get("extra"@) {
        Some(e) => e.get("name"@),
        None => None,
    };
    let im1 = match extra_name {
        Some(en) => if name_weak && en.is_nonempty_string() {
            im.put("name"@, en)
        } else {
            im
        },
        None => im,
    };
    im1.del("extra"@)
}

/// Whether a morph-target attribute holds the placeholder `-1`.
pub open spec fn is_neg_one(v: Option<JsonView>) -> bool {
    match v {
        Some(x) => x == JsonView::Num("-1"@),
        None => false,
    }
}

/// An upgraded morph target: the placeholder attributes and the old `extra`
/// are gone. Targets that are no objects are untouched.
pub open spec fn upgrade_target(t: JsonView) -> JsonView {
    if t is Obj {
        let t1 = if is_neg_one(t.get("JOINTS_0"@)) {
            t.del("JOINTS_0"@)
        } else {
            t
        };
        let t2 = if is_neg_one(t1.get("TEXCOORD_0"@)) {
            t1.del("TEXCOORD_0"@)
        } else {
            t1
        };
        let t3 = if is_neg_one(t2.get("WEIGHTS_0"@)) {
            t2.del("WEIGHTS_0"@)
        } else {
            t2
        };
        t3.del("extra"@)
    } else {
        t
    }
}

/// The non-empty `extra.name` strings of the morph targets, in order.
pub open spec fn target_names(ts: Seq<JsonView>) -> Seq<JsonView>
    decreases ts.len(),
{
    if ts.len() == 0 {
        Seq::empty()
    } else {
        (if ts[0] is Obj {
            match ts[0].get("extra"@) {
                Some(e) => if e is Obj {
                    match e.get("name"@) {
                        Some(n) => if n.is_nonempty_string() {
                            seq![n]
                        } else {
                            Seq::empty()
                        },
                        None => Seq::empty(),
                    }
                } else {
                    Seq::empty()
                },
                None => Seq::empty(),
            }
        } else {
            Seq::empty()
        }) + target_names(ts.drop_first())
    }
}

/// An upgraded mesh primitive: gathered target names land in a fresh
/// `extras`, the targets are upgraded, and an empty target list disappears.
/// Primitives that are no objects are untouched.
pub open spec fn upgrade_primitive(p: JsonView) -> JsonView {
    if !(p is Obj) {
        p
    } else {
        let ts = match p.get("targets"@) {
            Some(v) => match v {
                JsonView::Arr(a) => a,
                _ => Seq::empty(),
            },
            None => Seq::empty(),
        };
        let has_targets = match p.get("targets"@) {
            Some(v) => v is Arr,
            None => false,
        };
        let names = target_names(ts);
        let p1 = if names.len() > 0 {
            p.put("extras"@, JsonView::Obj(seq![("targetNames"@, JsonView::Arr(names))]))
        } else {
            p
        };
        let p2 = if has_targets {
            p1.put("targets"@, JsonView::Arr(Seq::new(ts.len(), |i: int| upgrade_target(ts[i]))))
        } else {
            p1
        };
        if has_targets && ts.len() == 0 {
            p2.del("targets"@)
        } else {
            p2
        }
    }
}

/// An upgraded mesh: its primitives are upgraded one by one.
pub open spec fn upgrade_mesh(m: JsonView) -> JsonView {
    match m.get("primitives"@) {
        Some(v) => match v {
            JsonView::Arr(ps) => m.put(
                "primitives"@,
                JsonView::Arr(Seq::new(ps.len(), |i: int| upgrade_primitive(ps[i]))),
            ),
            _ => m,
        },
        None => m,
    }
}

pub open spec fn upgrade_images(j: JsonView) -> JsonView {
    match j.get("images"@) {
        Some(v) => match v {
            JsonView::Arr(ims) => j.put(
                "images"@,
                JsonView::Arr(Seq::new(ims.len(), |i: int| upgrade_image(ims[i]))),
            ),
            _ => j,
        },
        None => j,
    }
}

pub open spec fn upgrade_meshes(j: JsonView) -> JsonView {
    match j.get("meshes"@) {
        Some(v) => match v {
            JsonView::Arr(ms) => j.put(
                "meshes"@,
                JsonView::Arr(Seq::new(ms.len(), |i: int| upgrade_mesh(ms[i]))),
            ),
            _ => j,
        },
        None => j,
    }
}

/// The whole legacy upgrade; a file the version gate refuses is unchanged.
pub open spec fn upgrade_spec(j: JsonView) -> JsonView {
    if upgrade_gate(j) {
        upgrade_meshes(upgrade_images(j))
    } else {
        j
    }
}

fn check_gate(j: &Json) -> (r: bool)
    ensures
        r == upgrade_gate(j@),
{
    match j.get("extensions") {
        Some(e) => match e.get("VRM") {
            Some(vrm) => {
                match vrm.get("exporterVersion") {
                    Some(_) => false,
                    None => {
                        match vrm.get("version") {
                            Some(v) => match v {
                                Json::Str(s) => {
                                    match version_major_minor(s.as_str()) {
                                        Some((major, minor)) => major == 0 && minor <= 35,
                                        None => false,
                                    }
                                },
                                _ => false,
                            },
                            None => false,
                        }
                    },
                }
            },
            None => false,
        },
        None => false,
    }
}

fn neg_one_exec(v: Option<&Json>) -> (r: bool)
    ensures
        r == is_neg_one(match v {
            Some(x) => Some(x@),
            None => None,
        }),
{
    match v {
        Some(x) => match x {
            Json::Num(s) => str_eq(s.as_str(), "-1"),
            _ => false,
        },
        None => false,
    }
}

fn upgrade_target_exec(t: Json) -> (r: Json)
    ensures
        r@ == upgrade_target(t@),
{
    match t {
        Json::Obj(m) => {
            let t = Json::Obj(m);
            let t1 = if neg_one_exec(t.get("JOINTS_0")) {
                t.del("JOINTS_0")
            } else {
                t
            };
            let t2 = if neg_one_exec(t1.get("TEXCOORD_0")) {
                t1.del("TEXCOORD_0")
            } else {
                t1
            };
            let t3 = if neg_one_exec(t2.get("WEIGHTS_0")) {
                t2.del("WEIGHTS_0")
            } else {
                t2
            };
            t3.del("extra")
        },
        other => other,
    }
}

fn upgrade_image_exec(im: Json) -> (r: Json)
    ensures
        r@ == upgrade_image(im@),
{
    let name_weak = match im.get("name") {
        Some(v) => match v {
            Json::Str(s) => s.as_str().unicode_len() == 0,
            _ => true,
        },
        None => true,
    };
    let extra_name: Option<Json> = match im.get("extra") {
        Some(e) => match e.get("name") {
            Some(n) => match n {
                Json::Str(s) => {
                    if s.as_str().unicode_len() > 0 {
                        Some(Json::Str(s.clone()))
                    } else {
                        None
                    }
                },
                _ => None,
            },
            None => None,
        },
        None => None,
    };
    let im1 = match extra_name {
        Some(en) => {
            if name_weak {
                im.put("name", en)
            } else {
                im
            }
        },
        None => im,
    };
    im1.del("extra")
}

#[verifier::loop_isolation(false)]
fn target_names_exec(ts: &Vec<Json>) -> (r: Vec<Json>)
    ensures
        arr_view(r@) == target_names(arr_view(ts@)),
{
    proof {
        lemma_arr_view(ts@);
    }
    let ghost tv = arr_view(ts@);
    let n = ts.len();
    let mut out: Vec<Json> = Vec::new();
    let mut i: usize = 0;
    proof {
        assert(tv.skip(0) =~= tv);
        assert(arr_view(out@) =~= Seq::<JsonView>::empty());
    }
    while i < n
        invariant
            0 <= i <= n,
            arr_view(out@) + target_names(tv.skip(i as int)) == target_names(tv),
        decreases n - i,
    {
        proof {
            assert(tv.skip(i as int)[0] == tv[i as int]);
            assert(tv.skip(i as int).drop_first() =~= tv.skip(i + 1));
        }
        let ghost out0 = arr_view(out@);
        proof {
            lemma_arr_view(out@);
        }
        let name: Option<Json> = match &ts[i] {
            Json::Obj(_) => match ts[i].get("extra") {
                Some(e) => match e {
                    Json::Obj(_) => match e.get("name") {
                        Some(nv) => match nv {
                            Json::Str(s) => {
                                if s.as_str().unicode_len() > 0 {
                                    Some(Json::Str(s.clone()))
                                } else {
                                    None
                                }
                            },
                            _ => None,
                        },
                        None => None,
                    },
                    _ => None,
                },
                None => None,
            },
            _ => None,
        };
        match name {
            Some(nj) => {
                out.push(nj);
                proof {
                    lemma_arr_view(out@);
                    assert(arr_view(out@) =~= out0.push(tv[i as int].get("extra"@)->Some_0.get(
                        "name"@,
                    )->Some_0));
                    assert(arr_view(out@) + target_names(tv.skip(i + 1)) =~= out0 + target_names(
                        tv.skip(i as int),
                    ));
                }
            },
            None => {
                proof {
                    assert(arr_view(out@) + target_names(tv.skip(i + 1)) =~= out0 + target_names(
                        tv.skip(i as int),
                    ));
                }
            },
        }
        i += 1;
    }
    proof {
        assert(tv.skip(n as int) =~= Seq::<JsonView>::empty());
        assert(arr_view(out@) =~= target_names(tv));
    }
    out
}

#[verifier::loop_isolation(false)]
fn upgrade_primitive_exec(p: Json) -> (r: Json)
    ensures
        r@ == upgrade_primitive(p@),
{
    match p {
        Json::Obj(m) => {
            let p = Json::Obj(m);
            let ghost pv = p@;
            let (names, has_targets, ts_empty, ghost_ts): (
                Vec<Json>,
                bool,
                bool,
                Ghost<Seq<JsonView>>,
            ) = match p.get("targets") {
                Some(tj) => match tj {
                    Json::Arr(ts) => {
                        proof {
                            lemma_arr_view(ts@);
                        }
                        (target_names_exec(ts), true, ts.len() == 0, Ghost(arr_view(ts@)))
                    },
                    _ => (Vec::new(), false, false, Ghost(Seq::empty())),
                },
                None => (Vec::new(), false, false, Ghost(Seq::empty())),
            };
            let ghost ts = ghost_ts@;
            proof {
                if !has_targets {
                    assert(arr_view(names@) =~= Seq::<JsonView>::empty());
                    assert(target_names(ts) =~= Seq::<JsonView>::empty());
                }
            }
            let nempty = names.len() == 0;
            let p1 = if !nempty {
                let mut extras: Vec<(String, Json)> = Vec::new();
                extras.push((String::from_str("targetNames"), Json::Arr(names)));
                proof {
                    lemma_obj_view(extras@);
                    assert(obj_view(extras@) =~= seq![
                        ("targetNames"@, JsonView::Arr(target_names(ts))),
                    ]);
                }
                p.put("extras", Json::Obj(extras))
            } else {
                p
            };
            proof {
                reveal_strlit("extras");
                reveal_strlit("targets");
                assert("extras"@.len() == 6);
                assert("targets"@.len() == 7);
                assert("extras"@ != "targets"@);
                if pv.get("targets"@) is Some {
                    if !nempty {
                        assert(pv is Obj);
                        crate::json::lemma_find_put_other(
                            pv->Obj_0,
                            "targets"@,
                            "extras"@,
                            JsonView::Obj(seq![("targetNames"@, JsonView::Arr(target_names(ts)))]),
                        );
                    }
                    assert(p1@.get("targets"@) == pv.get("targets"@));
                }
            }
            let p2 = if has_targets {
                match p1 {
                    Json::Obj(mut m1) => {
                        let ghost entries = obj_view(m1@);
                        proof {
                            lemma_obj_view(m1@);
                        }
                        match find_key(&m1, "targets") {
                            Some(idx) => {
                                let (kstr, val) = m1.remove(idx);
                                proof {
                                    lemma_obj_find_at(entries, "targets"@, idx as int);
                                }
                                match val {
                                    Json::Arr(tsv) => {
                                        let ghost tsv0 = arr_view(tsv@);
                                        let mut rest = tsv;
                                        let mut out: Vec<Json> = Vec::new();
                                        let mut i: usize = 0;
                                        let tn = rest.len();
                                        proof {
                                            lemma_arr_view(rest@);
                                            assert(arr_view(out@) =~= Seq::<JsonView>::empty());
                                        }
                                        while rest.len() > 0
                                            invariant
                                                i + rest@.len() == tn,
                                                tn == tsv0.len(),
                                                arr_view(rest@) =~= tsv0.skip(i as int),
                                                arr_view(out@) =~= Seq::new(
                                                    tsv0.len(),
                                                    |q: int| upgrade_target(tsv0[q]),
                                                ).subrange(0, i as int),
                                            decreases rest@.len(),
                                        {
                                            let ghost rest0 = arr_view(rest@);
                                            let ghost out0 = arr_view(out@);
                                            proof {
                                                lemma_arr_view(rest@);
                                                lemma_arr_view(out@);
                                                assert(rest0[0] == tsv0[i as int]);
                                            }
                                            let e = rest.remove(0);
                                            let e2 = upgrade_target_exec(e);
                                            out.push(e2);
                                            i += 1;
                                            proof {
                                                lemma_arr_view(rest@);
                                                lemma_arr_view(out@);
                                                assert(arr_view(rest@) =~= rest0.drop_first());
                                                assert(arr_view(rest@) =~= tsv0.skip(i as int));
                                                assert(arr_view(out@) =~= out0.push(
                                                    upgrade_target(tsv0[i - 1]),
                                                ));
                                                assert(arr_view(out@) =~= Seq::new(
                                                    tsv0.len(),
                                                    |q: int| upgrade_target(tsv0[q]),
                                                ).subrange(0, i as int));
                                            }
                                        }
                                        proof {
                                            assert(arr_view(out@) =~= Seq::new(
                                                tsv0.len(),
                                                |q: int| upgrade_target(tsv0[q]),
                                            ));
                                        }
                                        m1.insert(idx, (kstr, Json::Arr(out)));
                                        proof {
                                            lemma_obj_view(m1@);
                                            lemma_obj_put_at(
                                                entries,
                                                "targets"@,
                                                JsonView::Arr(
                                                    Seq::new(
                                                        ts.len(),
                                                        |q: int| upgrade_target(ts[q]),
                                                    ),
                                                ),
                                                idx as int,
                                            );
                                            assert(obj_view(m1@) =~= obj_put(
                                                entries,
                                                "targets"@,
                                                JsonView::Arr(
                                                    Seq::new(
                                                        ts.len(),
                                                        |q: int| upgrade_target(ts[q]),
                                                    ),
                                                ),
                                            ));
                                        }
                                        Json::Obj(m1)
                                    },
                                    other => {
                                        m1.insert(idx, (kstr, other));
                                        proof {
                                            lemma_obj_view(m1@);
                                            assert(obj_view(m1@) =~= entries);
                                        }
                                        Json::Obj(m1)
                                    },
                                }
                            },
                            None => {
                                proof {
                                    lemma_obj_find_missing(entries, "targets"@);
                                }
                                Json::Obj(m1)
                            },
                        }
                    },
                    other => other,
                }
            } else {
                p1
            };
            if has_targets && ts_empty {
                p2.del("targets")
            } else {
                p2
            }
        },
        other => other,
    }
}

#[verifier::loop_isolation(false)]
fn upgrade_mesh_exec(j: Json) -> (r: Json)
    ensures
        r@ == upgrade_mesh(j@),
{
    match j {
        Json::Obj(mut m) => {
            let ghost entries = obj_view(m@);
            proof {
                lemma_obj_view(m@);
            }
            match find_key(&m, "primitives") {
                Some(idx) => {
                    let (kstr, val) = m.remove(idx);
                    proof {
                        lemma_obj_find_at(entries, "primitives"@, idx as int);
                    }
                    match val {
                        Json::Arr(vs) => {
                            let ghost vs0 = arr_view(vs@);
                            let mut rest = vs;
                            let mut out: Vec<Json> = Vec::new();
                            let mut i: usize = 0;
                            let n = rest.len();
                            proof {
                                lemma_arr_view(rest@);
                                assert(arr_view(out@) =~= Seq::<JsonView>::empty());
                            }
                            while rest.len() > 0
                                invariant
                                    i + rest@.len() == n,
                                    n == vs0.len(),
                                    arr_view(rest@) =~= vs0.skip(i as int),
                                    arr_view(out@) =~= Seq::new(
                                        vs0.len(),
                                        |q: int| upgrade_primitive(vs0[q]),
                                    ).subrange(0, i as int),
                                decreases rest@.len(),
                            {
                                let ghost rest0 = arr_view(rest@);
                                let ghost out0 = arr_view(out@);
                                proof {
                                    lemma_arr_view(rest@);
                                    lemma_arr_view(out@);
                                    assert(rest0[0] == vs0[i as int]);
                                }
                                let e = rest.remove(0);
                                let e2 = upgrade_primitive_exec(e);
                                out.push(e2);
                                i += 1;
                                proof {
                                    lemma_arr_view(rest@);
                                    lemma_arr_view(out@);
                                    assert(arr_view(rest@) =~= rest0.drop_first());
                                    assert(arr_view(rest@) =~= vs0.skip(i as int));
                                    assert(arr_view(out@) =~= out0.push(upgrade_primitive(vs0[i - 1])));
                                    assert(arr_view(out@) =~= Seq::new(
                                        vs0.len(),
                                        |q: int| upgrade_primitive(vs0[q]),
                                    ).subrange(0, i as int));
                                }
                            }
                            proof {
                                assert(arr_view(out@) =~= Seq::new(
                                    vs0.len(),
                                    |q: int| upgrade_primitive(vs0[q]),
                                ));
                            }
                            m.insert(idx, (kstr, Json::Arr(out)));
                            proof {
                                lemma_obj_view(m@);
                                lemma_obj_put_at(
                                    entries,
                                    "primitives"@,
                                    JsonView::Arr(Seq::new(vs0.len(), |q: int| upgrade_primitive(vs0[q]))),
                                    idx as int,
                                );
                                assert(obj_view(m@) =~= obj_put(
                                    entries,
                                    "primitives"@,
                                    JsonView::Arr(Seq::new(vs0.len(), |q: int| upgrade_primitive(vs0[q]))),
                                ));
                            }
                            Json::Obj(m)
                        },
                        other => {
                            m.insert(idx, (kstr, other));
                            proof {
                                lemma_obj_view(m@);
                                assert(obj_view(m@) =~= entries);
                            }
                            Json::Obj(m)
                        },
                    }
                },
                None => {
                    proof {
                        lemma_obj_find_missing(entries, "primitives"@);
                    }
                    Json::Obj(m)
                },
            }
        },
        other => other,
    }
}

#[verifier::loop_isolation(false)]
fn upgrade_images_pass(j: Json) -> (r: Json)
    ensures
        r@ == upgrade_images(j@),
{
    match j {
        Json::Obj(mut m) => {
            let ghost entries = obj_view(m@);
            proof {
                lemma_obj_view(m@);
            }
            match find_key(&m, "images") {
                Some(idx) => {
                    let (kstr, val) = m.remove(idx);
                    proof {
                        lemma_obj_find_at(entries, "images"@, idx as int);
                    }
                    match val {
                        Json::Arr(vs) => {
                            let ghost vs0 = arr_view(vs@);
                            let mut rest = vs;
                            let mut out: Vec<Json> = Vec::new();
                            let mut i: usize = 0;
                            let n = rest.len();
                            proof {
                                lemma_arr_view(rest@);
                                assert(arr_view(out@) =~= Seq::<JsonView>::empty());
                            }
                            while rest.len() > 0
                                invariant
                                    i + rest@.len() == n,
                                    n == vs0.len(),
                                    arr_view(rest@) =~= vs0.skip(i as int),
                                    arr_view(out@) =~= Seq::new(
                                        vs0.len(),
                                        |q: int| upgrade_image(vs0[q]),
                                    ).subrange(0, i as int),
                                decreases rest@.len(),
                            {
                                let ghost rest0 = arr_view(rest@);
                                let ghost out0 = arr_view(out@);
                                proof {
                                    lemma_arr_view(rest@);
                                    lemma_arr_view(out@);
                                    assert(rest0[0] == vs0[i as int]);
                                }
                                let e = rest.remove(0);
                                let e2 = upgrade_image_exec(e);
                                out.push(e2);
                                i += 1;
                                proof {
                                    lemma_arr_view(rest@);
                                    lemma_arr_view(out@);
                                    assert(arr_view(rest@) =~= rest0.drop_first());
                                    assert(arr_view(rest@) =~= vs0.skip(i as int));
                                    assert(arr_view(out@) =~= out0.push(upgrade_image(vs0[i - 1])));
                                    assert(arr_view(out@) =~= Seq::new(
                                        vs0.len(),
                                        |q: int| upgrade_image(vs0[q]),
                                    ).subrange(0, i as int));
                                }
                            }
                            proof {
                                assert(arr_view(out@) =~= Seq::new(
                                    vs0.len(),
                                    |q: int| upgrade_image(vs0[q]),
                                ));
                            }
                            m.insert(idx, (kstr, Json::Arr(out)));
                            proof {
                                lemma_obj_view(m@);
                                lemma_obj_put_at(
                                    entries,
                                    "images"@,
                                    JsonView::Arr(Seq::new(vs0.len(), |q: int| upgrade_image(vs0[q]))),
                                    idx as int,
                                );
                                assert(obj_view(m@) =~= obj_put(
                                    entries,
                                    "images"@,
                                    JsonView::Arr(Seq::new(vs0.len(), |q: int| upgrade_image(vs0[q]))),
                                ));
                            }
                            Json::Obj(m)
                        },
                        other => {
                            m.insert(idx, (kstr, other));
                            proof {
                                lemma_obj_view(m@);
                                assert(obj_view(m@) =~= entries);
                            }
                            Json::Obj(m)
                        },
                    }
                },
                None => {
                    proof {
                        lemma_obj_find_missing(entries, "images"@);
                    }
                    Json::Obj(m)
                },
            }
        },
        other => other,
    }
}

#[verifier::loop_isolation(false)]
fn upgrade_meshes_pass(j: Json) -> (r: Json)
    ensures
        r@ == upgrade_meshes(j@),
{
    match j {
        Json::Obj(mut m) => {
            let ghost entries = obj_view(m@);
            proof {
                lemma_obj_view(m@);
            }
            match find_key(&m, "meshes") {
                Some(idx) => {
                    let (kstr, val) = m.remove(idx);
                    proof {
                        lemma_obj_find_at(entries, "meshes"@, idx as int);
                    }
                    match val {
                        Json::Arr(vs) => {
                            let ghost vs0 = arr_view(vs@);
                            let mut rest = vs;
                            let mut out: Vec<Json> = Vec::new();
                            let mut i: usize = 0;
                            let n = rest.len();
                            proof {
                                lemma_arr_view(rest@);
                                assert(arr_view(out@) =~= Seq::<JsonView>::empty());
                            }
                            while rest.len() > 0
                                invariant
                                    i + rest@.len() == n,
                                    n == vs0.len(),
                                    arr_view(rest@) =~= vs0.skip(i as int),
                                    arr_view(out@) =~= Seq::new(
                                        vs0.len(),
                                        |q: int| upgrade_mesh(vs0[q]),
                                    ).subrange(0, i as int),
                                decreases rest@.len(),
                            {
                                let ghost rest0 = arr_view(rest@);
                                let ghost out0 = arr_view(out@);
                                proof {
                                    lemma_arr_view(rest@);
                                    lemma_arr_view(out@);
                                    assert(rest0[0] == vs0[i as int]);
                                }
                                let e = rest.remove(0);
                                let e2 = upgrade_mesh_exec(e);
                                out.push(e2);
                                i += 1;
                                proof {
                                    lemma_arr_view(rest@);
                                    lemma_arr_view(out@);
                                    assert(arr_view(rest@) =~= rest0.drop_first());
                                    assert(arr_view(rest@) =~= vs0.skip(i as int));
                                    assert(arr_view(out@) =~= out0.push(upgrade_mesh(vs0[i - 1])));
                                    assert(arr_view(out@) =~= Seq::new(
                                        vs0.len(),
                                        |q: int| upgrade_mesh(vs0[q]),
                                    ).subrange(0, i as int));
                                }
                            }
                            proof {
                                assert(arr_view(out@) =~= Seq::new(
                                    vs0.len(),
                                    |q: int| upgrade_mesh(vs0[q]),
                                ));
                            }
                            m.insert(idx, (kstr, Json::Arr(out)));
                            proof {
                                lemma_obj_view(m@);
                                lemma_obj_put_at(
                                    entries,
                                    "meshes"@,
                                    JsonView::Arr(Seq::new(vs0.len(), |q: int| upgrade_mesh(vs0[q]))),
                                    idx as int,
                                );
                                assert(obj_view(m@) =~= obj_put(
                                    entries,
                                    "meshes"@,
                                    JsonView::Arr(Seq::new(vs0.len(), |q: int| upgrade_mesh(vs0[q]))),
                                ));
                            }
                            Json::Obj(m)
                        },
                        other => {
                            m.insert(idx, (kstr, other));
                            proof {
                                lemma_obj_view(m@);
                                assert(obj_view(m@) =~= entries);
                            }
                            Json::Obj(m)
                        },
                    }
                },
                None => {
                    proof {
                        lemma_obj_find_missing(entries, "meshes"@);
                    }
                    Json::Obj(m)
                },
            }
        },
        other => other,
    }
}

/// The legacy upgrade of a whole document, as [`upgrade_spec`] states: the
/// identity unless the version gate holds.
pub fn upgrade_doc(v: Json) -> (r: Json)
    ensures
        r@ == upgrade_spec(v@),
{
    if !check_gate(&v) {
        return v;
    }
    let v1 = upgrade_images_pass(v);
    upgrade_meshes_pass(v1)
}

/// Upgrading a morph target twice equals upgrading it once, for targets
/// whose keys are free of duplicates.
pub proof fn lemma_upgrade_target_idempotent(t: JsonView)
    requires
        t is Obj ==> nodup_keys(t->Obj_0),
    ensures
        upgrade_target(upgrade_target(t)) == upgrade_target(t),
{
    reveal_strlit("JOINTS_0");
    reveal_strlit("TEXCOORD_0");
    reveal_strlit("WEIGHTS_0");
    reveal_strlit("extra");
    assert("JOINTS_0"@.len() == 8);
    assert("TEXCOORD_0"@.len() == 10);
    assert("WEIGHTS_0"@.len() == 9);
    assert("extra"@.len() == 5);
    if t is Obj {
        let t1 = if is_neg_one(t.get("JOINTS_0"@)) {
            t.del("JOINTS_0"@)
        } else {
            t
        };
        if is_neg_one(t.get("JOINTS_0"@)) {
            lemma_del_nodup(t->Obj_0, "JOINTS_0"@);
            lemma_del_removes(t->Obj_0, "JOINTS_0"@);
        }
        assert(t1 is Obj && nodup_keys(t1->Obj_0));
        assert(!is_neg_one(t1.get("JOINTS_0"@)));
        let t2 = if is_neg_one(t1.get("TEXCOORD_0"@)) {
            t1.del("TEXCOORD_0"@)
        } else {
            t1
        };
        if is_neg_one(t1.get("TEXCOORD_0"@)) {
            lemma_del_nodup(t1->Obj_0, "TEXCOORD_0"@);
            lemma_del_removes(t1->Obj_0, "TEXCOORD_0"@);
            lemma_find_del_other(t1->Obj_0, "JOINTS_0"@, "TEXCOORD_0"@);
        }
        assert(t2 is Obj && nodup_keys(t2->Obj_0));
        assert(!is_neg_one(t2.get("TEXCOORD_0"@)));
        assert(!is_neg_one(t2.get("JOINTS_0"@)));
        let t3 = if is_neg_one(t2.get("WEIGHTS_0"@)) {
            t2.del("WEIGHTS_0"@)
        } else {
            t2
        };
        if is_neg_one(t2.get("WEIGHTS_0"@)) {
            lemma_del_nodup(t2->Obj_0, "WEIGHTS_0"@);
            lemma_del_removes(t2->Obj_0, "WEIGHTS_0"@);
            lemma_find_del_other(t2->Obj_0, "JOINTS_0"@, "WEIGHTS_0"@);
            lemma_find_del_other(t2->Obj_0, "TEXCOORD_0"@, "WEIGHTS_0"@);
        }
        assert(t3 is Obj && nodup_keys(t3->Obj_0));
        let r = t3.del("extra"@);
        lemma_del_nodup(t3->Obj_0, "extra"@);
        lemma_find_del_other(t3->Obj_0, "JOINTS_0"@, "extra"@);
        lemma_find_del_other(t3->Obj_0, "TEXCOORD_0"@, "extra"@);
        lemma_find_del_other(t3->Obj_0, "WEIGHTS_0"@, "extra"@);
        lemma_del_removes(t3->Obj_0, "extra"@);
        assert(!is_neg_one(r.get("JOINTS_0"@)));
        assert(!is_neg_one(r.get("TEXCOORD_0"@)));
        assert(!is_neg_one(r.get("WEIGHTS_0"@)));
        assert(r.get("extra"@) is None);
        crate::json::lemma_find_none_missing(r->Obj_0, "extra"@);
        lemma_obj_del_missing(r->Obj_0, "extra"@);
        assert(upgrade_target(r) =~~= r);
    }
}

/// Upgrading an image twice equals upgrading it once, for images whose keys
/// are free of duplicates.
pub proof fn lemma_upgrade_image_idempotent(im: JsonView)
    requires
        im is Obj ==> nodup_keys(im->Obj_0),
    ensures
        upgrade_image(upgrade_image(im)) == upgrade_image(im),
{
    reveal_strlit("name");
    reveal_strlit("extra");
    assert("name"@.len() == 4);
    assert("extra"@.len() == 5);
    if im is Obj {
        let name_weak = match im.get("name"@) {
            Some(v) => !(v is Str) || v->Str_0.len() == 0,
            None => true,
        };
        let extra_name = match im.get("extra"@) {
            Some(e) => e.get("name"@),
            None => None,
        };
        let im1 = match extra_name {
            Some(en) => if name_weak && en.is_nonempty_string() {
                im.put("name"@, en)
            } else {
                im
            },
            None => im,
        };
        if im1 != im {
            lemma_put_nodup(im->Obj_0, "name"@, extra_name->Some_0);
            crate::json::lemma_find_put_same(im->Obj_0, "name"@, extra_name->Some_0);
        }
        assert(im1 is Obj && nodup_keys(im1->Obj_0));
        let r = im1.del("extra"@);
        lemma_del_nodup(im1->Obj_0, "extra"@);
        lemma_del_removes(im1->Obj_0, "extra"@);
        lemma_find_del_other(im1->Obj_0, "name"@, "extra"@);
        assert(r.get("extra"@) is None);
        let name_weak2 = match r.get("name"@) {
            Some(v) => !(v is Str) || v->Str_0.len() == 0,
            None => true,
        };
        if im1 != im {
            assert(r.get("name"@) == Some(extra_name->Some_0));
            assert(!name_weak2);
        }
        crate::json::lemma_find_none_missing(r->Obj_0, "extra"@);
        lemma_obj_del_missing(r->Obj_0, "extra"@);
        assert(upgrade_image(r) =~~= r.del("extra"@));
        assert(upgrade_image(r) =~~= r);
    } else {
        assert(upgrade_image(im) == im);
        assert(upgrade_image(upgrade_image(im)) == im);
    }
}

/// Upgrading a mesh primitive twice equals upgrading it once, for primitives
/// and targets whose keys are free of duplicates.
pub proof fn lemma_upgrade_primitive_idempotent(p: JsonView)
    requires
        p is Obj ==> nodup_keys(p->Obj_0),
        p is Obj ==> (match p.get("targets"@) {
            Some(v) => v is Arr ==> (forall|q: int|
                0 <= q < v->Arr_0.len() ==> ((#[trigger] v->Arr_0[q]) is Obj ==> nodup_keys(
                    v->Arr_0[q]->Obj_0,
                ))),
            None => true,
        }),
    ensures
        upgrade_primitive(upgrade_primitive(p)) == upgrade_primitive(p),
{
    reveal_strlit("extras");
    reveal_strlit("targets");
    assert("extras"@.len() == 6);
    assert("targets"@.len() == 7);
    assert("extras"@ != "targets"@);
    if p is Obj {
        let ts = match p.get("targets"@) {
            Some(v) => match v {
                JsonView::Arr(a) => a,
                _ => Seq::<JsonView>::empty(),
            },
            None => Seq::<JsonView>::empty(),
        };
        let has_targets = match p.get("targets"@) {
            Some(v) => v is Arr,
            None => false,
        };
        let names = target_names(ts);
        let extras_obj = JsonView::Obj(seq![("targetNames"@, JsonView::Arr(names))]);
        let p1 = if names.len() > 0 {
            p.put("extras"@, extras_obj)
        } else {
            p
        };
        if names.len() > 0 {
            lemma_put_nodup(p->Obj_0, "extras"@, extras_obj);
        }
        assert(p1 is Obj && nodup_keys(p1->Obj_0));
        if names.len() > 0 {
            lemma_find_put_other(p->Obj_0, "targets"@, "extras"@, extras_obj);
        }
        assert(p1.get("targets"@) == p.get("targets"@));
        let mapped = Seq::new(ts.len(), |i: int| upgrade_target(ts[i]));
        let p2 = if has_targets {
            p1.put("targets"@, JsonView::Arr(mapped))
        } else {
            p1
        };
        if has_targets {
            lemma_put_nodup(p1->Obj_0, "targets"@, JsonView::Arr(mapped));
            crate::json::lemma_find_put_same(p1->Obj_0, "targets"@, JsonView::Arr(mapped));
        }
        assert(p2 is Obj && nodup_keys(p2->Obj_0));
        let r = upgrade_primitive(p);
        if !has_targets {
            // No target list: nothing to gather, nothing to rewrite.
            assert(ts =~= Seq::<JsonView>::empty());
            assert(names =~= Seq::<JsonView>::empty());
            assert(r == p);
            assert(upgrade_primitive(r) == r);
        } else if ts.len() == 0 {
            // An empty target list disappears, so the second pass gathers
            // nothing and rewrites nothing.
            assert(names =~= Seq::<JsonView>::empty());
            assert(p1 == p);
            assert(r == p2.del("targets"@));
            lemma_del_nodup(p2->Obj_0, "targets"@);
            lemma_del_removes(p2->Obj_0, "targets"@);
            assert(r.get("targets"@) is None);
            assert(upgrade_primitive(r) == r);
        } else {
            assert(r == p2);
            // The second pass sees the upgraded targets: their old `extra`
            // containers are gone, so no names are gathered, and upgrading
            // them again changes nothing.
            assert(r.get("targets"@) == Some(JsonView::Arr(mapped)));
            assert(target_names(mapped) =~= Seq::<JsonView>::empty()) by {
                lemma_upgraded_names_empty(ts, mapped);
            }
            let mapped2 = Seq::new(mapped.len(), |i: int| upgrade_target(mapped[i]));
            assert(mapped2 =~= mapped) by {
                assert forall|i: int| 0 <= i < mapped.len() implies #[trigger] mapped2[i]
                    == mapped[i] by {
                    lemma_upgrade_target_idempotent(ts[i]);
                }
            }
            assert(upgrade_primitive(r) == r.put("targets"@, JsonView::Arr(mapped2)));
            crate::json::lemma_put_same_value(r->Obj_0, "targets"@, JsonView::Arr(mapped));
            assert(upgrade_primitive(r) == r);
        }
    }
}

/// Upgraded targets carry no names to gather: their `extra` containers are
/// gone.
proof fn lemma_upgraded_names_empty(ts: Seq<JsonView>, mapped: Seq<JsonView>)
    requires
        mapped.len() == ts.len(),
        forall|i: int| 0 <= i < ts.len() ==> #[trigger] mapped[i] == upgrade_target(ts[i]),
        forall|q: int|
            0 <= q < ts.len() ==> ((#[trigger] ts[q]) is Obj ==> nodup_keys(ts[q]->Obj_0)),
    ensures
        target_names(mapped) =~= Seq::<JsonView>::empty(),
    decreases mapped.len(),
{
    reveal_strlit("extra");
    if mapped.len() > 0 {
        assert(forall|q: int|
            0 <= q < ts.len() - 1 ==> #[trigger] ts.drop_first()[q] == ts[q + 1]);
        assert(forall|q: int|
            0 <= q < mapped.len() - 1 ==> #[trigger] mapped.drop_first()[q] == mapped[q + 1]);
        lemma_upgraded_names_empty(ts.drop_first(), mapped.drop_first());
        let t = ts[0];
        assert(mapped[0] == upgrade_target(t));
        if t is Obj {
            let t1 = if is_neg_one(t.get("JOINTS_0"@)) {
                t.del("JOINTS_0"@)
            } else {
                t
            };
            if is_neg_one(t.get("JOINTS_0"@)) {
                lemma_del_nodup(t->Obj_0, "JOINTS_0"@);
            }
            let t2 = if is_neg_one(t1.get("TEXCOORD_0"@)) {
                t1.del("TEXCOORD_0"@)
            } else {
                t1
            };
            if is_neg_one(t1.get("TEXCOORD_0"@)) {
                lemma_del_nodup(t1->Obj_0, "TEXCOORD_0"@);
            }
            let t3 = if is_neg_one(t2.get("WEIGHTS_0"@)) {
                t2.del("WEIGHTS_0"@)
            } else {
                t2
            };
            if is_neg_one(t2.get("WEIGHTS_0"@)) {
                lemma_del_nodup(t2->Obj_0, "WEIGHTS_0"@);
            }
            lemma_del_removes(t3->Obj_0, "extra"@);
            assert(mapped[0].get("extra"@) is None);
        }
    }
}

/// The duplicate-free-key conditions the idempotence laws ask of a
/// primitive: its own keys, and its targets' keys.
pub open spec fn prim_keys_ok(p: JsonView) -> bool {
    &&& (p is Obj ==> nodup_keys(p->Obj_0))
    &&& (p is Obj ==> (match p.get("targets"@) {
        Some(v) => v is Arr ==> (forall|q: int|
            0 <= q < v->Arr_0.len() ==> ((#[trigger] v->Arr_0[q]) is Obj ==> nodup_keys(
                v->Arr_0[q]->Obj_0,
            ))),
        None => true,
    }))
}

pub open spec fn mesh_keys_ok(m: JsonView) -> bool {
    match m.get("primitives"@) {
        Some(v) => v is Arr ==> (forall|q: int|
            0 <= q < v->Arr_0.len() ==> prim_keys_ok(#[trigger] v->Arr_0[q])),
        None => true,
    }
}

/// The duplicate-free-key conditions the whole-document idempotence law asks
/// of the document: its images' keys and its meshes' primitives' keys.
pub open spec fn doc_keys_ok(j: JsonView) -> bool {
    &&& (match j.get("images"@) {
        Some(v) => v is Arr ==> (forall|q: int|
            0 <= q < v->Arr_0.len() ==> ((#[trigger] v->Arr_0[q]) is Obj ==> nodup_keys(
                v->Arr_0[q]->Obj_0,
            ))),
        None => true,
    })
    &&& (match j.get("meshes"@) {
        Some(v) => v is Arr ==> (forall|q: int|
            0 <= q < v->Arr_0.len() ==> mesh_keys_ok(#[trigger] v->Arr_0[q])),
        None => true,
    })
}

/// Upgrading a mesh twice equals upgrading it once.
pub proof fn lemma_upgrade_mesh_idempotent(m: JsonView)
    requires
        mesh_keys_ok(m),
    ensures
        upgrade_mesh(upgrade_mesh(m)) == upgrade_mesh(m),
{
    match m.get("primitives"@) {
        Some(v) => match v {
            JsonView::Arr(ps) => {
                let mapped = Seq::new(ps.len(), |i: int| upgrade_primitive(ps[i]));
                let r = m.put("primitives"@, JsonView::Arr(mapped));
                assert(m is Obj);
                crate::json::lemma_find_put_same(m->Obj_0, "primitives"@, JsonView::Arr(mapped));
                assert(r.get("primitives"@) == Some(JsonView::Arr(mapped)));
                let mapped2 = Seq::new(mapped.len(), |i: int| upgrade_primitive(mapped[i]));
                assert(mapped2 =~= mapped) by {
                    assert forall|i: int| 0 <= i < mapped.len() implies #[trigger] mapped2[i]
                        == mapped[i] by {
                        lemma_upgrade_primitive_idempotent(ps[i]);
                    }
                }
                assert(upgrade_mesh(r) == r.put("primitives"@, JsonView::Arr(mapped)));
                crate::json::lemma_put_same_value(r->Obj_0, "primitives"@, JsonView::Arr(mapped));
            },
            _ => {},
        },
        None => {},
    }
}

/// The whole legacy upgrade is idempotent: upgrading an upgraded document
/// changes nothing, for documents whose images, meshes and targets keep
/// their keys free of duplicates.
pub proof fn lemma_upgrade_idempotent(j: JsonView)
    requires
        doc_keys_ok(j),
    ensures
        upgrade_spec(upgrade_spec(j)) == upgrade_spec(j),
{
    reveal_strlit("images");
    reveal_strlit("meshes");
    reveal_strlit("extensions");
    assert("images"@.len() == 6);
    assert("meshes"@.len() == 6);
    assert("extensions"@.len() == 10);
    assert("images"@ != "meshes"@) by {
        assert("images"@[0] == 'i');
        assert("meshes"@[0] == 'm');
    }
    assert("images"@ != "extensions"@);
    assert("meshes"@ != "extensions"@);
    if upgrade_gate(j) {
        let j1 = upgrade_images(j);
        let j2 = upgrade_meshes(j1);
        // The images pass.
        let imapped = match j.get("images"@) {
            Some(v) => match v {
                JsonView::Arr(ims) => Seq::new(ims.len(), |i: int| upgrade_image(ims[i])),
                _ => Seq::<JsonView>::empty(),
            },
            None => Seq::<JsonView>::empty(),
        };
        match j.get("images"@) {
            Some(v) => {
                if v is Arr {
                    assert(j is Obj);
                    assert(j1 == j.put("images"@, JsonView::Arr(imapped)));
                    crate::json::lemma_find_put_same(j->Obj_0, "images"@, JsonView::Arr(imapped));
                    crate::json::lemma_find_put_other(
                        j->Obj_0,
                        "meshes"@,
                        "images"@,
                        JsonView::Arr(imapped),
                    );
                    crate::json::lemma_find_put_other(
                        j->Obj_0,
                        "extensions"@,
                        "images"@,
                        JsonView::Arr(imapped),
                    );
                }
            },
            None => {},
        }
        assert(j1.get("meshes"@) == j.get("meshes"@));
        assert(j1.get("extensions"@) == j.get("extensions"@));
        // The meshes pass.
        match j1.get("meshes"@) {
            Some(v) => {
                if v is Arr {
                    let ms = v->Arr_0;
                    let mmapped = Seq::new(ms.len(), |i: int| upgrade_mesh(ms[i]));
                    assert(j1 is Obj);
                    assert(j2 == j1.put("meshes"@, JsonView::Arr(mmapped)));
                    crate::json::lemma_find_put_same(j1->Obj_0, "meshes"@, JsonView::Arr(mmapped));
                    crate::json::lemma_find_put_other(
                        j1->Obj_0,
                        "images"@,
                        "meshes"@,
                        JsonView::Arr(mmapped),
                    );
                    crate::json::lemma_find_put_other(
                        j1->Obj_0,
                        "extensions"@,
                        "meshes"@,
                        JsonView::Arr(mmapped),
                    );
                }
            },
            None => {},
        }
        assert(j2.get("images"@) == j1.get("images"@));
        assert(j2.get("extensions"@) == j.get("extensions"@));
        assert(upgrade_gate(j2));
        // The second images pass leaves the upgraded images alone.
        let j3 = upgrade_images(j2);
        match j.get("images"@) {
            Some(v) => {
                if v is Arr {
                    let ims = v->Arr_0;
                    assert(j2.get("images"@) == Some(JsonView::Arr(imapped)));
                    let imapped2 = Seq::new(imapped.len(), |i: int| upgrade_image(imapped[i]));
                    assert(imapped2 =~= imapped) by {
                        assert forall|i: int| 0 <= i < imapped.len() implies #[trigger] imapped2[i]
                            == imapped[i] by {
                            lemma_upgrade_image_idempotent(ims[i]);
                        }
                    }
                    assert(j2 is Obj);
                    assert(j3 == j2.put("images"@, JsonView::Arr(imapped)));
                    crate::json::lemma_put_same_value(j2->Obj_0, "images"@, JsonView::Arr(imapped));
                    assert(j3 == j2);
                } else {
                    assert(j2.get("images"@) == Some(v));
                    assert(j3 == j2);
                }
            },
            None => {
                assert(j2.get("images"@) is None);
                assert(j3 == j2);
            },
        }
        // The second meshes pass leaves the upgraded meshes alone.
        let j4 = upgrade_meshes(j3);
        match j1.get("meshes"@) {
            Some(v) => {
                if v is Arr {
                    let ms = v->Arr_0;
                    let mmapped = Seq::new(ms.len(), |i: int| upgrade_mesh(ms[i]));
                    assert(j2.get("meshes"@) == Some(JsonView::Arr(mmapped)));
                    let mmapped2 = Seq::new(mmapped.len(), |i: int| upgrade_mesh(mmapped[i]));
                    assert(mmapped2 =~= mmapped) by {
                        assert forall|i: int| 0 <= i < mmapped.len() implies #[trigger] mmapped2[i]
                            == mmapped[i] by {
                            lemma_upgrade_mesh_idempotent(ms[i]);
                        }
                    }
                    assert(j2 is Obj);
                    assert(j4 == j2.put("meshes"@, JsonView::Arr(mmapped)));
                    crate::json::lemma_put_same_value(j2->Obj_0, "meshes"@, JsonView::Arr(mmapped));
                    assert(j4 == j2);
                } else {
                    assert(j2.get("meshes"@) == Some(v));
                    assert(j4 == j2);
                }
            },
            None => {
                assert(j2.get("meshes"@) is None);
                assert(j4 == j2);
            },
        }
        assert(upgrade_spec(j2) == j2);
    }
}

} // verus!
