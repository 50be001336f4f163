//! The cleaning pass of the pipeline: sweep the six swept index spaces in
//! upstream-to-downstream order, then complete the VRM extension metadata.

use vstd::prelude::*;
use crate::json::{Json, JsonView, json_view, arr_view, obj_view, obj_find, obj_put,
    lemma_arr_view, lemma_obj_view, lemma_find_put_same, lemma_put_same_value};
use crate::paths::{Step, StepV, step_view, path_view, sites, vals_used, strs, UsedSet,
    sorted_strict};
use crate::sweep::{paths_view, sites_multi, remap_multi, bads, sweep_spec, sweep_table,
    sweep_doc, sweep_resources, collect_multi, remap_multi_exec, heads_differ,
    lemma_sweep_kind_len, count_range, filter_kept};

verus! {

broadcast use vstd::group_vstd_default;

/// A diagnostic from a sweep: a reference site of the named kind whose value
/// is no unsigned 64-bit index; the sweep skipped it.
pub struct SweepWarning {
    pub kind: &'static str,
    pub text: String,
}

/// The caller-supplied work a reference enumerator performs at every numeric
/// reference site.
pub enum NumVisitor {
    /// Gather each site's index into the set; texts that denote no index go
    /// to the list.
    Collect(UsedSet, Vec<String>),
    /// Rewrite each site's index to its rank in the table.
    Remap(UsedSet),
}

pub open spec fn visitor_wf(f: NumVisitor) -> bool {
    match f {
        NumVisitor::Collect(u, b) => u.wf(),
        NumVisitor::Remap(t) => t.wf(),
    }
}

/// What an enumerator does to the document and the visitor, given the paths
/// of its kind.
pub open spec fn visited(
    j0: JsonView,
    f0: NumVisitor,
    j1: JsonView,
    f1: NumVisitor,
    paths: Seq<Seq<StepV>>,
) -> bool {
    match f0 {
        NumVisitor::Collect(u, b) => j1 == j0 && (f1 matches NumVisitor::Collect(u1, b1)
            && u1.wf() && u1.set() == u.set().union(vals_used(sites_multi(j0, paths)))
            && strs(b1@) == strs(b@) + bads(sites_multi(j0, paths))),
        NumVisitor::Remap(t) => f1 == f0 && j1 == remap_multi(j0, paths, t.v@),
    }
}

fn apply_visitor(gltf: Json, paths: &Vec<Vec<Step>>, f: NumVisitor) -> (r: (Json, NumVisitor))
    requires
        visitor_wf(f),
    ensures
        visitor_wf(r.1),
        visited(gltf@, f, r.0@, r.1, paths_view(paths@)),
{
    match f {
        NumVisitor::Collect(mut u, mut b) => {
            collect_multi(&gltf, paths, &mut u, &mut b);
            (gltf, NumVisitor::Collect(u, b))
        },
        NumVisitor::Remap(t) => {
            let out = remap_multi_exec(gltf, paths, &t);
            (out, NumVisitor::Remap(t))
        },
    }
}

/// The reference sites of the `materials` index space.
pub open spec fn material_paths() -> Seq<Seq<StepV>> {
    seq![
        seq![StepV::Key("meshes"@), StepV::Each, StepV::Key("primitives"@), StepV::Each, StepV::Key("material"@)],
    ]
}

pub(crate) fn material_paths_exec() -> (r: Vec<Vec<Step>>)
    ensures
        paths_view(r@) == material_paths(),
{
    let mut r: Vec<Vec<Step>> = Vec::new();
    let mut p0: Vec<Step> = Vec::new();
    p0.push(Step::Key("meshes"));
    p0.push(Step::Each);
    p0.push(Step::Key("primitives"));
    p0.push(Step::Each);
    p0.push(Step::Key("material"));
    r.push(p0);
    proof {
        assert(paths_view(r@) =~~= material_paths());
    }
    r
}

/// The reference sites of the `textures` index space.
pub open spec fn texture_paths() -> Seq<Seq<StepV>> {
    seq![
        seq![StepV::Key("materials"@), StepV::Each, StepV::Key("pbrMetallicRoughness"@), StepV::Key("baseColorTexture"@), StepV::Key("index"@)],
        seq![StepV::Key("materials"@), StepV::Each, StepV::Key("pbrMetallicRoughness"@), StepV::Key("metallicRoughnessTexture"@), StepV::Key("index"@)],
        seq![StepV::Key("materials"@), StepV::Each, StepV::Key("normalTexture"@), StepV::Key("index"@)],
        seq![StepV::Key("materials"@), StepV::Each, StepV::Key("occlusionTexture"@), StepV::Key("index"@)],
        seq![StepV::Key("materials"@), StepV::Each, StepV::Key("emissiveTexture"@), StepV::Key("index"@)],
        seq![StepV::Key("extensions"@), StepV::Key("VRM"@), StepV::Key("meta"@), StepV::Key("texture"@)],
        seq![StepV::Key("extensions"@), StepV::Key("VRM"@), StepV::Key("materialProperties"@), StepV::Each, StepV::Key("textureProperties"@), StepV::Key("_MainTex"@)],
        seq![StepV::Key("extensions"@), StepV::Key("VRM"@), StepV::Key("materialProperties"@), StepV::Each, StepV::Key("textureProperties"@), StepV::Key("_ShadeTexture"@)],
        seq![StepV::Key("extensions"@), StepV::Key("VRM"@), StepV::Key("materialProperties"@), StepV::Each, StepV::Key("textureProperties"@), StepV::Key("_ReceiveShadowTexture"@)],
        seq![StepV::Key("extensions"@), StepV::Key("VRM"@), StepV::Key("materialProperties"@), StepV::Each, StepV::Key("textureProperties"@), StepV::Key("_ShadingGradeTexture"@)],
        seq![StepV::Key("extensions"@), StepV::Key("VRM"@), StepV::Key("materialProperties"@), StepV::Each, StepV::Key("textureProperties"@), StepV::Key("_EmissionMap"@)],
        seq![StepV::Key("extensions"@), StepV::Key("VRM"@), StepV::Key("materialProperties"@), StepV::Each, StepV::Key("textureProperties"@), StepV::Key("_OutlineWidthTexture"@)],
    ]
}

pub(crate) fn texture_paths_exec() -> (r: Vec<Vec<Step>>)
    ensures
        paths_view(r@) == texture_paths(),
{
    let mut r: Vec<Vec<Step>> = Vec::new();
    let mut p0: Vec<Step> = Vec::new();
    p0.push(Step::Key("materials"));
    p0.push(Step::Each);
    p0.push(Step::Key("pbrMetallicRoughness"));
    p0.push(Step::Key("baseColorTexture"));
    p0.push(Step::Key("index"));
    r.push(p0);
    let mut p1: Vec<Step> = Vec::new();
    p1.push(Step::Key("materials"));
    p1.push(Step::Each);
    p1.push(Step::Key("pbrMetallicRoughness"));
    p1.push(Step::Key("metallicRoughnessTexture"));
    p1.push(Step::Key("index"));
    r.push(p1);
    let mut p2: Vec<Step> = Vec::new();
    p2.push(Step::Key("materials"));
    p2.push(Step::Each);
    p2.push(Step::Key("normalTexture"));
    p2.push(Step::Key("index"));
    r.push(p2);
    let mut p3: Vec<Step> = Vec::new();
    p3.push(Step::Key("materials"));
    p3.push(Step::Each);
    p3.push(Step::Key("occlusionTexture"));
    p3.push(Step::Key("index"));
    r.push(p3);
    let mut p4: Vec<Step> = Vec::new();
    p4.push(Step::Key("materials"));
    p4.push(Step::Each);
    p4.push(Step::Key("emissiveTexture"));
    p4.push(Step::Key("index"));
    r.push(p4);
    let mut p5: Vec<Step> = Vec::new();
    p5.push(Step::Key("extensions"));
    p5.push(Step::Key("VRM"));
    p5.push(Step::Key("meta"));
    p5.push(Step::Key("texture"));
    r.push(p5);
    let mut p6: Vec<Step> = Vec::new();
    p6.push(Step::Key("extensions"));
    p6.push(Step::Key("VRM"));
    p6.push(Step::Key("materialProperties"));
    p6.push(Step::Each);
    p6.push(Step::Key("textureProperties"));
    p6.push(Step::Key("_MainTex"));
    r.push(p6);
    let mut p7: Vec<Step> = Vec::new();
    p7.push(Step::Key("extensions"));
    p7.push(Step::Key("VRM"));
    p7.push(Step::Key("materialProperties"));
    p7.push(Step::Each);
    p7.push(Step::Key("textureProperties"));
    p7.push(Step::Key("_ShadeTexture"));
    r.push(p7);
    let mut p8: Vec<Step> = Vec::new();
    p8.push(Step::Key("extensions"));
    p8.push(Step::Key("VRM"));
    p8.push(Step::Key("materialProperties"));
    p8.push(Step::Each);
    p8.push(Step::Key("textureProperties"));
    p8.push(Step::Key("_ReceiveShadowTexture"));
    r.push(p8);
    let mut p9: Vec<Step> = Vec::new();
    p9.push(Step::Key("extensions"));
    p9.push(Step::Key("VRM"));
    p9.push(Step::Key("materialProperties"));
    p9.push(Step::Each);
    p9.push(Step::Key("textureProperties"));
    p9.push(Step::Key("_ShadingGradeTexture"));
    r.push(p9);
    let mut p10: Vec<Step> = Vec::new();
    p10.push(Step::Key("extensions"));
    p10.push(Step::Key("VRM"));
    p10.push(Step::Key("materialProperties"));
    p10.push(Step::Each);
    p10.push(Step::Key("textureProperties"));
    p10.push(Step::Key("_EmissionMap"));
    r.push(p10);
    let mut p11: Vec<Step> = Vec::new();
    p11.push(Step::Key("extensions"));
    p11.push(Step::Key("VRM"));
    p11.push(Step::Key("materialProperties"));
    p11.push(Step::Each);
    p11.push(Step::Key("textureProperties"));
    p11.push(Step::Key("_OutlineWidthTexture"));
    r.push(p11);
    proof {
        assert(paths_view(r@) =~~= texture_paths());
    }
    r
}

/// The reference sites of the `images` index space.
pub open spec fn image_paths() -> Seq<Seq<StepV>> {
    seq![
        seq![StepV::Key("textures"@), StepV::Each, StepV::Key("source"@)],
    ]
}

pub(crate) fn image_paths_exec() -> (r: Vec<Vec<Step>>)
    ensures
        paths_view(r@) == image_paths(),
{
    let mut r: Vec<Vec<Step>> = Vec::new();
    let mut p0: Vec<Step> = Vec::new();
    p0.push(Step::Key("textures"));
    p0.push(Step::Each);
    p0.push(Step::Key("source"));
    r.push(p0);
    proof {
        assert(paths_view(r@) =~~= image_paths());
    }
    r
}

/// The reference sites of the `accessors` index space.
pub open spec fn accessor_paths() -> Seq<Seq<StepV>> {
    seq![
        seq![StepV::Key("skins"@), StepV::Each, StepV::Key("inverseBindMatrices"@)],
        seq![StepV::Key("meshes"@), StepV::Each, StepV::Key("primitives"@), StepV::Each, StepV::Key("indices"@)],
        seq![StepV::Key("meshes"@), StepV::Each, StepV::Key("primitives"@), StepV::Each, StepV::Key("attributes"@), StepV::Vals],
        seq![StepV::Key("meshes"@), StepV::Each, StepV::Key("primitives"@), StepV::Each, StepV::Key("targets"@), StepV::Each, StepV::Vals],
    ]
}

pub(crate) fn accessor_paths_exec() -> (r: Vec<Vec<Step>>)
    ensures
        paths_view(r@) == accessor_paths(),
{
    let mut r: Vec<Vec<Step>> = Vec::new();
    let mut p0: Vec<Step> = Vec::new();
    p0.push(Step::Key("skins"));
    p0.push(Step::Each);
    p0.push(Step::Key("inverseBindMatrices"));
    r.push(p0);
    let mut p1: Vec<Step> = Vec::new();
    p1.push(Step::Key("meshes"));
    p1.push(Step::Each);
    p1.push(Step::Key("primitives"));
    p1.push(Step::Each);
    p1.push(Step::Key("indices"));
    r.push(p1);
    let mut p2: Vec<Step> = Vec::new();
    p2.push(Step::Key("meshes"));
    p2.push(Step::Each);
    p2.push(Step::Key("primitives"));
    p2.push(Step::Each);
    p2.push(Step::Key("attributes"));
    p2.push(Step::Vals);
    r.push(p2);
    let mut p3: Vec<Step> = Vec::new();
    p3.push(Step::Key("meshes"));
    p3.push(Step::Each);
    p3.push(Step::Key("primitives"));
    p3.push(Step::Each);
    p3.push(Step::Key("targets"));
    p3.push(Step::Each);
    p3.push(Step::Vals);
    r.push(p3);
    proof {
        assert(paths_view(r@) =~~= accessor_paths());
    }
    r
}

/// The reference sites of the `samplers` index space.
pub open spec fn sampler_paths() -> Seq<Seq<StepV>> {
    seq![
        seq![StepV::Key("textures"@), StepV::Each, StepV::Key("sampler"@)],
    ]
}

pub(crate) fn sampler_paths_exec() -> (r: Vec<Vec<Step>>)
    ensures
        paths_view(r@) == sampler_paths(),
{
    let mut r: Vec<Vec<Step>> = Vec::new();
    let mut p0: Vec<Step> = Vec::new();
    p0.push(Step::Key("textures"));
    p0.push(Step::Each);
    p0.push(Step::Key("sampler"));
    r.push(p0);
    proof {
        assert(paths_view(r@) =~~= sampler_paths());
    }
    r
}

/// The reference sites of the `bufferViews` index space.
pub open spec fn buffer_view_paths() -> Seq<Seq<StepV>> {
    seq![
        seq![StepV::Key("accessors"@), StepV::Each, StepV::Key("bufferView"@)],
        seq![StepV::Key("accessors"@), StepV::Each, StepV::Key("sparse"@), StepV::Key("indices"@), StepV::Key("bufferView"@)],
        seq![StepV::Key("accessors"@), StepV::Each, StepV::Key("values"@), StepV::Key("indices"@), StepV::Key("bufferView"@)],
        seq![StepV::Key("images"@), StepV::Each, StepV::Key("bufferView"@)],
    ]
}

pub(crate) fn buffer_view_paths_exec() -> (r: Vec<Vec<Step>>)
    ensures
        paths_view(r@) == buffer_view_paths(),
{
    let mut r: Vec<Vec<Step>> = Vec::new();
    let mut p0: Vec<Step> = Vec::new();
    p0.push(Step::Key("accessors"));
    p0.push(Step::Each);
    p0.push(Step::Key("bufferView"));
    r.push(p0);
    let mut p1: Vec<Step> = Vec::new();
    p1.push(Step::Key("accessors"));
    p1.push(Step::Each);
    p1.push(Step::Key("sparse"));
    p1.push(Step::Key("indices"));
    p1.push(Step::Key("bufferView"));
    r.push(p1);
    let mut p2: Vec<Step> = Vec::new();
    p2.push(Step::Key("accessors"));
    p2.push(Step::Each);
    p2.push(Step::Key("values"));
    p2.push(Step::Key("indices"));
    p2.push(Step::Key("bufferView"));
    r.push(p2);
    let mut p3: Vec<Step> = Vec::new();
    p3.push(Step::Key("images"));
    p3.push(Step::Each);
    p3.push(Step::Key("bufferView"));
    r.push(p3);
    proof {
        assert(paths_view(r@) =~~= buffer_view_paths());
    }
    r
}

/// The reference sites of the `buffers` index space.
pub open spec fn buffer_paths() -> Seq<Seq<StepV>> {
    seq![
        seq![StepV::Key("bufferViews"@), StepV::Each, StepV::Key("buffer"@)],
    ]
}

pub(crate) fn buffer_paths_exec() -> (r: Vec<Vec<Step>>)
    ensures
        paths_view(r@) == buffer_paths(),
{
    let mut r: Vec<Vec<Step>> = Vec::new();
    let mut p0: Vec<Step> = Vec::new();
    p0.push(Step::Key("bufferViews"));
    p0.push(Step::Each);
    p0.push(Step::Key("buffer"));
    r.push(p0);
    proof {
        assert(paths_view(r@) =~~= buffer_paths());
    }
    r
}

/// Visit every reference to the `material` index space.
pub fn for_each_material_index_references(gltf: Json, f: NumVisitor) -> (r: (Json, NumVisitor))
    requires
        visitor_wf(f),
    ensures
        visitor_wf(r.1),
        visited(gltf@, f, r.0@, r.1, material_paths()),
{
    let paths = material_paths_exec();
    apply_visitor(gltf, &paths, f)
}

/// Visit every reference to the `accessor` index space.
pub fn for_each_accessor_index_references(gltf: Json, f: NumVisitor) -> (r: (Json, NumVisitor))
    requires
        visitor_wf(f),
    ensures
        visitor_wf(r.1),
        visited(gltf@, f, r.0@, r.1, accessor_paths()),
{
    let paths = accessor_paths_exec();
    apply_visitor(gltf, &paths, f)
}

/// Visit every reference to the `sampler` index space.
pub fn for_each_sampler_index_references(gltf: Json, f: NumVisitor) -> (r: (Json, NumVisitor))
    requires
        visitor_wf(f),
    ensures
        visitor_wf(r.1),
        visited(gltf@, f, r.0@, r.1, sampler_paths()),
{
    let paths = sampler_paths_exec();
    apply_visitor(gltf, &paths, f)
}

/// Visit every reference to the `image` index space.
pub fn for_each_image_index_references(gltf: Json, f: NumVisitor) -> (r: (Json, NumVisitor))
    requires
        visitor_wf(f),
    ensures
        visitor_wf(r.1),
        visited(gltf@, f, r.0@, r.1, image_paths()),
{
    let paths = image_paths_exec();
    apply_visitor(gltf, &paths, f)
}

/// Visit every reference to the `texture` index space.
pub fn for_each_texture_index_references(gltf: Json, f: NumVisitor) -> (r: (Json, NumVisitor))
    requires
        visitor_wf(f),
    ensures
        visitor_wf(r.1),
        visited(gltf@, f, r.0@, r.1, texture_paths()),
{
    let paths = texture_paths_exec();
    apply_visitor(gltf, &paths, f)
}

/// Visit every reference to the `bufferview` index space.
pub fn for_each_buffer_view_index_references(gltf: Json, f: NumVisitor) -> (r: (Json, NumVisitor))
    requires
        visitor_wf(f),
    ensures
        visitor_wf(r.1),
        visited(gltf@, f, r.0@, r.1, buffer_view_paths()),
{
    let paths = buffer_view_paths_exec();
    apply_visitor(gltf, &paths, f)
}

/// Visit every reference to the `buffer` index space.
pub fn for_each_buffer_index_references(gltf: Json, f: NumVisitor) -> (r: (Json, NumVisitor))
    requires
        visitor_wf(f),
    ensures
        visitor_wf(r.1),
        visited(gltf@, f, r.0@, r.1, buffer_paths()),
{
    let paths = buffer_paths_exec();
    apply_visitor(gltf, &paths, f)
}

/// Whether some element of the array is exactly this string.
pub open spec fn contains_str(a: Seq<JsonView>, s: Seq<char>) -> bool {
    exists|i: int| 0 <= i < a.len() && a[i] == JsonView::Str(s)
}

/// `extensionsUsed` made an array that names `"VRM"`: an array lacking the
/// name gets it appended; anything else becomes the one-element array.
pub open spec fn ensure_vrm_used(j: JsonView) -> JsonView {
    match j.get("extensionsUsed"@) {
        Some(v) => match v {
            JsonView::Arr(a) => if contains_str(a, "VRM"@) {
                j
            } else {
                j.put("extensionsUsed"@, JsonView::Arr(a.push(JsonView::Str("VRM"@))))
            },
            _ => j.put("extensionsUsed"@, JsonView::Arr(seq![JsonView::Str("VRM"@)])),
        },
        None => j.put("extensionsUsed"@, JsonView::Arr(seq![JsonView::Str("VRM"@)])),
    }
}

/// The required `extensions.VRM.meta` keys with their defaults, in the order
/// they are filled. The spelling `UssageName` is the VRM format's own.
pub open spec fn meta_defaults() -> Seq<(Seq<char>, Seq<char>)> {
    seq![
        ("title"@, ""@),
        ("version"@, ""@),
        ("author"@, ""@),
        ("contactInformation"@, ""@),
        ("reference"@, ""@),
        ("allowedUserName"@, "OnlyAuthor"@),
        ("violentUssageName"@, "Disallow"@),
        ("sexualUssageName"@, "Disallow"@),
        ("commercialUssageName"@, "Disallow"@),
        ("otherPermissionUrl"@, ""@),
        ("licenseName"@, "Redistribution_Prohibited"@),
        ("otherLicenseUrl"@, ""@),
    ]
}

/// Fill each listed key whose value is absent or no string with its default;
/// an existing string value, empty or not, is kept.
pub open spec fn fill_defaults(m: JsonView, ds: Seq<(Seq<char>, Seq<char>)>) -> JsonView
    decreases ds.len(),
{
    if ds.len() == 0 {
        m
    } else {
        let m1 = if m.get(ds[0].0) matches Some(v) && v is Str {
            m
        } else {
            m.put(ds[0].0, JsonView::Str(ds[0].1))
        };
        fill_defaults(m1, ds.drop_first())
    }
}

/// An existing object, or a fresh empty one in place of anything else.
pub open spec fn obj_or_empty(v: Option<JsonView>) -> JsonView {
    match v {
        Some(e) => if e is Obj {
            e
        } else {
            JsonView::Obj(Seq::empty())
        },
        None => JsonView::Obj(Seq::empty()),
    }
}

pub open spec fn fixed_vrm(v: Option<JsonView>) -> JsonView {
    let vrm = obj_or_empty(v);
    vrm.put("meta"@, fill_defaults(obj_or_empty(vrm.get("meta"@)), meta_defaults()))
}

pub open spec fn fixed_ext(e: Option<JsonView>) -> JsonView {
    let ext = obj_or_empty(e);
    ext.put("VRM"@, fixed_vrm(ext.get("VRM"@)))
}

/// The VRM-extension completion: `extensionsUsed` names `"VRM"`,
/// `extensions.VRM.meta` is an object, and every required meta key holds a
/// string.
pub open spec fn fix_meta_spec(j: JsonView) -> JsonView {
    let j1 = ensure_vrm_used(j);
    j1.put("extensions"@, fixed_ext(j1.get("extensions"@)))
}

fn arr_has_str(a: &Vec<Json>, s: &str) -> (r: bool)
    ensures
        r == contains_str(arr_view(a@), s@),
{
    proof {
        lemma_arr_view(a@);
    }
    let n = a.len();
    for i in 0..n
        invariant
            n == a.len(),
            arr_view(a@).len() == n,
            forall|q: int| 0 <= q < n ==> arr_view(a@)[q] == a[q]@,
            forall|q: int| 0 <= q < i ==> #[trigger] arr_view(a@)[q] != JsonView::Str(s@),
    {
        match &a[i] {
            Json::Str(t) => {
                if crate::json::str_eq(t.as_str(), s) {
                    proof {
                        assert(arr_view(a@)[i as int] == JsonView::Str(s@));
                    }
                    return true;
                }
            },
            _ => {},
        }
    }
    false
}

fn vrm_str() -> (r: Json)
    ensures
        r@ == JsonView::Str("VRM"@),
{
    Json::Str(String::from_str("VRM"))
}

fn fix_used(gltf: Json) -> (r: Json)
    ensures
        r@ == ensure_vrm_used(gltf@),
{
    match gltf {
        Json::Obj(mut m) => {
            let ghost entries = obj_view(m@);
            proof {
                lemma_obj_view(m@);
            }
            match crate::json::find_key(&m, "extensionsUsed") {
                Some(idx) => {
                    let (kstr, val) = m.remove(idx);
                    proof {
                        crate::json::lemma_obj_find_at(entries, "extensionsUsed"@, idx as int);
                    }
                    let ghost valv = val@;
                    let newval = match val {
                        Json::Arr(mut a) => {
                            if arr_has_str(&a, "VRM") {
                                Json::Arr(a)
                            } else {
                                let ghost av = arr_view(a@);
                                proof {
                                    lemma_arr_view(a@);
                                }
                                a.push(vrm_str());
                                proof {
                                    lemma_arr_view(a@);
                                    assert(arr_view(a@) =~= av.push(JsonView::Str("VRM"@)));
                                }
                                Json::Arr(a)
                            }
                        },
                        _ => {
                            let mut a: Vec<Json> = Vec::new();
                            a.push(vrm_str());
                            proof {
                                lemma_arr_view(a@);
                                assert(arr_view(a@) =~= seq![JsonView::Str("VRM"@)]);
                            }
                            Json::Arr(a)
                        },
                    };
                    let ghost nv = newval@;
                    m.insert(idx, (kstr, newval));
                    proof {
                        lemma_obj_view(m@);
                        if valv matches JsonView::Arr(av0) && contains_str(av0, "VRM"@) {
                            assert(obj_view(m@) =~= entries);
                        } else {
                            crate::json::lemma_obj_put_at(entries, "extensionsUsed"@, nv, idx as int);
                            assert(obj_view(m@) =~= obj_put(entries, "extensionsUsed"@, nv));
                        }
                    }
                    Json::Obj(m)
                },
                None => {
                    proof {
                        crate::json::lemma_obj_find_missing(entries, "extensionsUsed"@);
                    }
                    let mut a: Vec<Json> = Vec::new();
                    a.push(vrm_str());
                    proof {
                        lemma_arr_view(a@);
                        assert(arr_view(a@) =~= seq![JsonView::Str("VRM"@)]);
                    }
                    Json::Obj(m).put("extensionsUsed", Json::Arr(a))
                },
            }
        },
        other => {
            let mut a: Vec<Json> = Vec::new();
            a.push(vrm_str());
            proof {
                lemma_arr_view(a@);
                assert(arr_view(a@) =~= seq![JsonView::Str("VRM"@)]);
            }
            other.put("extensionsUsed", Json::Arr(a))
        },
    }
}

/// The default-key table, executable form.
fn meta_defaults_exec() -> (r: Vec<(&'static str, &'static str)>)
    ensures
        r@.map_values(|p: (&'static str, &'static str)| (p.0@, p.1@)) == meta_defaults(),
{
    let mut r: Vec<(&'static str, &'static str)> = Vec::new();
    r.push(("title", ""));
    r.push(("version", ""));
    r.push(("author", ""));
    r.push(("contactInformation", ""));
    r.push(("reference", ""));
    r.push(("allowedUserName", "OnlyAuthor"));
    r.push(("violentUssageName", "Disallow"));
    r.push(("sexualUssageName", "Disallow"));
    r.push(("commercialUssageName", "Disallow"));
    r.push(("otherPermissionUrl", ""));
    r.push(("licenseName", "Redistribution_Prohibited"));
    r.push(("otherLicenseUrl", ""));
    proof {
        assert(r@.map_values(|p: (&'static str, &'static str)| (p.0@, p.1@))
            =~~= meta_defaults());
    }
    r
}

fn fill_meta(meta: Json) -> (r: Json)
    ensures
        r@ == fill_defaults(meta@, meta_defaults()),
{
    let ds = meta_defaults_exec();
    let ghost dv = meta_defaults();
    let n = ds.len();
    let mut m = meta;
    let mut i: usize = 0;
    proof {
        assert(dv.skip(0) =~= dv);
    }
    while i < n
        invariant
            n == ds@.len(),
            0 <= i <= n,
            dv == meta_defaults(),
            dv.len() == n,
            forall|q: int| 0 <= q < n ==> dv[q] == (#[trigger] ds@[q].0@, ds@[q].1@),
            fill_defaults(m@, dv.skip(i as int)) == fill_defaults(meta@, dv),
        decreases n - i,
    {
        proof {
            assert(dv.skip(i as int)[0] == dv[i as int]);
            assert(dv.skip(i as int).drop_first() =~= dv.skip(i + 1));
        }
        let (key, dflt) = ds[i];
        let is_str = match m.get(key) {
            Some(v) => match v {
                Json::Str(_) => true,
                _ => false,
            },
            None => false,
        };
        if !is_str {
            m = m.put(key, Json::Str(String::from_str(dflt)));
        }
        i += 1;
    }
    proof {
        assert(dv.skip(n as int) =~= Seq::<(Seq<char>, Seq<char>)>::empty());
    }
    m
}

fn fixed_vrm_exec(v: Option<Json>) -> (r: Json)
    ensures
        r@ == fixed_vrm(match v {
            Some(x) => Some(x@),
            None => None,
        }),
{
    let vrm = match v {
        Some(x) => match x {
            Json::Obj(m) => Json::Obj(m),
            _ => Json::Obj(Vec::new()),
        },
        None => Json::Obj(Vec::new()),
    };
    proof {
        lemma_obj_view(Seq::<(String, Json)>::empty());
        assert(obj_view(Seq::<(String, Json)>::empty()) =~= Seq::<(Seq<char>, JsonView)>::empty());
    }
    let meta = match vrm.get("meta") {
        Some(x) => match x {
            Json::Obj(_) => None,
            _ => Some(()),
        },
        None => Some(()),
    };
    match meta {
        Some(_) => {
            let filled = fill_meta(Json::Obj(Vec::new()));
            vrm.put("meta", filled)
        },
        None => {
            match vrm {
                Json::Obj(mut m) => {
                    let ghost entries = obj_view(m@);
                    proof {
                        lemma_obj_view(m@);
                    }
                    match crate::json::find_key(&m, "meta") {
                        Some(idx) => {
                            let (kstr, val) = m.remove(idx);
                            proof {
                                crate::json::lemma_obj_find_at(entries, "meta"@, idx as int);
                            }
                            let ghost valv = val@;
                            let filled = fill_meta(val);
                            let ghost fv = filled@;
                            m.insert(idx, (kstr, filled));
                            proof {
                                lemma_obj_view(m@);
                                crate::json::lemma_obj_put_at(entries, "meta"@, fv, idx as int);
                                assert(obj_view(m@) =~= obj_put(entries, "meta"@, fv));
                            }
                            Json::Obj(m)
                        },
                        None => {
                            proof {
                                crate::json::lemma_obj_find_missing(entries, "meta"@);
                            }
                            let filled = fill_meta(Json::Obj(Vec::new()));
                            Json::Obj(m).put("meta", filled)
                        },
                    }
                },
                _ => {
                    let filled = fill_meta(Json::Obj(Vec::new()));
                    vrm.put("meta", filled)
                },
            }
        },
    }
}

fn fixed_ext_exec(e: Option<Json>) -> (r: Json)
    ensures
        r@ == fixed_ext(match e {
            Some(x) => Some(x@),
            None => None,
        }),
{
    let ext = match e {
        Some(x) => match x {
            Json::Obj(m) => Json::Obj(m),
            _ => Json::Obj(Vec::new()),
        },
        None => Json::Obj(Vec::new()),
    };
    proof {
        lemma_obj_view(Seq::<(String, Json)>::empty());
        assert(obj_view(Seq::<(String, Json)>::empty()) =~= Seq::<(Seq<char>, JsonView)>::empty());
    }
    match ext {
        Json::Obj(mut m) => {
            let ghost entries = obj_view(m@);
            proof {
                lemma_obj_view(m@);
            }
            match crate::json::find_key(&m, "VRM") {
                Some(idx) => {
                    let (kstr, val) = m.remove(idx);
                    proof {
                        crate::json::lemma_obj_find_at(entries, "VRM"@, idx as int);
                    }
                    let fixed = fixed_vrm_exec(Some(val));
                    let ghost fv = fixed@;
                    m.insert(idx, (kstr, fixed));
                    proof {
                        lemma_obj_view(m@);
                        crate::json::lemma_obj_put_at(entries, "VRM"@, fv, idx as int);
                        assert(obj_view(m@) =~= obj_put(entries, "VRM"@, fv));
                    }
                    Json::Obj(m)
                },
                None => {
                    proof {
                        crate::json::lemma_obj_find_missing(entries, "VRM"@);
                    }
                    let fixed = fixed_vrm_exec(None);
                    Json::Obj(m).put("VRM", fixed)
                },
            }
        },
        _ => {
            let fixed = fixed_vrm_exec(None);
            ext.put("VRM", fixed)
        },
    }
}

/// Complete the VRM extension, as [`fix_meta_spec`] states.
pub fn fix_extension_vrm(gltf: Json) -> (r: Json)
    ensures
        r@ == fix_meta_spec(gltf@),
{
    let g1 = fix_used(gltf);
    match g1 {
        Json::Obj(mut m) => {
            let ghost entries = obj_view(m@);
            proof {
                lemma_obj_view(m@);
            }
            match crate::json::find_key(&m, "extensions") {
                Some(idx) => {
                    let (kstr, val) = m.remove(idx);
                    proof {
                        crate::json::lemma_obj_find_at(entries, "extensions"@, idx as int);
                    }
                    let fixed = fixed_ext_exec(Some(val));
                    let ghost fv = fixed@;
                    m.insert(idx, (kstr, fixed));
                    proof {
                        lemma_obj_view(m@);
                        crate::json::lemma_obj_put_at(entries, "extensions"@, fv, idx as int);
                        assert(obj_view(m@) =~= obj_put(entries, "extensions"@, fv));
                    }
                    Json::Obj(m)
                },
                None => {
                    proof {
                        crate::json::lemma_obj_find_missing(entries, "extensions"@);
                    }
                    let fixed = fixed_ext_exec(None);
                    Json::Obj(m).put("extensions", fixed)
                },
            }
        },
        other => {
            let fixed = fixed_ext_exec(None);
            other.put("extensions", fixed)
        },
    }
}


/// The texts a warning list carries.
pub open spec fn warn_texts(w: Seq<SweepWarning>) -> Seq<Seq<char>> {
    w.map_values(|x: SweepWarning| x.text@)
}

/// The resource paths a warning list names.
pub open spec fn warn_kinds(w: Seq<SweepWarning>) -> Seq<Seq<char>> {
    w.map_values(|x: SweepWarning| x.kind@)
}

/// `n` warnings all naming one resource path.
pub open spec fn kind_marks(k: Seq<char>, n: nat) -> Seq<Seq<char>> {
    Seq::new(n, |i: int| k)
}

/// The whole cleaning pass over the document.
pub open spec fn clean_spec(j: JsonView) -> JsonView {
    let j1 = sweep_spec(j, "materials"@, material_paths());
    let j2 = sweep_spec(j1, "textures"@, texture_paths());
    let j3 = sweep_spec(j2, "images"@, image_paths());
    let j4 = sweep_spec(j3, "accessors"@, accessor_paths());
    let j5 = sweep_spec(j4, "samplers"@, sampler_paths());
    let j6 = sweep_spec(j5, "bufferViews"@, buffer_view_paths());
    fix_meta_spec(j6)
}

/// The reference-site texts the cleaning pass reports as unusable, stage by
/// stage.
pub open spec fn clean_warns(j: JsonView) -> Seq<Seq<char>> {
    let j1 = sweep_spec(j, "materials"@, material_paths());
    let j2 = sweep_spec(j1, "textures"@, texture_paths());
    let j3 = sweep_spec(j2, "images"@, image_paths());
    let j4 = sweep_spec(j3, "accessors"@, accessor_paths());
    let j5 = sweep_spec(j4, "samplers"@, sampler_paths());
    bads(sites_multi(j, material_paths())) + bads(sites_multi(j1, texture_paths())) + bads(
        sites_multi(j2, image_paths()),
    ) + bads(sites_multi(j3, accessor_paths())) + bads(sites_multi(j4, sampler_paths())) + bads(
        sites_multi(j5, buffer_view_paths()),
    )
}

/// The resource paths those reports name, stage by stage: each unusable site
/// is reported under its own kind's array.
pub open spec fn clean_warn_kinds(j: JsonView) -> Seq<Seq<char>> {
    let j1 = sweep_spec(j, "materials"@, material_paths());
    let j2 = sweep_spec(j1, "textures"@, texture_paths());
    let j3 = sweep_spec(j2, "images"@, image_paths());
    let j4 = sweep_spec(j3, "accessors"@, accessor_paths());
    let j5 = sweep_spec(j4, "samplers"@, sampler_paths());
    kind_marks("/materials"@, bads(sites_multi(j, material_paths())).len()) + kind_marks(
        "/textures"@,
        bads(sites_multi(j1, texture_paths())).len(),
    ) + kind_marks("/images"@, bads(sites_multi(j2, image_paths())).len()) + kind_marks(
        "/accessors"@,
        bads(sites_multi(j3, accessor_paths())).len(),
    ) + kind_marks("/samplers"@, bads(sites_multi(j4, sampler_paths())).len()) + kind_marks(
        "/bufferViews"@,
        bads(sites_multi(j5, buffer_view_paths())).len(),
    )
}

pub(crate) fn push_warns(out: &mut Vec<SweepWarning>, kind: &'static str, texts: Vec<String>)
    ensures
        warn_texts(final(out)@) == warn_texts(old(out)@) + strs(texts@),
        warn_kinds(final(out)@) == warn_kinds(old(out)@) + kind_marks(kind@, strs(texts@).len()),
{
    let ghost all = strs(texts@);
    let mut rest = texts;
    proof {
        assert(strs(rest@) =~= all);
    }
    while rest.len() > 0
        invariant
            warn_texts(out@) + strs(rest@) == warn_texts(old(out)@) + all,
            warn_kinds(out@) + kind_marks(kind@, strs(rest@).len()) == warn_kinds(old(out)@)
                + kind_marks(kind@, all.len()),
        decreases rest@.len(),
    {
        let ghost rs = strs(rest@);
        let ghost o0 = warn_texts(out@);
        let ghost k0 = warn_kinds(out@);
        let text = rest.remove(0);
        out.push(SweepWarning { kind, text });
        proof {
            assert(strs(rest@) =~= rs.drop_first());
            assert(warn_texts(out@) =~= o0.push(rs[0]));
            assert(warn_texts(out@) + strs(rest@) =~= warn_texts(old(out)@) + all);
            assert(warn_kinds(out@) =~= k0.push(kind@));
            assert(warn_kinds(out@) + kind_marks(kind@, strs(rest@).len()) =~= warn_kinds(
                old(out)@,
            ) + kind_marks(kind@, all.len()));
        }
    }
    proof {
        assert(strs(rest@) =~= Seq::<Seq<char>>::empty());
        assert(warn_texts(final(out)@) =~= warn_texts(old(out)@) + all);
        assert(kind_marks(kind@, strs(rest@).len()) =~= Seq::<Seq<char>>::empty());
        assert(warn_kinds(final(out)@) =~= warn_kinds(old(out)@) + kind_marks(kind@, all.len()));
    }
}

/// The cleaning pass: sweep materials, textures, images, accessors,
/// samplers and buffer views in that order, then complete the VRM extension.
/// Beside the document it reports the reference sites it could not read.
pub fn clean(gltf: Json) -> (r: (Json, Vec<SweepWarning>))
    ensures
        r.0@ == clean_spec(gltf@),
        warn_texts(r.1@) == clean_warns(gltf@),
        warn_kinds(r.1@) == clean_warn_kinds(gltf@),
{
    let mut warns: Vec<SweepWarning> = Vec::new();
    let p1 = material_paths_exec();
    let (g1, _, b1) = sweep_resources(gltf, "materials", &p1);
    push_warns(&mut warns, "/materials", b1);
    let p2 = texture_paths_exec();
    let (g2, _, b2) = sweep_resources(g1, "textures", &p2);
    push_warns(&mut warns, "/textures", b2);
    let p3 = image_paths_exec();
    let (g3, _, b3) = sweep_resources(g2, "images", &p3);
    push_warns(&mut warns, "/images", b3);
    let p4 = accessor_paths_exec();
    let (g4, _, b4) = sweep_resources(g3, "accessors", &p4);
    push_warns(&mut warns, "/accessors", b4);
    let p5 = sampler_paths_exec();
    let (g5, _, b5) = sweep_resources(g4, "samplers", &p5);
    push_warns(&mut warns, "/samplers", b5);
    let p6 = buffer_view_paths_exec();
    let (g6, _, b6) = sweep_resources(g5, "bufferViews", &p6);
    push_warns(&mut warns, "/bufferViews", b6);
    let out = fix_extension_vrm(g6);
    proof {
        assert(warn_texts(warns@) =~= clean_warns(gltf@));
        assert(warn_kinds(warns@) =~= clean_warn_kinds(gltf@));
    }
    (out, warns)
}

/// Every reference path of the `materials` kind starts under another key than
/// the kind's own array.
pub proof fn lemma_material_paths_ok()
    ensures
        heads_differ(material_paths(), "materials"@),
{
    reveal_strlit("materials");
    reveal_strlit("meshes");
    let ps = material_paths();
    assert(ps[0][0] == StepV::Key("meshes"@));
    assert("meshes"@ != "materials"@) by {
        assert("meshes"@.len() == 6);
        assert("materials"@.len() == 9);
    }
}

/// After the `materials` sweep, the array keeps exactly the entries whose index
/// was referenced: one per distinct referenced index below the old length.
pub proof fn lemma_material_sweep_len(j: JsonView, elems: Seq<JsonView>)
    requires
        j.get("materials"@) == Some(JsonView::Arr(elems)),
        elems.len() <= u64::MAX,
        sorted_strict(sweep_table(j, material_paths())),
    ensures
        sweep_spec(j, "materials"@, material_paths()).get("materials"@) == Some(
            JsonView::Arr(filter_kept(elems, sweep_table(j, material_paths()), 0)),
        ),
        sweep_spec(j, "materials"@, material_paths()).get("materials"@)->Some_0->Arr_0.len() == count_range(
            sweep_table(j, material_paths()),
            0,
            elems.len() as int,
        ),
{
    lemma_material_paths_ok();
    lemma_sweep_kind_len(j, "materials"@, material_paths(), elems);
}

/// Every reference path of the `textures` kind starts under another key than
/// the kind's own array.
pub proof fn lemma_texture_paths_ok()
    ensures
        heads_differ(texture_paths(), "textures"@),
{
    reveal_strlit("extensions");
    reveal_strlit("materials");
    reveal_strlit("textures");
    let ps = texture_paths();
    assert(ps[0][0] == StepV::Key("materials"@));
    assert(ps[1][0] == StepV::Key("materials"@));
    assert(ps[2][0] == StepV::Key("materials"@));
    assert(ps[3][0] == StepV::Key("materials"@));
    assert(ps[4][0] == StepV::Key("materials"@));
    assert(ps[5][0] == StepV::Key("extensions"@));
    assert(ps[6][0] == StepV::Key("extensions"@));
    assert(ps[7][0] == StepV::Key("extensions"@));
    assert(ps[8][0] == StepV::Key("extensions"@));
    assert(ps[9][0] == StepV::Key("extensions"@));
    assert(ps[10][0] == StepV::Key("extensions"@));
    assert(ps[11][0] == StepV::Key("extensions"@));
    assert("extensions"@ != "textures"@) by {
        assert("extensions"@.len() == 10);
        assert("textures"@.len() == 8);
    }
    assert("materials"@ != "textures"@) by {
        assert("materials"@.len() == 9);
        assert("textures"@.len() == 8);
    }
}

/// After the `textures` sweep, the array keeps exactly the entries whose index
/// was referenced: one per distinct referenced index below the old length.
pub proof fn lemma_texture_sweep_len(j: JsonView, elems: Seq<JsonView>)
    requires
        j.get("textures"@) == Some(JsonView::Arr(elems)),
        elems.len() <= u64::MAX,
        sorted_strict(sweep_table(j, texture_paths())),
    ensures
        sweep_spec(j, "textures"@, texture_paths()).get("textures"@) == Some(
            JsonView::Arr(filter_kept(elems, sweep_table(j, texture_paths()), 0)),
        ),
        sweep_spec(j, "textures"@, texture_paths()).get("textures"@)->Some_0->Arr_0.len() == count_range(
            sweep_table(j, texture_paths()),
            0,
            elems.len() as int,
        ),
{
    lemma_texture_paths_ok();
    lemma_sweep_kind_len(j, "textures"@, texture_paths(), elems);
}

/// Every reference path of the `images` kind starts under another key than
/// the kind's own array.
pub proof fn lemma_image_paths_ok()
    ensures
        heads_differ(image_paths(), "images"@),
{
    reveal_strlit("images");
    reveal_strlit("textures");
    let ps = image_paths();
    assert(ps[0][0] == StepV::Key("textures"@));
    assert("textures"@ != "images"@) by {
        assert("textures"@.len() == 8);
        assert("images"@.len() == 6);
    }
}

/// After the `images` sweep, the array keeps exactly the entries whose index
/// was referenced: one per distinct referenced index below the old length.
pub proof fn lemma_image_sweep_len(j: JsonView, elems: Seq<JsonView>)
    requires
        j.get("images"@) == Some(JsonView::Arr(elems)),
        elems.len() <= u64::MAX,
        sorted_strict(sweep_table(j, image_paths())),
    ensures
        sweep_spec(j, "images"@, image_paths()).get("images"@) == Some(
            JsonView::Arr(filter_kept(elems, sweep_table(j, image_paths()), 0)),
        ),
        sweep_spec(j, "images"@, image_paths()).get("images"@)->Some_0->Arr_0.len() == count_range(
            sweep_table(j, image_paths()),
            0,
            elems.len() as int,
        ),
{
    lemma_image_paths_ok();
    lemma_sweep_kind_len(j, "images"@, image_paths(), elems);
}

/// Every reference path of the `accessors` kind starts under another key than
/// the kind's own array.
pub proof fn lemma_accessor_paths_ok()
    ensures
        heads_differ(accessor_paths(), "accessors"@),
{
    reveal_strlit("accessors");
    reveal_strlit("meshes");
    reveal_strlit("skins");
    let ps = accessor_paths();
    assert(ps[0][0] == StepV::Key("skins"@));
    assert(ps[1][0] == StepV::Key("meshes"@));
    assert(ps[2][0] == StepV::Key("meshes"@));
    assert(ps[3][0] == StepV::Key("meshes"@));
    assert("meshes"@ != "accessors"@) by {
        assert("meshes"@.len() == 6);
        assert("accessors"@.len() == 9);
    }
    assert("skins"@ != "accessors"@) by {
        assert("skins"@.len() == 5);
        assert("accessors"@.len() == 9);
    }
}

/// After the `accessors` sweep, the array keeps exactly the entries whose index
/// was referenced: one per distinct referenced index below the old length.
pub proof fn lemma_accessor_sweep_len(j: JsonView, elems: Seq<JsonView>)
    requires
        j.get("accessors"@) == Some(JsonView::Arr(elems)),
        elems.len() <= u64::MAX,
        sorted_strict(sweep_table(j, accessor_paths())),
    ensures
        sweep_spec(j, "accessors"@, accessor_paths()).get("accessors"@) == Some(
            JsonView::Arr(filter_kept(elems, sweep_table(j, accessor_paths()), 0)),
        ),
        sweep_spec(j, "accessors"@, accessor_paths()).get("accessors"@)->Some_0->Arr_0.len() == count_range(
            sweep_table(j, accessor_paths()),
            0,
            elems.len() as int,
        ),
{
    lemma_accessor_paths_ok();
    lemma_sweep_kind_len(j, "accessors"@, accessor_paths(), elems);
}

/// Every reference path of the `samplers` kind starts under another key than
/// the kind's own array.
pub proof fn lemma_sampler_paths_ok()
    ensures
        heads_differ(sampler_paths(), "samplers"@),
{
    reveal_strlit("samplers");
    reveal_strlit("textures");
    let ps = sampler_paths();
    assert(ps[0][0] == StepV::Key("textures"@));
    assert("textures"@ != "samplers"@) by {
        assert("textures"@[0] == 't');
        assert("samplers"@[0] == 's');
    }
}

/// After the `samplers` sweep, the array keeps exactly the entries whose index
/// was referenced: one per distinct referenced index below the old length.
pub proof fn lemma_sampler_sweep_len(j: JsonView, elems: Seq<JsonView>)
    requires
        j.get("samplers"@) == Some(JsonView::Arr(elems)),
        elems.len() <= u64::MAX,
        sorted_strict(sweep_table(j, sampler_paths())),
    ensures
        sweep_spec(j, "samplers"@, sampler_paths()).get("samplers"@) == Some(
            JsonView::Arr(filter_kept(elems, sweep_table(j, sampler_paths()), 0)),
        ),
        sweep_spec(j, "samplers"@, sampler_paths()).get("samplers"@)->Some_0->Arr_0.len() == count_range(
            sweep_table(j, sampler_paths()),
            0,
            elems.len() as int,
        ),
{
    lemma_sampler_paths_ok();
    lemma_sweep_kind_len(j, "samplers"@, sampler_paths(), elems);
}

/// Every reference path of the `bufferViews` kind starts under another key than
/// the kind's own array.
pub proof fn lemma_buffer_view_paths_ok()
    ensures
        heads_differ(buffer_view_paths(), "bufferViews"@),
{
    reveal_strlit("accessors");
    reveal_strlit("bufferViews");
    reveal_strlit("images");
    let ps = buffer_view_paths();
    assert(ps[0][0] == StepV::Key("accessors"@));
    assert(ps[1][0] == StepV::Key("accessors"@));
    assert(ps[2][0] == StepV::Key("accessors"@));
    assert(ps[3][0] == StepV::Key("images"@));
    assert("accessors"@ != "bufferViews"@) by {
        assert("accessors"@.len() == 9);
        assert("bufferViews"@.len() == 11);
    }
    assert("images"@ != "bufferViews"@) by {
        assert("images"@.len() == 6);
        assert("bufferViews"@.len() == 11);
    }
}

/// After the `bufferViews` sweep, the array keeps exactly the entries whose index
/// was referenced: one per distinct referenced index below the old length.
pub proof fn lemma_buffer_view_sweep_len(j: JsonView, elems: Seq<JsonView>)
    requires
        j.get("bufferViews"@) == Some(JsonView::Arr(elems)),
        elems.len() <= u64::MAX,
        sorted_strict(sweep_table(j, buffer_view_paths())),
    ensures
        sweep_spec(j, "bufferViews"@, buffer_view_paths()).get("bufferViews"@) == Some(
            JsonView::Arr(filter_kept(elems, sweep_table(j, buffer_view_paths()), 0)),
        ),
        sweep_spec(j, "bufferViews"@, buffer_view_paths()).get("bufferViews"@)->Some_0->Arr_0.len() == count_range(
            sweep_table(j, buffer_view_paths()),
            0,
            elems.len() as int,
        ),
{
    lemma_buffer_view_paths_ok();
    lemma_sweep_kind_len(j, "bufferViews"@, buffer_view_paths(), elems);
}

/// Every reference path of the `buffers` kind starts under another key than
/// the kind's own array.
pub proof fn lemma_buffer_paths_ok()
    ensures
        heads_differ(buffer_paths(), "buffers"@),
{
    reveal_strlit("bufferViews");
    reveal_strlit("buffers");
    let ps = buffer_paths();
    assert(ps[0][0] == StepV::Key("bufferViews"@));
    assert("bufferViews"@ != "buffers"@) by {
        assert("bufferViews"@.len() == 11);
        assert("buffers"@.len() == 7);
    }
}

/// After the `buffers` sweep, the array keeps exactly the entries whose index
/// was referenced: one per distinct referenced index below the old length.
pub proof fn lemma_buffer_sweep_len(j: JsonView, elems: Seq<JsonView>)
    requires
        j.get("buffers"@) == Some(JsonView::Arr(elems)),
        elems.len() <= u64::MAX,
        sorted_strict(sweep_table(j, buffer_paths())),
    ensures
        sweep_spec(j, "buffers"@, buffer_paths()).get("buffers"@) == Some(
            JsonView::Arr(filter_kept(elems, sweep_table(j, buffer_paths()), 0)),
        ),
        sweep_spec(j, "buffers"@, buffer_paths()).get("buffers"@)->Some_0->Arr_0.len() == count_range(
            sweep_table(j, buffer_paths()),
            0,
            elems.len() as int,
        ),
{
    lemma_buffer_paths_ok();
    lemma_sweep_kind_len(j, "buffers"@, buffer_paths(), elems);
}

/// Filling defaults never touches a key that already holds a string.
pub proof fn lemma_fill_keeps_strings(m: JsonView, ds: Seq<(Seq<char>, Seq<char>)>, k: Seq<char>)
    requires
        m is Obj,
        m.get(k) matches Some(v) && v is Str,
    ensures
        fill_defaults(m, ds).get(k) == m.get(k),
        fill_defaults(m, ds) is Obj,
    decreases ds.len(),
{
    if ds.len() > 0 {
        let m1 = if m.get(ds[0].0) matches Some(v) && v is Str {
            m
        } else {
            m.put(ds[0].0, JsonView::Str(ds[0].1))
        };
        if !(m.get(ds[0].0) matches Some(v) && v is Str) {
            assert(ds[0].0 != k);
            crate::json::lemma_find_put_other(m->Obj_0, k, ds[0].0, JsonView::Str(ds[0].1));
        }
        lemma_fill_keeps_strings(m1, ds.drop_first(), k);
    }
}

/// After filling, every listed key holds a string.
pub proof fn lemma_fill_all_strings(m: JsonView, ds: Seq<(Seq<char>, Seq<char>)>)
    requires
        m is Obj,
    ensures
        fill_defaults(m, ds) is Obj,
        forall|i: int|
            0 <= i < ds.len() ==> ((#[trigger] fill_defaults(m, ds).get(ds[i].0)) matches Some(
                v,
            ) && v is Str),
    decreases ds.len(),
{
    if ds.len() > 0 {
        let m1 = if m.get(ds[0].0) matches Some(v) && v is Str {
            m
        } else {
            m.put(ds[0].0, JsonView::Str(ds[0].1))
        };
        if !(m.get(ds[0].0) matches Some(v) && v is Str) {
            crate::json::lemma_find_put_same(m->Obj_0, ds[0].0, JsonView::Str(ds[0].1));
        }
        lemma_fill_all_strings(m1, ds.drop_first());
        lemma_fill_keeps_strings(m1, ds.drop_first(), ds[0].0);
        assert forall|i: int|
            0 <= i < ds.len() implies (#[trigger] fill_defaults(m, ds).get(ds[i].0)) matches Some(
            v,
        ) && v is Str by {
            if i > 0 {
                assert(ds.drop_first()[i - 1] == ds[i]);
            }
        }
    }
}

/// Filling changes nothing when every listed key already holds a string.
pub proof fn lemma_fill_noop(m: JsonView, ds: Seq<(Seq<char>, Seq<char>)>)
    requires
        m is Obj,
        forall|i: int|
            0 <= i < ds.len() ==> ((#[trigger] m.get(ds[i].0)) matches Some(v) && v is Str),
    ensures
        fill_defaults(m, ds) == m,
    decreases ds.len(),
{
    if ds.len() > 0 {
        assert(m.get(ds[0].0) matches Some(v) && v is Str);
        assert(forall|i: int|
            0 <= i < ds.len() - 1 ==> #[trigger] ds.drop_first()[i] == ds[i + 1]);
        lemma_fill_noop(m, ds.drop_first());
    }
}

/// The completed `extensionsUsed` always names `"VRM"`, and completing it
/// touches nothing else.
proof fn lemma_ensure_vrm_used_stable(j: JsonView)
    ensures
        ensure_vrm_used(j) is Obj,
        ensure_vrm_used(j).get("extensionsUsed"@) matches Some(v) && v is Arr && contains_str(
            v->Arr_0,
            "VRM"@,
        ),
        forall|k: Seq<char>|
            k != "extensionsUsed"@ ==> #[trigger] ensure_vrm_used(j).get(k) == j.get(k),
        ensure_vrm_used(ensure_vrm_used(j)) == ensure_vrm_used(j),
{
    let j1 = ensure_vrm_used(j);
    let one = JsonView::Arr(seq![JsonView::Str("VRM"@)]);
    assert(seq![JsonView::Str("VRM"@)][0] == JsonView::Str("VRM"@));
    assert(contains_str(seq![JsonView::Str("VRM"@)], "VRM"@));
    match j.get("extensionsUsed"@) {
        Some(v) => {
            assert(j is Obj);
            match v {
                JsonView::Arr(a) => {
                    if contains_str(a, "VRM"@) {
                    } else {
                        let a2 = JsonView::Arr(a.push(JsonView::Str("VRM"@)));
                        crate::json::lemma_find_put_same(j->Obj_0, "extensionsUsed"@, a2);
                        assert(a.push(JsonView::Str("VRM"@))[a.len() as int] == JsonView::Str(
                            "VRM"@,
                        ));
                        assert(contains_str(a.push(JsonView::Str("VRM"@)), "VRM"@));
                        assert forall|k: Seq<char>| k != "extensionsUsed"@ implies #[trigger] j1.get(
                            k,
                        ) == j.get(k) by {
                            crate::json::lemma_find_put_other(
                                j->Obj_0,
                                k,
                                "extensionsUsed"@,
                                a2,
                            );
                        }
                    }
                },
                _ => {
                    crate::json::lemma_find_put_same(j->Obj_0, "extensionsUsed"@, one);
                    assert forall|k: Seq<char>| k != "extensionsUsed"@ implies #[trigger] j1.get(k)
                        == j.get(k) by {
                        crate::json::lemma_find_put_other(j->Obj_0, k, "extensionsUsed"@, one);
                    }
                },
            }
        },
        None => {
            if j is Obj {
                crate::json::lemma_find_put_same(j->Obj_0, "extensionsUsed"@, one);
                assert forall|k: Seq<char>| k != "extensionsUsed"@ implies #[trigger] j1.get(k)
                    == j.get(k) by {
                    crate::json::lemma_find_put_other(j->Obj_0, k, "extensionsUsed"@, one);
                }
            } else {
                assert(j1 == JsonView::Obj(seq![("extensionsUsed"@, one)]));
                assert(j1->Obj_0[0].0 == "extensionsUsed"@);
                assert(j1.get("extensionsUsed"@) == Some(one));
                assert forall|k: Seq<char>| k != "extensionsUsed"@ implies #[trigger] j1.get(k)
                    == j.get(k) by {
                    assert(j1->Obj_0.skip(1) =~= Seq::<(Seq<char>, JsonView)>::empty());
                    assert(obj_find(Seq::<(Seq<char>, JsonView)>::empty(), k) is None);
                    assert(obj_find(j1->Obj_0, k) is None);
                    assert(j.get(k) is None);
                }
            }
        },
    }
}

/// Completing the VRM extension twice gives what completing it once gives.
pub proof fn lemma_fix_meta_idempotent(j: JsonView)
    ensures
        fix_meta_spec(fix_meta_spec(j)) == fix_meta_spec(j),
{
    reveal_strlit("extensionsUsed");
    reveal_strlit("extensions");
    assert("extensionsUsed"@.len() == 14);
    assert("extensions"@.len() == 10);
    assert("extensionsUsed"@ != "extensions"@);
    let j1 = ensure_vrm_used(j);
    lemma_ensure_vrm_used_stable(j);
    let ext = obj_or_empty(j1.get("extensions"@));
    let vrm = obj_or_empty(ext.get("VRM"@));
    let meta = obj_or_empty(vrm.get("meta"@));
    let filled = fill_defaults(meta, meta_defaults());
    let y = vrm.put("meta"@, filled);
    let x = ext.put("VRM"@, y);
    let r = j1.put("extensions"@, x);
    assert(fix_meta_spec(j) == r);

    // The completed file passes the `extensionsUsed` step unchanged.
    assert(j1 is Obj);
    crate::json::lemma_find_put_other(j1->Obj_0, "extensionsUsed"@, "extensions"@, x);
    assert(r.get("extensionsUsed"@) == j1.get("extensionsUsed"@));
    assert(ensure_vrm_used(j1) == j1);
    assert(ensure_vrm_used(r) == r);

    // Its `extensions`, `VRM` and `meta` are already complete.
    crate::json::lemma_find_put_same(j1->Obj_0, "extensions"@, x);
    assert(r.get("extensions"@) == Some(x));
    assert(ext is Obj);
    crate::json::lemma_find_put_same(ext->Obj_0, "VRM"@, y);
    assert(x.get("VRM"@) == Some(y));
    assert(vrm is Obj);
    crate::json::lemma_find_put_same(vrm->Obj_0, "meta"@, filled);
    assert(y.get("meta"@) == Some(filled));
    lemma_fill_all_strings(meta, meta_defaults());
    lemma_fill_noop(filled, meta_defaults());
    assert(fixed_vrm(x.get("VRM"@)) == y.put("meta"@, filled));
    crate::json::lemma_put_same_value(y->Obj_0, "meta"@, filled);
    assert(fixed_vrm(x.get("VRM"@)) == y);
    assert(fixed_ext(r.get("extensions"@)) == x.put("VRM"@, y));
    crate::json::lemma_put_same_value(x->Obj_0, "VRM"@, y);
    assert(fixed_ext(r.get("extensions"@)) == x);
    assert(fix_meta_spec(r) == r.put("extensions"@, x));
    crate::json::lemma_put_same_value(r->Obj_0, "extensions"@, x);
}

/// Completion never overwrites an existing string in the metadata: what
/// `extensions.VRM.meta` holds under a key as a string, it still holds after
/// the fix.
pub proof fn lemma_fix_meta_keeps_strings(j: JsonView, k: Seq<char>)
    requires
        j.get("extensions"@) matches Some(e) && e.get("VRM"@) matches Some(vrm) && vrm.get(
            "meta"@,
        ) matches Some(m) && m is Obj && (m.get(k) matches Some(v) && v is Str),
    ensures
        fix_meta_spec(j).get("extensions"@) matches Some(e2) && e2.get("VRM"@) matches Some(v2)
            && v2.get("meta"@) matches Some(m2) && m2.get(k) == j.get(
            "extensions"@,
        )->Some_0.get("VRM"@)->Some_0.get("meta"@)->Some_0.get(k),
{
    reveal_strlit("extensionsUsed");
    reveal_strlit("extensions");
    assert("extensionsUsed"@.len() == 14);
    assert("extensions"@.len() == 10);
    assert("extensionsUsed"@ != "extensions"@);
    let e = j.get("extensions"@)->Some_0;
    let vrm0 = e.get("VRM"@)->Some_0;
    let m = vrm0.get("meta"@)->Some_0;
    let j1 = ensure_vrm_used(j);
    lemma_ensure_vrm_used_stable(j);
    assert(j1.get("extensions"@) == j.get("extensions"@));
    let ext = obj_or_empty(j1.get("extensions"@));
    assert(e is Obj) by {
        assert(e.get("VRM"@) is Some);
    }
    assert(ext == e);
    let vrm = obj_or_empty(ext.get("VRM"@));
    assert(vrm0 is Obj) by {
        assert(vrm0.get("meta"@) is Some);
    }
    assert(vrm == vrm0);
    let meta = obj_or_empty(vrm.get("meta"@));
    assert(meta == m);
    let filled = fill_defaults(meta, meta_defaults());
    lemma_fill_keeps_strings(meta, meta_defaults(), k);
    let y = vrm.put("meta"@, filled);
    let x = ext.put("VRM"@, y);
    crate::json::lemma_find_put_same(j1->Obj_0, "extensions"@, x);
    crate::json::lemma_find_put_same(ext->Obj_0, "VRM"@, y);
    crate::json::lemma_find_put_same(vrm->Obj_0, "meta"@, filled);
}

/// After the `materials` sweep every reference of its one path is in range:
/// each site holds an index below the swept array's new length, provided
/// every old reference was below `n` and the table is the sweep's own.
pub proof fn lemma_material_refs_in_range(j: JsonView, n: int)
    requires
        0 <= n <= u64::MAX,
        sorted_strict(sweep_table(j, material_paths())),
        sweep_table(j, material_paths()).to_set() == crate::paths::vals_used(
            sites_multi(j, material_paths()),
        ),
        forall|i: int|
            0 <= i < sites(j, material_paths()[0]).len() ==> (crate::numtext::text_u64(
                #[trigger] sites(j, material_paths()[0])[i],
            ) matches Some(v) && (v as int) < n),
    ensures
        ({
            let t = sweep_table(j, material_paths());
            forall|i: int|
                0 <= i < sites(sweep_spec(j, "materials"@, material_paths()), material_paths()[0]).len()
                    ==> (crate::numtext::text_u64(
                    #[trigger] sites(
                        sweep_spec(j, "materials"@, material_paths()),
                        material_paths()[0],
                    )[i],
                ) matches Some(v) && (v as int) < crate::sweep::count_range(t, 0, n))
        }),
{
    lemma_material_paths_ok();
    assert(seq![material_paths()[0]] =~= material_paths());
    crate::sweep::lemma_sweep_refs_in_range(j, "materials"@, material_paths()[0], n);
}

/// After the `images` sweep every reference of its one path is in range:
/// each site holds an index below the swept array's new length, provided
/// every old reference was below `n` and the table is the sweep's own.
pub proof fn lemma_image_refs_in_range(j: JsonView, n: int)
    requires
        0 <= n <= u64::MAX,
        sorted_strict(sweep_table(j, image_paths())),
        sweep_table(j, image_paths()).to_set() == crate::paths::vals_used(
            sites_multi(j, image_paths()),
        ),
        forall|i: int|
            0 <= i < sites(j, image_paths()[0]).len() ==> (crate::numtext::text_u64(
                #[trigger] sites(j, image_paths()[0])[i],
            ) matches Some(v) && (v as int) < n),
    ensures
        ({
            let t = sweep_table(j, image_paths());
            forall|i: int|
                0 <= i < sites(sweep_spec(j, "images"@, image_paths()), image_paths()[0]).len()
                    ==> (crate::numtext::text_u64(
                    #[trigger] sites(
                        sweep_spec(j, "images"@, image_paths()),
                        image_paths()[0],
                    )[i],
                ) matches Some(v) && (v as int) < crate::sweep::count_range(t, 0, n))
        }),
{
    lemma_image_paths_ok();
    assert(seq![image_paths()[0]] =~= image_paths());
    crate::sweep::lemma_sweep_refs_in_range(j, "images"@, image_paths()[0], n);
}

/// After the `samplers` sweep every reference of its one path is in range:
/// each site holds an index below the swept array's new length, provided
/// every old reference was below `n` and the table is the sweep's own.
pub proof fn lemma_sampler_refs_in_range(j: JsonView, n: int)
    requires
        0 <= n <= u64::MAX,
        sorted_strict(sweep_table(j, sampler_paths())),
        sweep_table(j, sampler_paths()).to_set() == crate::paths::vals_used(
            sites_multi(j, sampler_paths()),
        ),
        forall|i: int|
            0 <= i < sites(j, sampler_paths()[0]).len() ==> (crate::numtext::text_u64(
                #[trigger] sites(j, sampler_paths()[0])[i],
            ) matches Some(v) && (v as int) < n),
    ensures
        ({
            let t = sweep_table(j, sampler_paths());
            forall|i: int|
                0 <= i < sites(sweep_spec(j, "samplers"@, sampler_paths()), sampler_paths()[0]).len()
                    ==> (crate::numtext::text_u64(
                    #[trigger] sites(
                        sweep_spec(j, "samplers"@, sampler_paths()),
                        sampler_paths()[0],
                    )[i],
                ) matches Some(v) && (v as int) < crate::sweep::count_range(t, 0, n))
        }),
{
    lemma_sampler_paths_ok();
    assert(seq![sampler_paths()[0]] =~= sampler_paths());
    crate::sweep::lemma_sweep_refs_in_range(j, "samplers"@, sampler_paths()[0], n);
}

} // verus!
