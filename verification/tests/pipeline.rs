//! End-to-end scenarios through the decode / rewrite / encode pipeline.

use vrm_slim::{Json, Vrm, VrmError};

fn push_u32(out: &mut Vec<u8>, x: u32) {
    out.extend_from_slice(&x.to_le_bytes());
}

/// Frame a GLB from a JSON text and BIN payloads, padding as the format asks.
fn glb(version: u32, json: &str, chunks: &[Vec<u8>]) -> Vec<u8> {
    let mut jp = json.as_bytes().to_vec();
    while jp.len() % 4 != 0 {
        jp.push(0x20);
    }
    let mut padded: Vec<Vec<u8>> = Vec::new();
    for c in chunks {
        let mut p = c.clone();
        while p.len() % 4 != 0 {
            p.push(0);
        }
        padded.push(p);
    }
    let chunks = &padded;
    let mut total = 12 + 8 + jp.len();
    for c in chunks {
        total += 8 + c.len();
    }
    let mut out = Vec::new();
    push_u32(&mut out, 0x46546c67);
    push_u32(&mut out, version);
    push_u32(&mut out, total as u32);
    push_u32(&mut out, jp.len() as u32);
    push_u32(&mut out, 0x4e4f534a);
    out.extend_from_slice(&jp);
    for c in chunks {
        push_u32(&mut out, c.len() as u32);
        push_u32(&mut out, 0x4e4942);
        out.extend_from_slice(c);
    }
    out
}

fn get<'a>(j: &'a Json, k: &str) -> &'a Json {
    j.get(k).expect(k)
}

fn arr(j: &Json) -> &Vec<Json> {
    match j {
        Json::Arr(a) => a,
        _ => panic!("not an array"),
    }
}

fn s(t: &str) -> Json {
    Json::Str(t.to_string())
}

fn n(t: &str) -> Json {
    Json::Num(t.to_string())
}

const CLEAN_META: &str = "{\"title\":\"\",\"version\":\"\",\"author\":\"\",\"contactInformation\":\"\",\"reference\":\"\",\"allowedUserName\":\"OnlyAuthor\",\"violentUssageName\":\"Disallow\",\"sexualUssageName\":\"Disallow\",\"commercialUssageName\":\"Disallow\",\"otherPermissionUrl\":\"\",\"licenseName\":\"Redistribution_Prohibited\",\"otherLicenseUrl\":\"\"}";

/// An already-upgraded file with nothing to remove comes back byte for byte.
#[test]
fn no_op_file_roundtrips() {
    let json = format!(
        "{{\"extensionsUsed\":[\"VRM\"],\"extensions\":{{\"VRM\":{{\"exporterVersion\":\"UniVRM-0.99\",\"meta\":{}}}}}}}",
        CLEAN_META
    );
    let input = glb(2, &json, &[]);
    let vrm = Vrm::load_reader(&input).expect("decode");
    let output = vrm.save().expect("encode");
    assert_eq!(input, output);
}

/// A legacy image's name moves out of `extra`.
#[test]
fn legacy_image_gets_named() {
    let json = "{\"extensions\":{\"VRM\":{\"version\":\"0.35\"}},\"images\":[{\"name\":\"\",\"extra\":{\"name\":\"face\"}}],\"textures\":[{\"source\":0}],\"materials\":[{\"pbrMetallicRoughness\":{\"baseColorTexture\":{\"index\":0}}}],\"meshes\":[{\"primitives\":[{\"material\":0}]}]}";
    let input = glb(2, json, &[]);
    let vrm = Vrm::load_reader(&input).expect("decode");
    let images = arr(get(&vrm.chunk0, "images"));
    assert_eq!(images.len(), 1);
    assert_eq!(get(&images[0], "name"), &s("face"));
    assert!(images[0].get("extra").is_none());
}

/// An image no surviving texture points at disappears, and the remaining
/// references are renumbered.
#[test]
fn dead_image_is_swept() {
    let json = "{\"extensions\":{\"VRM\":{\"exporterVersion\":\"x\"}},\"images\":[{\"name\":\"a\"},{\"name\":\"b\"},{\"name\":\"c\"}],\"textures\":[{\"source\":0},{\"source\":2}],\"materials\":[{\"pbrMetallicRoughness\":{\"baseColorTexture\":{\"index\":0},\"metallicRoughnessTexture\":{\"index\":1}}}],\"meshes\":[{\"primitives\":[{\"material\":0}]}]}";
    let input = glb(2, json, &[]);
    let vrm = Vrm::load_reader(&input).expect("decode");
    let images = arr(get(&vrm.chunk0, "images"));
    assert_eq!(images.len(), 2);
    assert_eq!(get(&images[0], "name"), &s("a"));
    assert_eq!(get(&images[1], "name"), &s("c"));
    let textures = arr(get(&vrm.chunk0, "textures"));
    assert_eq!(get(&textures[0], "source"), &n("0"));
    assert_eq!(get(&textures[1], "source"), &n("1"));
}

/// A gap between buffer views is squeezed out: offsets shift, the buffer
/// shrinks, and the output chunk holds exactly the surviving bytes.
#[test]
fn gap_buffer_is_compacted() {
    let json = "{\"extensions\":{\"VRM\":{\"exporterVersion\":\"x\"}},\"buffers\":[{\"byteLength\":300}],\"bufferViews\":[{\"buffer\":0,\"byteOffset\":0,\"byteLength\":100},{\"buffer\":0,\"byteOffset\":200,\"byteLength\":100}],\"accessors\":[{\"bufferView\":0},{\"bufferView\":1}],\"meshes\":[{\"primitives\":[{\"attributes\":{\"POSITION\":0,\"NORMAL\":1}}]}]}";
    let payload: Vec<u8> = (0..300u32).map(|i| (i % 251) as u8).collect();
    let input = glb(2, json, &[payload.clone()]);
    let vrm = Vrm::load_reader(&input).expect("decode");

    let views = arr(get(&vrm.chunk0, "bufferViews"));
    assert_eq!(get(&views[0], "byteOffset"), &n("0"));
    assert_eq!(get(&views[1], "byteOffset"), &n("104"));
    let buffers = arr(get(&vrm.chunk0, "buffers"));
    assert_eq!(get(&buffers[0], "byteLength"), &n("204"));

    assert_eq!(vrm.chunks.len(), 1);
    let out = &vrm.chunks[0];
    assert_eq!(out.len(), 204);
    assert_eq!(&out[0..104], &payload[0..104]);
    assert_eq!(&out[104..204], &payload[200..300]);
}

/// An empty VRM meta gains every required key with its default.
#[test]
fn missing_meta_is_completed() {
    let json = "{\"extensions\":{\"VRM\":{\"exporterVersion\":\"x\",\"meta\":{}}}}";
    let input = glb(2, json, &[]);
    let vrm = Vrm::load_reader(&input).expect("decode");
    let meta = get(get(get(&vrm.chunk0, "extensions"), "VRM"), "meta");
    let defaults = [
        ("title", ""),
        ("version", ""),
        ("author", ""),
        ("contactInformation", ""),
        ("reference", ""),
        ("allowedUserName", "OnlyAuthor"),
        ("violentUssageName", "Disallow"),
        ("sexualUssageName", "Disallow"),
        ("commercialUssageName", "Disallow"),
        ("otherPermissionUrl", ""),
        ("licenseName", "Redistribution_Prohibited"),
        ("otherLicenseUrl", ""),
    ];
    for (k, v) in defaults {
        assert_eq!(get(meta, k), &s(v), "{}", k);
    }
    match meta {
        Json::Obj(m) => assert_eq!(m.len(), 12),
        _ => panic!("meta is not an object"),
    }
    let used = arr(get(&vrm.chunk0, "extensionsUsed"));
    assert_eq!(used, &vec![s("VRM")]);
}

/// Meta completion keeps existing strings and is idempotent.
#[test]
fn meta_completion_keeps_strings() {
    let json = "{\"extensions\":{\"VRM\":{\"exporterVersion\":\"x\",\"meta\":{\"title\":\"My Avatar\",\"version\":7}}}}";
    let input = glb(2, json, &[]);
    let vrm = Vrm::load_reader(&input).expect("decode");
    let meta = get(get(get(&vrm.chunk0, "extensions"), "VRM"), "meta");
    assert_eq!(get(meta, "title"), &s("My Avatar"));
    assert_eq!(get(meta, "version"), &s(""));
    let encoded = vrm.save().expect("encode");
    let again = Vrm::load_reader(&encoded).expect("decode again");
    assert_eq!(again.chunk0, vrm.chunk0);
}

/// Applying the legacy upgrade twice equals applying it once.
#[test]
fn upgrade_is_idempotent() {
    let json = "{\"extensions\":{\"VRM\":{\"version\":\"0.35\"}},\"images\":[{\"name\":\"\",\"extra\":{\"name\":\"face\"}}],\"meshes\":[{\"primitives\":[{\"targets\":[{\"POSITION\":1,\"JOINTS_0\":-1,\"extra\":{\"name\":\"smile\"}}]}]}]}";
    let input = glb(2, json, &[]);
    let (_, _, json_bytes, _) = split_raw(&input);
    let doc = parse_json(&json_bytes);
    let once = Vrm::upgrade_chunk0(doc);
    let twice = Vrm::upgrade_chunk0(clone_json(&once));
    assert_eq!(once, twice);
    let meshes = arr(get(&once, "meshes"));
    let prims = arr(get(&meshes[0], "primitives"));
    let extras = get(&prims[0], "extras");
    assert_eq!(get(extras, "targetNames"), &Json::Arr(vec![s("smile")]));
    let targets = arr(get(&prims[0], "targets"));
    assert!(targets[0].get("JOINTS_0").is_none());
    assert!(targets[0].get("extra").is_none());
    assert_eq!(get(&targets[0], "POSITION"), &n("1"));
}

/// Dead BIN chunks are skipped; surviving ones keep their regions.
#[test]
fn dead_chunk_is_dropped() {
    let json = "{\"extensions\":{\"VRM\":{\"exporterVersion\":\"x\"}},\"buffers\":[{\"byteLength\":4},{\"byteLength\":4}],\"bufferViews\":[{\"buffer\":1,\"byteLength\":4}],\"accessors\":[{\"bufferView\":0}],\"meshes\":[{\"primitives\":[{\"indices\":0}]}]}";
    let chunk0: Vec<u8> = vec![1, 2, 3, 4];
    let chunk1: Vec<u8> = vec![9, 8, 7, 6];
    let input = glb(2, json, &[chunk0, chunk1.clone()]);
    let vrm = Vrm::load_reader(&input).expect("decode");
    // Only buffer 1 was referenced; it is now buffer 0 and only its chunk
    // survives.
    assert_eq!(vrm.chunks.len(), 1);
    assert_eq!(vrm.chunks[0], chunk1);
    let views = arr(get(&vrm.chunk0, "bufferViews"));
    assert_eq!(get(&views[0], "buffer"), &n("0"));
}

/// The container errors: wrong magic, short data, wrong chunk types,
/// malformed JSON.
#[test]
fn container_errors_are_named() {
    assert_eq!(err_of(Vrm::load_reader(&[0u8; 10])), VrmError::TooShort);
    let mut bad_magic = glb(2, "{}", &[]);
    bad_magic[0] = 0;
    assert_eq!(err_of(Vrm::load_reader(&bad_magic)), VrmError::BadMagic);
    let mut bad_type = glb(2, "{}", &[]);
    bad_type[16] = 0;
    assert_eq!(err_of(Vrm::load_reader(&bad_type)), VrmError::BadJsonChunkType);
    let bad_json = glb(2, "{nope}", &[]);
    assert_eq!(err_of(Vrm::load_reader(&bad_json)), VrmError::JsonParse);
    let mut bad_bin = glb(2, "{}", &[vec![1, 2, 3, 4]]);
    let n = bad_bin.len();
    bad_bin[n - 6] = 0xff;
    assert_eq!(err_of(Vrm::load_reader(&bad_bin)), VrmError::BadBinChunkType);
}

/// A reference that is no unsigned 64-bit index is reported under its
/// resource path and skipped: it keeps its value and counts as unused.
#[test]
fn unusable_index_is_reported() {
    let json = "{\"extensions\":{\"VRM\":{\"exporterVersion\":\"x\"}},\"buffers\":[{\"byteLength\":4}],\"bufferViews\":[{\"buffer\":1.5,\"byteLength\":4}],\"accessors\":[{\"bufferView\":0}],\"meshes\":[{\"primitives\":[{\"indices\":0}]}]}";
    let input = glb(2, json, &[vec![1, 2, 3, 4]]);
    let vrm = Vrm::load_reader(&input).expect("decode");
    assert_eq!(vrm.warnings.len(), 1);
    assert_eq!(vrm.warnings[0].kind, "/buffers");
    assert_eq!(vrm.warnings[0].text, "1.5");
    // No buffer was referenced by a usable index: none survives.
    assert_eq!(arr(get(&vrm.chunk0, "buffers")).len(), 0);
    assert_eq!(vrm.chunks.len(), 0);
    // The unusable reference itself is kept as it was.
    let views = arr(get(&vrm.chunk0, "bufferViews"));
    assert_eq!(get(&views[0], "buffer"), &n("1.5"));
}

fn err_of(r: Result<Vrm, VrmError>) -> VrmError {
    match r {
        Err(e) => e,
        Ok(_) => panic!("expected an error"),
    }
}

/// The declared total length of the output equals its byte count.
#[test]
fn total_length_matches_output() {
    let json = "{\"extensions\":{\"VRM\":{\"exporterVersion\":\"x\"}},\"buffers\":[{\"byteLength\":5}],\"bufferViews\":[{\"buffer\":0,\"byteLength\":5}],\"accessors\":[{\"bufferView\":0}],\"meshes\":[{\"primitives\":[{\"indices\":0}]}]}";
    let input = glb(2, json, &[vec![1, 2, 3, 4, 5]]);
    let vrm = Vrm::load_reader(&input).expect("decode");
    let out = vrm.save().expect("encode");
    let declared = u32::from_le_bytes([out[8], out[9], out[10], out[11]]);
    assert_eq!(declared as usize, out.len());
    assert_eq!(vrm.chunks[0].len(), 8); // five bytes zero-padded to eight
    assert_eq!(&vrm.chunks[0][0..5], &[1, 2, 3, 4, 5]);
    assert_eq!(&vrm.chunks[0][5..8], &[0, 0, 0]);
}

fn split_raw(data: &[u8]) -> (u32, u32, Vec<u8>, Vec<u8>) {
    let version = u32::from_le_bytes([data[4], data[5], data[6], data[7]]);
    let total = u32::from_le_bytes([data[8], data[9], data[10], data[11]]);
    let jlen = u32::from_le_bytes([data[12], data[13], data[14], data[15]]) as usize;
    (version, total, data[20..20 + jlen].to_vec(), data[20 + jlen..].to_vec())
}

fn parse_json(bytes: &[u8]) -> Json {
    let v: serde_json::Value = serde_json::from_slice(bytes).expect("json");
    value_to_json(v)
}

fn value_to_json(v: serde_json::Value) -> Json {
    match v {
        serde_json::Value::Null => Json::Null,
        serde_json::Value::Bool(b) => Json::Bool(b),
        serde_json::Value::Number(n) => Json::Num(n.as_str().to_string()),
        serde_json::Value::String(s) => Json::Str(s),
        serde_json::Value::Array(a) => Json::Arr(a.into_iter().map(value_to_json).collect()),
        serde_json::Value::Object(m) => {
            Json::Obj(m.into_iter().map(|(k, x)| (k, value_to_json(x))).collect())
        }
    }
}

fn clone_json(j: &Json) -> Json {
    match j {
        Json::Null => Json::Null,
        Json::Bool(b) => Json::Bool(*b),
        Json::Num(s) => Json::Num(s.clone()),
        Json::Str(s) => Json::Str(s.clone()),
        Json::Arr(a) => Json::Arr(a.iter().map(clone_json).collect()),
        Json::Obj(m) => Json::Obj(m.iter().map(|(k, v)| (k.clone(), clone_json(v))).collect()),
    }
}
