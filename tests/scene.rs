use wallpaper_scene::audio::{audio_cues, audio_object, BlobAsset, PlaybackMode};
use wallpaper_scene::camera::{camera_params, CameraDesc, Orthogonalprojection, ViewDesc};
use wallpaper_scene::graph::{
    classify, find_object, local_transform, resolve_placement, DropReason, NodeKind, SceneObject,
};
use wallpaper_scene::num::Dec;
use wallpaper_scene::path::replace_extension;
use wallpaper_scene::plan::{
    compile, texture_is_intact, Assets, CompileError, Diagnostic, DrawPlan, JsonAsset, TextureAsset,
    MAX_TEXTURE,
};
use wallpaper_scene::store::{file_kind, parse_number, FileKind};
use wallpaper_scene::text::{chars_of, split_words};
use wallpaper_scene::vector::{Amount, Vectors, Visibility};
use wallpaper_scene::wallpaper::start;

fn num(s: &str) -> Dec {
    parse_number(s).unwrap()
}

fn value(d: &Dec) -> f64 {
    d.mantissa() as f64 / 10f64.powi(d.exponent() as i32)
}

fn text(s: &str) -> Option<Vectors> {
    Some(Vectors::Vectors(s.to_string()))
}

fn object(id: i64, image: Option<&str>) -> SceneObject {
    SceneObject {
        id,
        parent: None,
        image: image.map(|s| s.to_string()),
        sound: vec![],
        playback_mode: None,
        volume: Amount::Unset,
        alpha: Amount::Unset,
        origin: None,
        angles: None,
        scale: None,
        size: None,
        visible: Visibility::Unset,
    }
}

fn texture(path: &str, width: u32, height: u32, len: usize) -> TextureAsset {
    TextureAsset { path: path.to_string(), width, height, rgba: vec![0u8; len] }
}

fn model(path: &str, material: &str) -> JsonAsset {
    JsonAsset { path: path.to_string(), text: format!("{{\"autosize\": false, \"material\": \"{}\"}}", material) }
}

/// Models `a.json` and `b.json`, with intact 2x2 textures behind them.
fn store() -> Assets {
    Assets {
        jsons: vec![model("a.json", "materials/a.json"), model("b.json", "materials/b.json")],
        textures: vec![texture("materials/a.tex", 2, 2, 16), texture("materials/b.tex", 2, 2, 16)],
    }
}

fn plan_of(objs: &Vec<SceneObject>, assets: &Assets) -> DrawPlan {
    match compile(objs, assets) {
        Ok(p) => p,
        Err(e) => panic!("compile failed: {:?}", e),
    }
}

fn drawn_ids(objs: &Vec<SceneObject>, p: &DrawPlan) -> Vec<i64> {
    p.entries.iter().map(|e| objs[e.object].id).collect()
}

#[test]
fn scalar_vector_broadcasts() {
    let v = Vectors::Scaler(num("2.5"));
    let parts = v.parse().unwrap();
    assert_eq!(parts.len(), 3);
    for p in &parts {
        assert_eq!(p.mantissa(), 25);
        assert_eq!(p.exponent(), 1);
    }
}

#[test]
fn text_vector_parses_components() {
    let v = Vectors::Vectors("1.5 -2 3".to_string());
    let parts = v.parse().unwrap();
    assert_eq!(parts.len(), 3);
    assert_eq!(value(&parts[0]), 1.5);
    assert_eq!(value(&parts[1]), -2.0);
    assert_eq!(value(&parts[2]), 3.0);
}

#[test]
fn text_vector_with_extra_spaces() {
    let v = Vectors::Vectors("  0.25\t4   .5 ".to_string());
    let parts = v.parse().unwrap();
    assert_eq!(parts.len(), 3);
    assert_eq!(value(&parts[0]), 0.25);
    assert_eq!(value(&parts[1]), 4.0);
    assert_eq!(value(&parts[2]), 0.5);
}

#[test]
fn malformed_vector_is_none() {
    assert!(Vectors::Vectors("1 x 3".to_string()).parse().is_none());
    assert!(Vectors::Vectors("1e".to_string()).parse().is_none());
    assert!(Vectors::Vectors("e5".to_string()).parse().is_none());
    assert!(Vectors::Vectors("-".to_string()).parse().is_none());
    assert_eq!(Vectors::Vectors("".to_string()).parse().unwrap().len(), 0);
}

#[test]
fn decimal_literals() {
    let d = num("-12.0340");
    assert_eq!(d.mantissa(), -12034);
    assert_eq!(d.exponent(), 3);
    let d = num("1.00000");
    assert_eq!((d.mantissa(), d.exponent()), (1, 0));
    assert_eq!(num("1.000000000000000000").mantissa(), 1);
    assert_eq!(num("+7").mantissa(), 7);
    assert_eq!(num("3.").mantissa(), 3);
    assert!(parse_number(".").is_none());
    assert!(parse_number("1.2.3").is_none());
    assert!(parse_number("99999999999999999999").is_none());
    assert!(parse_number("0.0000000000000000001").is_none());
    assert_eq!(num("9223372036854775807").mantissa(), i64::MAX);
}

#[test]
fn decimal_arithmetic_is_exact() {
    let a = num("0.1");
    let b = num("0.2");
    let s = a.add(&b).unwrap();
    assert_eq!((s.mantissa(), s.exponent()), (3, 1));
    let p = num("1.5").mul(&num("-0.5")).unwrap();
    assert_eq!((p.mantissa(), p.exponent()), (-75, 2));
    let h = num("3").half().unwrap();
    assert_eq!((h.mantissa(), h.exponent()), (15, 1));
    let d = num("1").sub(&num("2.5")).unwrap();
    assert_eq!((d.mantissa(), d.exponent()), (-15, 1));
    assert!(num("9223372036854775807").add(&num("1")).is_none());
}

#[test]
fn words_split_at_whitespace() {
    let w = split_words(&chars_of(" ab  c\nd "));
    assert_eq!(w, vec![vec!['a', 'b'], vec!['c'], vec!['d']]);
}

#[test]
fn missing_fields_take_defaults() {
    let t = local_transform(&object(1, Some("a.json")));
    assert_eq!(value(&t.origin.x), 0.0);
    assert_eq!(value(&t.angles.z), 0.0);
    assert_eq!(value(&t.scale.x), 1.0);
    assert_eq!(value(&t.scale.z), 1.0);
    let mut o = object(1, None);
    o.scale = text("2 oops 2");
    o.origin = text("5 6");
    let t = local_transform(&o);
    assert_eq!(value(&t.scale.y), 1.0);
    assert_eq!(value(&t.origin.x), 0.0);
}

#[test]
fn parent_child_origin() {
    let mut p = object(1, None);
    p.origin = text("100 50 2");
    p.scale = text("2 3 1");
    p.angles = text("0 0 0.5");
    let mut c = object(2, Some("a.json"));
    c.parent = Some(1);
    c.origin = text("10 10 1");
    c.scale = text("0.5 0.5 0.5");
    c.angles = text("0 0 0.25");
    let objs = vec![p, c];
    let t = resolve_placement(&objs, 1).unwrap();
    assert_eq!(value(&t.origin.x), 120.0);
    assert_eq!(value(&t.origin.y), 80.0);
    assert_eq!(value(&t.origin.z), 3.0);
    assert_eq!(value(&t.scale.x), 1.0);
    assert_eq!(value(&t.scale.y), 1.5);
    assert_eq!(value(&t.angles.z), 0.75);
}

#[test]
fn three_level_chain_composes() {
    let mut g = object(1, None);
    g.origin = text("1000 0 0");
    g.scale = text("10 10 10");
    let mut p = object(2, None);
    p.parent = Some(1);
    p.origin = text("5 0 0");
    p.scale = text("2 2 2");
    let mut c = object(3, Some("a.json"));
    c.parent = Some(2);
    c.origin = text("1 0 0");
    // placed after its child on purpose: lookup is by id, not by position
    let objs = vec![c, g, p];
    let t = resolve_placement(&objs, 0).unwrap();
    // P' = (1000 + 5*10, scale 20); C = P'.origin + 1 * 20
    assert_eq!(value(&t.origin.x), 1070.0);
    assert_eq!(value(&t.scale.x), 20.0);
    let mid = resolve_placement(&objs, 2).unwrap();
    assert_eq!(value(&mid.origin.x), 1050.0);
    assert_eq!(value(&mid.scale.x), 20.0);
}

#[test]
fn orphan_parent_stops_walk() {
    let mut c = object(3, Some("a.json"));
    c.parent = Some(99);
    c.origin = text("4 5 6");
    let objs = vec![c];
    let t = resolve_placement(&objs, 0).unwrap();
    assert_eq!(value(&t.origin.x), 4.0);
    assert_eq!(find_object(&objs, 99), None);
}

#[test]
fn parent_cycle_is_reported() {
    let mut a = object(1, Some("a.json"));
    a.parent = Some(2);
    let mut b = object(2, None);
    b.parent = Some(1);
    let objs = vec![a, b];
    assert!(matches!(resolve_placement(&objs, 0), Err(DropReason::Cycle)));
    let p = plan_of(&objs, &store());
    assert!(p.entries.is_empty());
    assert_eq!(p.diagnostics, vec![Diagnostic { object_id: 1, reason: DropReason::Cycle }]);
}

#[test]
fn example_scene_resolves_exactly() {
    let mut o1 = object(1, Some("a.json"));
    o1.origin = text("0 0 0");
    o1.size = text("100 100");
    let mut o2 = object(2, Some("b.json"));
    o2.parent = Some(1);
    o2.origin = text("10 0 0");
    o2.scale = text("2 2 2");
    let objs = vec![o1, o2];
    let t = resolve_placement(&objs, 1).unwrap();
    assert_eq!((value(&t.origin.x), value(&t.origin.y), value(&t.origin.z)), (10.0, 0.0, 0.0));
    assert_eq!((value(&t.scale.x), value(&t.scale.y), value(&t.scale.z)), (2.0, 2.0, 2.0));
    let p = plan_of(&objs, &store());
    assert_eq!(drawn_ids(&objs, &p), vec![1, 2]);
    let e0 = &p.entries[0];
    assert_eq!(value(&e0.half_width), 50.0);
    assert_eq!(value(&e0.half_height), 50.0);
    assert_eq!(value(&e0.origin.z), -1.0);
    let e1 = &p.entries[1];
    assert_eq!(value(&e1.origin.x), 10.0);
    assert_eq!(value(&e1.origin.z), -1.0);
    assert_eq!(e1.texture, 1);
    assert_eq!((e0.slot, e1.slot), (0, 1));
    assert_eq!(p.indices, vec![0, 2, 1, 0, 3, 2, 4, 6, 5, 4, 7, 6]);
}

#[test]
fn visibility_forms() {
    let mut wrapped = object(1, Some("a.json"));
    wrapped.visible = Visibility::Value(false);
    let mut plain = object(2, Some("a.json"));
    plain.visible = Visibility::Flag(false);
    let unset = object(3, Some("a.json"));
    let mut shown = object(4, Some("b.json"));
    shown.visible = Visibility::Value(true);
    let objs = vec![wrapped, plain, unset, shown];
    let p = plan_of(&objs, &store());
    assert_eq!(drawn_ids(&objs, &p), vec![3, 4]);
    assert_eq!(
        p.diagnostics,
        vec![
            Diagnostic { object_id: 1, reason: DropReason::Hidden },
            Diagnostic { object_id: 2, reason: DropReason::Hidden },
        ]
    );
}

#[test]
fn hidden_ancestor_hides_descendants() {
    let mut g = object(1, None);
    g.visible = Visibility::Value(false);
    let mut p = object(2, None);
    p.parent = Some(1);
    let mut c = object(3, Some("a.json"));
    c.parent = Some(2);
    c.visible = Visibility::Flag(true);
    let mut d = object(4, Some("b.json"));
    d.parent = Some(1);
    let other = object(5, Some("a.json"));
    let objs = vec![g, p, c, d, other];
    let plan = plan_of(&objs, &store());
    assert_eq!(drawn_ids(&objs, &plan), vec![5]);
    assert_eq!(
        plan.diagnostics,
        vec![
            Diagnostic { object_id: 3, reason: DropReason::HiddenAncestor },
            Diagnostic { object_id: 4, reason: DropReason::HiddenAncestor },
        ]
    );
}

#[test]
fn compiling_twice_gives_the_same_plan() {
    let mut objs = vec![];
    for i in 0..20 {
        let mut o = object(i, Some(if i % 2 == 0 { "a.json" } else { "b.json" }));
        o.origin = text(&format!("{} {}.5 3", i, i));
        if i > 0 {
            o.parent = Some(i - 1);
        }
        objs.push(o);
    }
    let p1 = plan_of(&objs, &store());
    let p2 = plan_of(&objs, &store());
    assert_eq!(p1.entries.len(), 20);
    assert_eq!(p1.indices, p2.indices);
    assert_eq!(p1.diagnostics, p2.diagnostics);
    for (a, b) in p1.entries.iter().zip(p2.entries.iter()) {
        assert_eq!((a.object, a.texture, a.slot), (b.object, b.texture, b.slot));
        assert!(a.origin.x.same(&b.origin.x) && a.origin.y.same(&b.origin.y));
        assert!(a.origin.z.same(&b.origin.z) && a.half_width.same(&b.half_width));
    }
}

#[test]
fn texture_integrity() {
    let mut assets = store();
    assets.textures[1] = texture("materials/b.tex", 2, 2, 15);
    assert!(texture_is_intact(&assets.textures[0]));
    assert!(!texture_is_intact(&assets.textures[1]));
    let objs = vec![object(1, Some("a.json")), object(2, Some("b.json"))];
    let p = plan_of(&objs, &assets);
    assert_eq!(drawn_ids(&objs, &p), vec![1]);
    assert_eq!(p.entries[0].texture, 0);
    assert_eq!(p.diagnostics, vec![Diagnostic { object_id: 2, reason: DropReason::Corrupt }]);
}

#[test]
fn binding_failures_are_told_apart() {
    let mut assets = store();
    assets.jsons.push(JsonAsset { path: "broken.json".to_string(), text: "{not json".to_string() });
    assets.jsons.push(model("lost.json", "materials/lost.json"));
    let objs = vec![
        object(1, Some("nothere.json")),
        object(2, Some("broken.json")),
        object(3, Some("lost.json")),
        object(4, Some("a.json")),
        object(5, None),
    ];
    let p = plan_of(&objs, &assets);
    assert_eq!(drawn_ids(&objs, &p), vec![4]);
    assert_eq!(
        p.diagnostics,
        vec![
            Diagnostic { object_id: 1, reason: DropReason::MissingModel },
            Diagnostic { object_id: 2, reason: DropReason::MissingMaterial },
            Diagnostic { object_id: 3, reason: DropReason::MissingTexture },
        ]
    );
}

#[test]
fn overflow_drops_the_object() {
    let mut p = object(1, None);
    p.scale = text("9223372036854775807 1 1");
    let mut c = object(2, Some("a.json"));
    c.parent = Some(1);
    c.origin = text("2 0 0");
    let objs = vec![p, c];
    let plan = plan_of(&objs, &store());
    assert!(plan.entries.is_empty());
    assert_eq!(plan.diagnostics, vec![Diagnostic { object_id: 2, reason: DropReason::Overflow }]);
}

fn many(n: usize) -> Vec<SceneObject> {
    (0..n).map(|i| object(i as i64, Some("a.json"))).collect()
}

#[test]
fn capacity_boundary() {
    let objs = many(MAX_TEXTURE);
    let p = plan_of(&objs, &store());
    assert_eq!(p.entries.len(), MAX_TEXTURE);
    assert_eq!(p.entries[MAX_TEXTURE - 1].slot, (MAX_TEXTURE - 1) as u32);
    assert_eq!(p.indices.len(), 6 * MAX_TEXTURE);
    assert_eq!(*p.indices.last().unwrap(), (4 * MAX_TEXTURE - 2) as u16);
    let objs = many(MAX_TEXTURE + 1);
    assert_eq!(compile(&objs, &store()).err(), Some(CompileError::Capacity { survivors: MAX_TEXTURE + 1 }));
}

#[test]
fn alpha_and_rotation_carry_over() {
    let mut o = object(1, Some("a.json"));
    o.alpha = Amount::Value(num("0.5"));
    o.angles = text("0 0 1.25");
    o.size = text("4 2");
    o.scale = text("3 0.5 1");
    let objs = vec![o];
    let p = plan_of(&objs, &store());
    let e = &p.entries[0];
    assert_eq!(value(&e.alpha), 0.5);
    assert_eq!(value(&e.angle), 1.25);
    assert_eq!(value(&e.half_width), 6.0);
    assert_eq!(value(&e.half_height), 0.5);
    let objs = vec![object(1, Some("a.json"))];
    assert_eq!(value(&plan_of(&objs, &store()).entries[0].alpha), 1.0);
}

#[test]
fn audio_cues_follow_sounds() {
    let mut music = object(1, None);
    music.sound = vec!["sounds/a.mp3".to_string(), "sounds/missing.ogg".to_string(), "sounds/b".to_string()];
    music.volume = Amount::Number(num("0.3"));
    let mut once = object(2, None);
    once.sound = vec!["sounds/a.mp3".to_string()];
    once.playback_mode = Some("single".to_string());
    let mut pictured = object(3, Some("a.json"));
    pictured.sound = vec!["sounds/a.mp3".to_string()];
    let objs = vec![music, once, pictured];
    let blobs = vec![
        BlobAsset { path: "sounds/b".to_string(), bytes: vec![1] },
        BlobAsset { path: "sounds/a.mp3".to_string(), bytes: vec![2] },
    ];
    let cues = audio_cues(&objs, &blobs);
    assert_eq!(cues.len(), 3);
    assert_eq!((cues[0].object_id, cues[0].blob, cues[0].format_hint.as_str()), (1, 1, "mp3"));
    assert_eq!(cues[0].playback_mode, PlaybackMode::Loop);
    assert_eq!(value(&cues[0].volume), 0.3);
    assert_eq!((cues[1].blob, cues[1].format_hint.as_str()), (0, ""));
    assert_eq!((cues[2].object_id, cues[2].playback_mode), (2, PlaybackMode::Others));
    assert_eq!(value(&cues[2].volume), 1.0);
    assert!(audio_object(&objs[2]).is_none());
    let a = audio_object(&objs[1]).unwrap();
    assert_eq!(a.sounds, vec!["sounds/a.mp3".to_string()]);
    assert_eq!(a.playback_mode, PlaybackMode::Others);
}

#[test]
fn file_kinds_and_extensions() {
    assert_eq!(file_kind("materials/a.tex"), FileKind::Texture);
    assert_eq!(file_kind("scene.json"), FileKind::Json);
    assert_eq!(file_kind("sounds/x.mp3"), FileKind::Other);
    assert_eq!(file_kind("dir.tex/file"), FileKind::Other);
    assert_eq!(file_kind(".tex"), FileKind::Other);
    let r = replace_extension(&chars_of("materials/a.json"), &chars_of("tex"));
    assert_eq!(r.iter().collect::<String>(), "materials/a.tex");
    let r = replace_extension(&chars_of("m.v1/noext"), &chars_of("tex"));
    assert_eq!(r.iter().collect::<String>(), "m.v1/noext.tex");
}

#[test]
fn camera_defaults_to_zero() {
    let cam = CameraDesc { center: text("0 0 -1"), eye: None, up: text("0 1 0") };
    let view = ViewDesc {
        orthogonalprojection: Orthogonalprojection { width: 1920, height: 1080 },
        near_z: num("0.01"),
        far_z: num("10000"),
    };
    let c = camera_params(&cam, &view);
    assert_eq!(value(&c.center.z), -1.0);
    assert_eq!(value(&c.eye.x), 0.0);
    assert_eq!(value(&c.up.y), 1.0);
    assert_eq!((c.width, c.height), (1920, 1080));
    assert_eq!(value(&c.near_z), 0.01);
}

#[test]
fn start_compiles_everything() {
    let mut music = object(9, None);
    music.sound = vec!["s.ogg".to_string()];
    let objs = vec![object(1, Some("a.json")), music];
    let blobs = vec![BlobAsset { path: "s.ogg".to_string(), bytes: vec![] }];
    let cam = CameraDesc { center: None, eye: None, up: None };
    let view = ViewDesc {
        orthogonalprojection: Orthogonalprojection { width: 10, height: 20 },
        near_z: num("0"),
        far_z: num("1"),
    };
    let w = start(&objs, &store(), &blobs, &cam, &view).unwrap();
    assert_eq!(w.plan.entries.len(), 1);
    assert_eq!(w.cues.len(), 1);
    assert_eq!(w.cues[0].format_hint, "ogg");
    assert_eq!(w.camera.height, 20);
    let full = many(MAX_TEXTURE + 1);
    assert!(start(&full, &store(), &blobs, &cam, &view).is_err());
}

#[test]
fn objects_are_classified() {
    let mut both = object(1, Some("a.json"));
    both.sound = vec!["s.ogg".to_string()];
    let mut sound = object(2, None);
    sound.sound = vec!["s.ogg".to_string()];
    assert_eq!(classify(&both), NodeKind::Texture);
    assert_eq!(classify(&sound), NodeKind::Audio);
    assert_eq!(classify(&object(3, None)), NodeKind::Transform);
}

#[test]
fn exponent_literals() {
    let d = num("1e5");
    assert_eq!((d.mantissa(), d.exponent()), (100000, 0));
    let d = num("2.5e-3");
    assert_eq!((d.mantissa(), d.exponent()), (25, 4));
    let d = num("-1.5E+2");
    assert_eq!((d.mantissa(), d.exponent()), (-150, 0));
    let d = num("0e-99");
    assert_eq!((d.mantissa(), d.exponent()), (0, 0));
    let d = num("120e-1");
    assert_eq!((d.mantissa(), d.exponent()), (12, 0));
    assert!(parse_number("1e19").is_none());
    assert!(parse_number("1e-19").is_none());
    assert!(parse_number("1e1.5").is_none());
    assert!(parse_number("1e5e5").is_none());
    let parts = Vectors::Vectors("1e2 -2.5e-1 3E0".to_string()).parse().unwrap();
    assert_eq!(parts.iter().map(value).collect::<Vec<f64>>(), vec![100.0, -0.25, 3.0]);
}

#[test]
fn five_decimal_chains_do_not_overflow() {
    let mut g = object(1, None);
    g.origin = text("10.00000 20.00000 0.00000");
    g.scale = text("1.50000 1.50000 1.00000");
    let mut p = object(2, None);
    p.parent = Some(1);
    p.origin = text("4.00000 0.00000 0.00000");
    p.scale = text("2.00000 2.00000 1.00000");
    let mut c = object(3, Some("a.json"));
    c.parent = Some(2);
    c.origin = text("1.25000 0.00000 0.00000");
    c.scale = text("0.50000 0.50000 1.00000");
    c.size = text("100.00000 50.00000");
    let objs = vec![g, p, c];
    let plan = plan_of(&objs, &store());
    assert!(plan.diagnostics.is_empty());
    let e = &plan.entries[0];
    // origin x: 10 + (4 + 1.25 * 2) * 1.5 = 19.75; scale x: 0.5 * 2 * 1.5 = 1.5
    assert_eq!(value(&e.origin.x), 19.75);
    assert_eq!(value(&e.half_width), 75.0);
    assert_eq!(value(&e.half_height), 37.5);
}

#[test]
fn camera_components_default_one_by_one() {
    let cam = CameraDesc { center: text("0 1"), eye: Some(Vectors::Scaler(num("5"))), up: text("bad") };
    let view = ViewDesc {
        orthogonalprojection: Orthogonalprojection { width: 4, height: 3 },
        near_z: num("0"),
        far_z: num("1"),
    };
    let c = camera_params(&cam, &view);
    assert_eq!((value(&c.center.x), value(&c.center.y), value(&c.center.z)), (0.0, 1.0, 0.0));
    assert_eq!(value(&c.eye.z), 5.0);
    assert_eq!(value(&c.up.y), 0.0);
}
