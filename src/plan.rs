//! The draw-queue compiler: binds each drawable object to its decoded
//! texture, checks the texture, computes its quad and assigns it a slot of
//! the bounded texture array, in scene order.
use crate::graph::{
    find_id, lemma_through_parent, local_xf, placement, placement_fits, resolve_placement, walk,
    DropReason, Placement, SceneObject, Xf,
};
use crate::num::{q_fits, q_half, q_int, q_mul, q_sub, Dec, Q};
use crate::path::{replace_extension, with_extension};
use crate::text::{chars_eq, chars_of};
use crate::vector::{amount_spec, field_or2, field_vec2, visible_spec, Q3, Vec2, Vec3};
use vstd::prelude::*;

verus! {

/// The number of slots of the texture array, and so the most objects a
/// plan can draw.
pub const MAX_TEXTURE: usize = 512;

/// A JSON document of the asset store.
#[derive(Clone, Debug)]
pub struct JsonAsset {
    pub path: String,
    pub text: String,
}

/// A decoded texture of the asset store: RGBA pixels, four bytes each.
#[derive(Clone, Debug)]
pub struct TextureAsset {
    pub path: String,
    pub width: u32,
    pub height: u32,
    pub rgba: Vec<u8>,
}

/// What the compiler reads of the asset store.
#[derive(Clone, Debug)]
pub struct Assets {
    pub jsons: Vec<JsonAsset>,
    pub textures: Vec<TextureAsset>,
}

/// The material path that a model document names, if it is a JSON object
/// with a string under `material`.
pub uninterp spec fn model_material(doc: Seq<char>) -> Option<Seq<char>>;

/// Relies on `serde_json::from_str` into a `serde_json::Value`, then
/// `Value::get("material")` and `Value::as_str`: the result is a function of
/// the document text alone.
#[verifier::external_body]
fn material_of(doc: &str) -> (r: Option<String>)
    ensures
        match r {
            Some(m) => model_material(doc@) == Some(m@),
            None => model_material(doc@) is None,
        },
{
    let v: serde_json::Value = serde_json::from_str(doc).ok()?;
    v.get("material")?.as_str().map(|m| m.to_string())
}

/// The extension of texture files.
pub open spec fn tex_ext() -> Seq<char> {
    seq!['t', 'e', 'x']
}

/// The first JSON document from `i` on with path `p`.
pub open spec fn find_json(js: Seq<JsonAsset>, p: Seq<char>, i: int) -> Option<int>
    decreases js.len() - i,
{
    if i < 0 || i >= js.len() {
        None
    } else if js[i].path@ == p {
        Some(i)
    } else {
        find_json(js, p, i + 1)
    }
}

/// The first texture from `i` on with path `p`.
pub open spec fn find_texture(ts: Seq<TextureAsset>, p: Seq<char>, i: int) -> Option<int>
    decreases ts.len() - i,
{
    if i < 0 || i >= ts.len() {
        None
    } else if ts[i].path@ == p {
        Some(i)
    } else {
        find_texture(ts, p, i + 1)
    }
}

/// Whether the pixel data is exactly `width * height * 4` bytes.
pub open spec fn tex_ok(t: TextureAsset) -> bool {
    t.rgba@.len() == t.width as int * t.height as int * 4
}

/// The texture that the image reference `img` leads to: image reference,
/// model document, material, texture file of the same path with the
/// texture extension.
pub open spec fn bind_texture(a: Assets, img: Seq<char>) -> Result<int, DropReason> {
    match find_json(a.jsons@, img, 0) {
        None => Err(DropReason::MissingModel),
        Some(j) => match model_material(a.jsons@[j].text@) {
            None => Err(DropReason::MissingMaterial),
            Some(mat) => match find_texture(a.textures@, with_extension(mat, tex_ext()), 0) {
                None => Err(DropReason::MissingTexture),
                Some(x) => Ok(x),
            },
        },
    }
}

/// One draw of a plan, in exact numbers.
pub struct EntryQ {
    /// Index of the object in the scene.
    pub object: int,
    /// Index of its texture in the asset store.
    pub texture: int,
    /// Quad center; `z` is the object's `z` minus one.
    pub origin: Q3,
    pub half_width: Q,
    pub half_height: Q,
    /// Rotation about the quad center.
    pub angle: Q,
    pub alpha: Q,
}

/// What the compiler makes of one object.
pub enum Outcome {
    /// Not texture-bearing: not the compiler's concern.
    Skip,
    Drop(DropReason),
    Draw(EntryQ),
}

/// The quad of object `o` placed by `t` with texture `x`: its size scaled by
/// the cumulative scale, centered on the cumulative origin, one layer nearer.
pub open spec fn quad(i: int, o: SceneObject, t: Xf, x: int) -> Outcome {
    let size = field_vec2(o.size, (q_int(0), q_int(0)));
    let w = q_mul(size.0, t.scale.x);
    let h = q_mul(size.1, t.scale.y);
    let z = q_sub(t.origin.z, q_int(1));
    if q_fits(w) && q_fits(h) && q_fits(q_half(w)) && q_fits(q_half(h)) && q_fits(z) {
        Outcome::Draw(
            EntryQ {
                object: i,
                texture: x,
                origin: Q3 { x: t.origin.x, y: t.origin.y, z },
                half_width: q_half(w),
                half_height: q_half(h),
                angle: t.angles.z,
                alpha: amount_spec(o.alpha, q_int(1)),
            },
        )
    } else {
        Outcome::Drop(DropReason::Overflow)
    }
}

/// What the compiler makes of object `i`.
pub open spec fn outcome(objs: Seq<SceneObject>, a: Assets, i: int) -> Outcome {
    let o = objs[i];
    match o.image {
        None => Outcome::Skip,
        Some(img) => if !visible_spec(o.visible) {
            Outcome::Drop(DropReason::Hidden)
        } else {
            match placement(objs, i) {
                Placement::Hidden => Outcome::Drop(DropReason::HiddenAncestor),
                Placement::Cycle => Outcome::Drop(DropReason::Cycle),
                Placement::Placed(t) => if !placement_fits(objs, i) {
                    Outcome::Drop(DropReason::Overflow)
                } else {
                    match bind_texture(a, img@) {
                        Err(e) => Outcome::Drop(e),
                        Ok(x) => if !tex_ok(a.textures@[x]) {
                            Outcome::Drop(DropReason::Corrupt)
                        } else {
                            quad(i, o, t, x)
                        },
                    }
                },
            }
        },
    }
}

/// The draws of the first `n` objects, in scene order.
pub open spec fn drawn(objs: Seq<SceneObject>, a: Assets, n: int) -> Seq<EntryQ>
    decreases n,
{
    if n <= 0 {
        seq![]
    } else {
        let before = drawn(objs, a, n - 1);
        match outcome(objs, a, n - 1) {
            Outcome::Draw(e) => before.push(e),
            _ => before,
        }
    }
}

/// The dropped objects among the first `n`, with why, in scene order.
pub open spec fn dropped(objs: Seq<SceneObject>, a: Assets, n: int) -> Seq<(i64, DropReason)>
    decreases n,
{
    if n <= 0 {
        seq![]
    } else {
        let before = dropped(objs, a, n - 1);
        match outcome(objs, a, n - 1) {
            Outcome::Drop(e) => before.push((objs[n - 1].id, e)),
            _ => before,
        }
    }
}

/// One draw of a compiled plan.
#[derive(Clone, Copy, Debug)]
pub struct DrawEntry {
    /// Index of the object in the scene.
    pub object: usize,
    /// Index of its texture in the asset store's texture list.
    pub texture: usize,
    pub origin: Vec3,
    pub half_width: Dec,
    pub half_height: Dec,
    pub angle: Dec,
    pub alpha: Dec,
    /// Its slot of the texture array.
    pub slot: u32,
}

pub open spec fn entry_view(e: DrawEntry) -> EntryQ {
    EntryQ {
        object: e.object as int,
        texture: e.texture as int,
        origin: e.origin@,
        half_width: e.half_width@,
        half_height: e.half_height@,
        angle: e.angle@,
        alpha: e.alpha@,
    }
}

/// An object left out of the plan, and why.
#[derive(Clone, Copy, Debug, PartialEq, Eq, Structural)]
pub struct Diagnostic {
    pub object_id: i64,
    pub reason: DropReason,
}

/// The compiled draw plan.
#[derive(Clone, Debug)]
pub struct DrawPlan {
    /// The draws, in paint order; entry `k` uses slot `k`.
    pub entries: Vec<DrawEntry>,
    /// Two triangles per draw, over its four vertices `4k .. 4k+3`.
    pub indices: Vec<u16>,
    /// The objects left out, in scene order.
    pub diagnostics: Vec<Diagnostic>,
}

/// Why a scene cannot be compiled.
#[derive(Clone, Copy, Debug, PartialEq, Eq, Structural)]
pub enum CompileError {
    /// More objects survive than the texture array has slots.
    Capacity { survivors: usize },
}

/// The offsets of the six indices of a quad's two triangles.
pub open spec fn quad_index(j: int) -> int {
    if j == 0 {
        0
    } else if j == 1 {
        2
    } else if j == 2 {
        1
    } else if j == 3 {
        0
    } else if j == 4 {
        3
    } else {
        2
    }
}

/// Whether `p` is the plan that `drawn` and `dropped` describe for `objs`
/// and `a`, with slot `k` for draw `k`.
pub open spec fn plan_matches(p: DrawPlan, objs: Seq<SceneObject>, a: Assets) -> bool {
    let d = drawn(objs, a, objs.len() as int);
    &&& p.entries@.len() == d.len()
    &&& forall|k: int|
        0 <= k < d.len() ==> entry_view(#[trigger] p.entries@[k]) == d[k] && p.entries@[k].slot
            == k
    &&& p.indices@.len() == 6 * d.len()
    &&& forall|k: int, j: int|
        0 <= k < d.len() && 0 <= j < 6 ==> #[trigger] p.indices@[6 * k + j] == 4 * k + quad_index(
            j,
        )
    &&& p.diagnostics@.len() == dropped(objs, a, objs.len() as int).len()
    &&& forall|k: int|
        0 <= k < p.diagnostics@.len() ==> ((#[trigger] p.diagnostics@[k]).object_id,
        p.diagnostics@[k].reason) == dropped(objs, a, objs.len() as int)[k]
}

/// The index of the first JSON document with path `p`.
fn lookup_json(js: &Vec<JsonAsset>, p: &Vec<char>) -> (r: Option<usize>)
    ensures
        match r {
            Some(k) => find_json(js@, p@, 0) == Some(k as int),
            None => find_json(js@, p@, 0) is None,
        },
{
    let mut i: usize = 0;
    while i < js.len()
        invariant
            i <= js@.len(),
            find_json(js@, p@, 0) == find_json(js@, p@, i as int),
        decreases js.len() - i,
    {
        let path = chars_of(js[i].path.as_str());
        if chars_eq(&path, p) {
            return Some(i);
        }
        i = i + 1;
    }
    None
}

/// The index of the first texture with path `p`.
fn lookup_texture(ts: &Vec<TextureAsset>, p: &Vec<char>) -> (r: Option<usize>)
    ensures
        match r {
            Some(k) => find_texture(ts@, p@, 0) == Some(k as int),
            None => find_texture(ts@, p@, 0) is None,
        },
{
    let mut i: usize = 0;
    while i < ts.len()
        invariant
            i <= ts@.len(),
            find_texture(ts@, p@, 0) == find_texture(ts@, p@, i as int),
        decreases ts.len() - i,
    {
        let path = chars_of(ts[i].path.as_str());
        if chars_eq(&path, p) {
            return Some(i);
        }
        i = i + 1;
    }
    None
}

proof fn lemma_find_json_range(js: Seq<JsonAsset>, p: Seq<char>, i: int)
    ensures
        find_json(js, p, i) matches Some(k) ==> 0 <= k < js.len(),
    decreases js.len() - i,
{
    if 0 <= i < js.len() && js[i].path@ != p {
        lemma_find_json_range(js, p, i + 1);
    }
}

proof fn lemma_find_texture_range(ts: Seq<TextureAsset>, p: Seq<char>, i: int)
    ensures
        find_texture(ts, p, i) matches Some(k) ==> 0 <= k < ts.len(),
    decreases ts.len() - i,
{
    if 0 <= i < ts.len() && ts[i].path@ != p {
        lemma_find_texture_range(ts, p, i + 1);
    }
}

/// The texture that goes with a material: the texture file of the same
/// path with the texture extension.
pub fn texture_for_material(a: &Assets, material: &String) -> (r: Result<usize, DropReason>)
    ensures
        match r {
            Ok(x) => find_texture(a.textures@, with_extension(material@, tex_ext()), 0) == Some(
                x as int,
            ) && x < a.textures@.len(),
            Err(e) => e == DropReason::MissingTexture && find_texture(
                a.textures@,
                with_extension(material@, tex_ext()),
                0,
            ) is None,
        },
{
    let mat_chars = chars_of(material.as_str());
    let ext = vec!['t', 'e', 'x'];
    assert(ext@ =~= tex_ext());
    let tex_path = replace_extension(&mat_chars, &ext);
    match lookup_texture(&a.textures, &tex_path) {
        None => Err(DropReason::MissingTexture),
        Some(x) => {
            proof {
                lemma_find_texture_range(a.textures@, tex_path@, 0);
            }
            Ok(x)
        },
    }
}

/// The texture an image reference leads to (see `bind_texture`).
pub fn bind_image(a: &Assets, img: &String) -> (r: Result<usize, DropReason>)
    ensures
        match r {
            Ok(x) => bind_texture(*a, img@) == Ok::<int, DropReason>(x as int) && x < a.textures@.len(),
            Err(e) => bind_texture(*a, img@) == Err::<int, DropReason>(e),
        },
{
    let p = chars_of(img.as_str());
    let j = match lookup_json(&a.jsons, &p) {
        None => {
            return Err(DropReason::MissingModel);
        },
        Some(j) => j,
    };
    proof {
        lemma_find_json_range(a.jsons@, img@, 0);
    }
    match material_of(a.jsons[j].text.as_str()) {
        None => Err(DropReason::MissingMaterial),
        Some(m) => texture_for_material(a, &m),
    }
}

/// Whether the texture's pixel data is exactly `width * height * 4` bytes.
pub fn texture_is_intact(t: &TextureAsset) -> (r: bool)
    ensures
        r == tex_ok(*t),
{
    let w = t.width as u128;
    let h = t.height as u128;
    assert(w * h <= 0xffff_ffff * 0xffff_ffff) by (nonlinear_arith)
        requires
            w <= 0xffff_ffff,
            h <= 0xffff_ffff,
    ;
    let want: u128 = w * h * 4;
    t.rgba.len() as u128 == want
}

/// What the compiler does with one object, before a slot is assigned.
pub enum Step {
    Skip,
    Drop(DropReason),
    Draw(DrawEntry),
}

pub open spec fn step_view(s: Step) -> Outcome {
    match s {
        Step::Skip => Outcome::Skip,
        Step::Drop(e) => Outcome::Drop(e),
        Step::Draw(d) => Outcome::Draw(entry_view(d)),
    }
}

/// The quad of object `i` (see `quad`).
fn make_quad(o: &SceneObject, i: usize, t: &crate::graph::Transform, x: usize) -> (r: Step)
    ensures
        step_view(r) == quad(i as int, *o, t@, x as int),
        r matches Step::Draw(d) ==> d.slot == 0,
{
    let size = field_or2(&o.size, Vec2 { x: Dec::zero(), y: Dec::zero() });
    let w = match size.x.mul(&t.scale.x) {
        Some(w) => w,
        None => {
            return Step::Drop(DropReason::Overflow);
        },
    };
    let h = match size.y.mul(&t.scale.y) {
        Some(h) => h,
        None => {
            return Step::Drop(DropReason::Overflow);
        },
    };
    let z = match t.origin.z.sub(&Dec::one()) {
        Some(z) => z,
        None => {
            return Step::Drop(DropReason::Overflow);
        },
    };
    let hw = match w.half() {
        Some(v) => v,
        None => {
            return Step::Drop(DropReason::Overflow);
        },
    };
    let hh = match h.half() {
        Some(v) => v,
        None => {
            return Step::Drop(DropReason::Overflow);
        },
    };
    Step::Draw(
        DrawEntry {
            object: i,
            texture: x,
            origin: Vec3 { x: t.origin.x, y: t.origin.y, z },
            half_width: hw,
            half_height: hh,
            angle: t.angles.z,
            alpha: o.alpha.resolve(Dec::one()),
            slot: 0,
        },
    )
}

/// What the compiler does with object `i` (see `outcome`).
pub fn load_texture(objs: &Vec<SceneObject>, a: &Assets, i: usize) -> (r: Step)
    requires
        i < objs@.len(),
    ensures
        step_view(r) == outcome(objs@, *a, i as int),
        r matches Step::Draw(d) ==> d.slot == 0,
{
    let o = &objs[i];
    let img = match &o.image {
        None => {
            return Step::Skip;
        },
        Some(img) => img,
    };
    if !o.visible.resolve() {
        return Step::Drop(DropReason::Hidden);
    }
    let t = match resolve_placement(objs, i) {
        Ok(t) => t,
        Err(e) => {
            return Step::Drop(e);
        },
    };
    let x = match bind_image(a, img) {
        Ok(x) => x,
        Err(e) => {
            return Step::Drop(e);
        },
    };
    if !texture_is_intact(&a.textures[x]) {
        return Step::Drop(DropReason::Corrupt);
    }
    make_quad(o, i, &t, x)
}

/// Compiles the scene: every texture-bearing object, in scene order, is
/// either drawn in the next slot or reported with why it was left out.
/// More draws than `MAX_TEXTURE` is an error that reports their number.
pub fn compile(objs: &Vec<SceneObject>, a: &Assets) -> (r: Result<DrawPlan, CompileError>)
    ensures
        match r {
            Ok(p) => drawn(objs@, *a, objs@.len() as int).len() <= MAX_TEXTURE && plan_matches(
                p,
                objs@,
                *a,
            ),
            Err(CompileError::Capacity { survivors }) => survivors == drawn(
                objs@,
                *a,
                objs@.len() as int,
            ).len() && survivors > MAX_TEXTURE,
        },
{
    let mut entries: Vec<DrawEntry> = Vec::new();
    let mut diagnostics: Vec<Diagnostic> = Vec::new();
    let mut i: usize = 0;
    while i < objs.len()
        invariant
            i <= objs@.len(),
            entries@.len() == drawn(objs@, *a, i as int).len(),
            entries@.len() <= i,
            forall|k: int|
                0 <= k < entries@.len() ==> entry_view(#[trigger] entries@[k]) == drawn(
                    objs@,
                    *a,
                    i as int,
                )[k],
            diagnostics@.len() == dropped(objs@, *a, i as int).len(),
            forall|k: int|
                0 <= k < diagnostics@.len() ==> ((#[trigger] diagnostics@[k]).object_id,
                diagnostics@[k].reason) == dropped(objs@, *a, i as int)[k],
        decreases objs.len() - i,
    {
        let step = load_texture(objs, a, i);
        match step {
            Step::Skip => {},
            Step::Drop(e) => {
                diagnostics.push(Diagnostic { object_id: objs[i].id, reason: e });
            },
            Step::Draw(d) => {
                entries.push(d);
            },
        }
        i = i + 1;
    }
    let count = entries.len();
    if count > MAX_TEXTURE {
        return Err(CompileError::Capacity { survivors: count });
    }
    let mut slotted: Vec<DrawEntry> = Vec::new();
    let mut k: usize = 0;
    while k < count
        invariant
            k <= count <= MAX_TEXTURE,
            count == entries@.len(),
            slotted@.len() == k,
            forall|m: int|
                0 <= m < k ==> entry_view(#[trigger] slotted@[m]) == entry_view(entries@[m])
                    && slotted@[m].slot == m,
        decreases count - k,
    {
        let mut d = entries[k];
        d.slot = k as u32;
        slotted.push(d);
        k = k + 1;
    }
    let entries = slotted;
    let mut indices: Vec<u16> = Vec::new();
    let mut k: usize = 0;
    while k < count
        invariant
            k <= count <= MAX_TEXTURE,
            indices@.len() == 6 * k,
            forall|m: int, j: int|
                0 <= m < k && 0 <= j < 6 ==> #[trigger] indices@[6 * m + j] == 4 * m + quad_index(
                    j,
                ),
        decreases count - k,
    {
        let base = (4 * k) as u16;
        let ghost before = indices@;
        indices.push(base);
        indices.push(base + 2);
        indices.push(base + 1);
        indices.push(base);
        indices.push(base + 3);
        indices.push(base + 2);
        proof {
            assert forall|m: int, j: int|
                0 <= m < k + 1 && 0 <= j < 6 implies #[trigger] indices@[6 * m + j] == 4 * m
                + quad_index(j) by {
                if m < k {
                    assert(indices@[6 * m + j] == before[6 * m + j]);
                }
            }
        }
        k = k + 1;
    }
    Ok(DrawPlan { entries, indices, diagnostics })
}

/// Every draw among the first `n` objects is what the compiler makes of
/// the object it names, and that object is among the first `n`.
proof fn lemma_drawn_sources(objs: Seq<SceneObject>, a: Assets, n: int)
    ensures
        forall|k: int|
            0 <= k < drawn(objs, a, n).len() ==> 0 <= (#[trigger] drawn(objs, a, n)[k]).object < n
                && outcome(objs, a, drawn(objs, a, n)[k].object) == Outcome::Draw(
                drawn(objs, a, n)[k],
            ),
    decreases n,
{
    if n > 0 {
        lemma_drawn_sources(objs, a, n - 1);
        let before = drawn(objs, a, n - 1);
        assert forall|k: int| 0 <= k < drawn(objs, a, n).len() implies 0 <= (
        #[trigger] drawn(objs, a, n)[k]).object < n && outcome(
            objs,
            a,
            drawn(objs, a, n)[k].object,
        ) == Outcome::Draw(drawn(objs, a, n)[k]) by {
            if k < before.len() {
                assert(drawn(objs, a, n)[k] == before[k]);
            } else {
                lemma_quad_object(objs, a, n - 1);
            }
        }
    }
}

/// A draw made of object `i` names `i`.
proof fn lemma_quad_object(objs: Seq<SceneObject>, a: Assets, i: int)
    ensures
        outcome(objs, a, i) matches Outcome::Draw(e) ==> e.object == i,
{
}

/// A draw made of object `i < n` is among the draws of the first `n` objects.
proof fn lemma_draw_listed(objs: Seq<SceneObject>, a: Assets, n: int, i: int)
    requires
        0 <= i < n,
        outcome(objs, a, i) is Draw,
    ensures
        exists|k: int| 0 <= k < drawn(objs, a, n).len() && #[trigger] drawn(objs, a, n)[k] == outcome(objs, a, i)->Draw_0,
    decreases n,
{
    if i < n - 1 {
        lemma_draw_listed(objs, a, n - 1, i);
        let k = choose|k: int| 0 <= k < drawn(objs, a, n - 1).len() && #[trigger] drawn(objs, a, n - 1)[k] == outcome(objs, a, i)->Draw_0;
        assert(drawn(objs, a, n)[k] == drawn(objs, a, n - 1)[k]);
    } else {
        let k = drawn(objs, a, n - 1).len() as int;
        assert(drawn(objs, a, n)[k] == outcome(objs, a, i)->Draw_0);
    }
}

/// A drop of object `i < n` is among the drops of the first `n` objects.
proof fn lemma_drop_listed(objs: Seq<SceneObject>, a: Assets, n: int, i: int, e: DropReason)
    requires
        0 <= i < n,
        outcome(objs, a, i) == Outcome::Drop(e),
    ensures
        exists|k: int| 0 <= k < dropped(objs, a, n).len() && #[trigger] dropped(objs, a, n)[k] == (objs[i].id, e),
    decreases n,
{
    if i < n - 1 {
        lemma_drop_listed(objs, a, n - 1, i, e);
        let k = choose|k: int| 0 <= k < dropped(objs, a, n - 1).len() && #[trigger] dropped(objs, a, n - 1)[k] == (objs[i].id, e);
        assert(dropped(objs, a, n)[k] == dropped(objs, a, n - 1)[k]);
    } else {
        let k = dropped(objs, a, n - 1).len() as int;
        assert(dropped(objs, a, n)[k] == (objs[i].id, e));
    }
}

/// An object whose parent is hidden, or whose parent's own chain of
/// ancestors holds a hidden one, is absent from the plan, whatever its own
/// visibility.
pub proof fn lemma_hidden_ancestor_absent(objs: Seq<SceneObject>, a: Assets, c: int, p: int)
    requires
        0 <= c < objs.len(),
        objs[c].parent matches Some(pid) && find_id(objs, pid) == Some(p),
        !visible_spec(objs[p].visible) || walk(objs, p, local_xf(objs[p]), (objs.len() - 1) as nat)
            == Placement::Hidden,
    ensures
        forall|k: int|
            0 <= k < drawn(objs, a, objs.len() as int).len() ==> (#[trigger] drawn(
                objs,
                a,
                objs.len() as int,
            )[k]).object != c,
{
    if visible_spec(objs[p].visible) {
        lemma_through_parent(objs, c, p);
    }
    assert(placement(objs, c) == Placement::Hidden);
    lemma_drawn_sources(objs, a, objs.len() as int);
}

/// A texture whose pixel data is `width * height * 4` bytes is drawn for
/// every object that reaches it (unless the quad's numbers overflow); one
/// whose data is not is never drawn, and the object is reported as corrupt.
pub proof fn lemma_texture_integrity(objs: Seq<SceneObject>, a: Assets, i: int)
    requires
        0 <= i < objs.len(),
        objs[i].image is Some,
        visible_spec(objs[i].visible),
        placement(objs, i) is Placed,
        placement_fits(objs, i),
        bind_texture(a, objs[i].image->Some_0@) is Ok,
    ensures
        ({
            let x = bind_texture(a, objs[i].image->Some_0@)->Ok_0;
            let d = drawn(objs, a, objs.len() as int);
            &&& tex_ok(a.textures@[x]) && quad(i, objs[i], placement(objs, i)->Placed_0, x) is Draw
                ==> exists|k: int| 0 <= k < d.len() && (#[trigger] d[k]).object == i && d[k].texture == x
            &&& !tex_ok(a.textures@[x]) ==> (forall|k: int| 0 <= k < d.len() ==> (#[trigger] d[k]).object != i)
                && exists|k: int|
                0 <= k < dropped(objs, a, objs.len() as int).len() && #[trigger] dropped(objs, a, objs.len() as int)[k] == (
                objs[i].id,
                DropReason::Corrupt,
            )
        }),
{
    let x = bind_texture(a, objs[i].image->Some_0@)->Ok_0;
    let n = objs.len() as int;
    lemma_drawn_sources(objs, a, n);
    if tex_ok(a.textures@[x]) {
        if quad(i, objs[i], placement(objs, i)->Placed_0, x) is Draw {
            lemma_draw_listed(objs, a, n, i);
        }
    } else {
        lemma_drop_listed(objs, a, n, i, DropReason::Corrupt);
    }
}

/// Two plans compiled from the same scene and assets agree: the same draws
/// in the same order and slots, the same indices and the same diagnostics.
pub proof fn lemma_plan_deterministic(first: DrawPlan, second: DrawPlan, objs: Seq<SceneObject>, a: Assets)
    requires
        plan_matches(first, objs, a),
        plan_matches(second, objs, a),
    ensures
        first.entries@.len() == second.entries@.len(),
        forall|k: int|
            0 <= k < first.entries@.len() ==> entry_view(#[trigger] first.entries@[k]) == entry_view(
                second.entries@[k],
            ) && first.entries@[k].slot == second.entries@[k].slot,
        first.indices@ == second.indices@,
        first.diagnostics@ == second.diagnostics@,
{
    let d = drawn(objs, a, objs.len() as int);
    assert forall|x: int| 0 <= x < first.indices@.len() implies first.indices@[x] == second.indices@[x] by {
        let k = x / 6;
        let j = x % 6;
        assert(x == 6 * k + j);
        assert(first.indices@[6 * k + j] == 4 * k + quad_index(j));
        assert(second.indices@[6 * k + j] == 4 * k + quad_index(j));
    }
    assert(first.indices@ =~= second.indices@);
    assert forall|k: int| 0 <= k < first.diagnostics@.len() implies first.diagnostics@[k] == second.diagnostics@[k] by {
        assert((first.diagnostics@[k].object_id, first.diagnostics@[k].reason) == (second.diagnostics@[k].object_id, second.diagnostics@[k].reason));
    }
    assert(first.diagnostics@ =~= second.diagnostics@);
}

} // verus!
