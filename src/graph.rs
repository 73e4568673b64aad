//! The scene graph: objects, their local transforms, and the cumulative
//! transform of an object through its chain of parents.
use crate::num::{lemma_q_add_assoc, lemma_q_distrib, lemma_q_mul_assoc, q_add, q_fits, q_mul, Q};
use crate::vector::{field_vec3, q3_splat, vec3_splat, field_or3, Amount, Q3, Vec3, Vectors, Visibility, visible_spec};
use vstd::prelude::*;

verus! {

/// One object of a scene description, with the fields the compiler reads.
/// Its place in the object list is its paint order.
#[derive(Clone, Debug)]
pub struct SceneObject {
    pub id: i64,
    pub parent: Option<i64>,
    pub image: Option<String>,
    pub sound: Vec<String>,
    pub playback_mode: Option<String>,
    pub volume: Amount,
    pub alpha: Amount,
    pub origin: Option<Vectors>,
    pub angles: Option<Vectors>,
    pub scale: Option<Vectors>,
    pub size: Option<Vectors>,
    pub visible: Visibility,
}

/// What an object carries.
#[derive(Clone, Copy, Debug, PartialEq, Eq, Structural)]
pub enum NodeKind {
    /// An image reference: drawn.
    Texture,
    /// Sounds and no image: played.
    Audio,
    /// Neither: only a transform for its children.
    Transform,
}

pub open spec fn kind_spec(o: SceneObject) -> NodeKind {
    if o.image is Some {
        NodeKind::Texture
    } else if o.sound@.len() > 0 {
        NodeKind::Audio
    } else {
        NodeKind::Transform
    }
}

/// Classifies an object by what it carries.
pub fn classify(o: &SceneObject) -> (r: NodeKind)
    ensures
        r == kind_spec(*o),
{
    if o.image.is_some() {
        NodeKind::Texture
    } else if o.sound.len() > 0 {
        NodeKind::Audio
    } else {
        NodeKind::Transform
    }
}

/// An exact transform: position, rotation angles and scale.
pub struct Xf {
    pub origin: Q3,
    pub angles: Q3,
    pub scale: Q3,
}

/// A transform of three vectors.
#[derive(Clone, Copy, Debug)]
pub struct Transform {
    pub origin: Vec3,
    pub angles: Vec3,
    pub scale: Vec3,
}

impl View for Transform {
    type V = Xf;

    open spec fn view(&self) -> Xf {
        Xf { origin: self.origin@, angles: self.angles@, scale: self.scale@ }
    }
}

pub open spec fn q3_add(a: Q3, b: Q3) -> Q3 {
    Q3 { x: q_add(a.x, b.x), y: q_add(a.y, b.y), z: q_add(a.z, b.z) }
}

pub open spec fn q3_mul(a: Q3, b: Q3) -> Q3 {
    Q3 { x: q_mul(a.x, b.x), y: q_mul(a.y, b.y), z: q_mul(a.z, b.z) }
}

pub open spec fn q3_fits(a: Q3) -> bool {
    q_fits(a.x) && q_fits(a.y) && q_fits(a.z)
}

/// Places the child transform `c` inside its parent's `p`:
/// `origin = p.origin + c.origin * p.scale`, `angles = c.angles + p.angles`,
/// `scale = c.scale * p.scale`.
pub open spec fn compose(p: Xf, c: Xf) -> Xf {
    Xf {
        origin: q3_add(p.origin, q3_mul(c.origin, p.scale)),
        angles: q3_add(c.angles, p.angles),
        scale: q3_mul(c.scale, p.scale),
    }
}

/// Whether every number `compose(p, c)` computes fits a `Dec`.
pub open spec fn compose_fits(p: Xf, c: Xf) -> bool {
    let m = q3_mul(c.origin, p.scale);
    q3_fits(m) && q3_fits(q3_add(p.origin, m)) && q3_fits(q3_add(c.angles, p.angles)) && q3_fits(
        q3_mul(c.scale, p.scale),
    )
}

/// An object's own transform: origin and angles default to zero, scale to one.
pub open spec fn local_xf(o: SceneObject) -> Xf {
    Xf {
        origin: field_vec3(o.origin, q3_splat(0)),
        angles: field_vec3(o.angles, q3_splat(0)),
        scale: field_vec3(o.scale, q3_splat(1)),
    }
}

/// The first index from `i` on whose object has id `id`.
pub open spec fn find_from(objs: Seq<SceneObject>, id: i64, i: int) -> Option<int>
    decreases objs.len() - i,
{
    if i < 0 || i >= objs.len() {
        None
    } else if objs[i].id == id {
        Some(i)
    } else {
        find_from(objs, id, i + 1)
    }
}

/// The index of the object with id `id`.
pub open spec fn find_id(objs: Seq<SceneObject>, id: i64) -> Option<int> {
    find_from(objs, id, 0)
}

/// Where an object ends up after its chain of parents.
pub enum Placement {
    /// Placed with this cumulative transform.
    Placed(Xf),
    /// An ancestor is hidden.
    Hidden,
    /// The parent chain runs into a cycle.
    Cycle,
}

/// Walks up from object `j`, whose cumulative transform so far is `t`,
/// composing each ancestor's transform around it. The walk stops at an
/// object without parent or whose parent id names no object; a hidden
/// ancestor hides the whole branch; after `fuel` steps the chain is taken
/// to be a cycle.
pub open spec fn walk(objs: Seq<SceneObject>, j: int, t: Xf, fuel: nat) -> Placement
    decreases fuel,
{
    match objs[j].parent {
        None => Placement::Placed(t),
        Some(pid) => match find_id(objs, pid) {
            None => Placement::Placed(t),
            Some(k) => if !visible_spec(objs[k].visible) {
                Placement::Hidden
            } else if fuel == 0 {
                Placement::Cycle
            } else {
                walk(objs, k, compose(local_xf(objs[k]), t), (fuel - 1) as nat)
            },
        },
    }
}

/// Whether every number the walk computes fits a `Dec`.
pub open spec fn walk_fits(objs: Seq<SceneObject>, j: int, t: Xf, fuel: nat) -> bool
    decreases fuel,
{
    match objs[j].parent {
        None => true,
        Some(pid) => match find_id(objs, pid) {
            None => true,
            Some(k) => if !visible_spec(objs[k].visible) || fuel == 0 {
                true
            } else {
                compose_fits(local_xf(objs[k]), t) && walk_fits(
                    objs,
                    k,
                    compose(local_xf(objs[k]), t),
                    (fuel - 1) as nat,
                )
            },
        },
    }
}

/// The cumulative transform of object `i`. A chain of parents in a forest
/// of `n` objects has fewer than `n` steps, so `n` steps are allowed.
pub open spec fn placement(objs: Seq<SceneObject>, i: int) -> Placement {
    walk(objs, i, local_xf(objs[i]), objs.len())
}

pub open spec fn placement_fits(objs: Seq<SceneObject>, i: int) -> bool {
    walk_fits(objs, i, local_xf(objs[i]), objs.len())
}

/// Why an object is left out of the draw plan.
#[derive(Clone, Copy, Debug, PartialEq, Eq, Structural)]
pub enum DropReason {
    /// The object's own visibility is false.
    Hidden,
    /// An ancestor's visibility is false.
    HiddenAncestor,
    /// The parent chain is a cycle.
    Cycle,
    /// A computed number is too large or too precise to hold.
    Overflow,
    /// The image reference names no model document.
    MissingModel,
    /// The model document names no material.
    MissingMaterial,
    /// No decoded texture goes with the material.
    MissingTexture,
    /// The texture's pixel data does not match its dimensions.
    Corrupt,
}

fn add3(a: &Vec3, b: &Vec3) -> (r: Option<Vec3>)
    ensures
        r is Some <==> q3_fits(q3_add(a@, b@)),
        r matches Some(v) ==> v@ == q3_add(a@, b@),
{
    let x = a.x.add(&b.x)?;
    let y = a.y.add(&b.y)?;
    let z = a.z.add(&b.z)?;
    Some(Vec3 { x, y, z })
}

fn mul3(a: &Vec3, b: &Vec3) -> (r: Option<Vec3>)
    ensures
        r is Some <==> q3_fits(q3_mul(a@, b@)),
        r matches Some(v) ==> v@ == q3_mul(a@, b@),
{
    let x = a.x.mul(&b.x)?;
    let y = a.y.mul(&b.y)?;
    let z = a.z.mul(&b.z)?;
    Some(Vec3 { x, y, z })
}

/// `compose(p, c)`, where every number it computes fits.
pub fn compose_transforms(p: &Transform, c: &Transform) -> (r: Option<Transform>)
    ensures
        r is Some <==> compose_fits(p@, c@),
        r matches Some(x) ==> x@ == compose(p@, c@),
{
    let m = mul3(&c.origin, &p.scale)?;
    let origin = add3(&p.origin, &m)?;
    let angles = add3(&c.angles, &p.angles)?;
    let scale = mul3(&c.scale, &p.scale)?;
    Some(Transform { origin, angles, scale })
}

/// An object's own transform (see `local_xf`).
pub fn local_transform(o: &SceneObject) -> (r: Transform)
    ensures
        r@ == local_xf(*o),
{
    Transform {
        origin: field_or3(&o.origin, vec3_splat(0)),
        angles: field_or3(&o.angles, vec3_splat(0)),
        scale: field_or3(&o.scale, vec3_splat(1)),
    }
}

/// The index of the first object with id `id`.
pub fn find_object(objs: &Vec<SceneObject>, id: i64) -> (r: Option<usize>)
    ensures
        match r {
            Some(k) => find_id(objs@, id) == Some(k as int),
            None => find_id(objs@, id) is None,
        },
{
    let mut i: usize = 0;
    while i < objs.len()
        invariant
            i <= objs@.len(),
            find_id(objs@, id) == find_from(objs@, id, i as int),
        decreases objs.len() - i,
    {
        if objs[i].id == id {
            return Some(i);
        }
        i = i + 1;
    }
    None
}

proof fn lemma_find_in_range(objs: Seq<SceneObject>, id: i64, i: int)
    ensures
        find_from(objs, id, i) matches Some(k) ==> 0 <= k < objs.len() && objs[k].id == id,
    decreases objs.len() - i,
{
    if 0 <= i < objs.len() && objs[i].id != id {
        lemma_find_in_range(objs, id, i + 1);
    }
}

/// The cumulative transform of object `i` (see `placement`), or why it
/// cannot be drawn: a hidden ancestor, a cycle, or a number too large to
/// hold on the way.
pub fn resolve_placement(objs: &Vec<SceneObject>, i: usize) -> (r: Result<Transform, DropReason>)
    requires
        i < objs@.len(),
    ensures
        match placement(objs@, i as int) {
            Placement::Placed(t) => if placement_fits(objs@, i as int) {
                r matches Ok(x) && x@ == t
            } else {
                r == Err::<Transform, DropReason>(DropReason::Overflow)
            },
            Placement::Hidden => r == Err::<Transform, DropReason>(DropReason::HiddenAncestor),
            Placement::Cycle => r == Err::<Transform, DropReason>(DropReason::Cycle),
        },
{
    let n = objs.len();
    let mut t = local_transform(&objs[i]);
    let ghost mut tq = t@;
    let mut ok = true;
    let mut j: usize = i;
    let mut fuel: usize = n;
    loop
        invariant
            j < objs@.len(),
            n == objs@.len(),
            fuel <= n,
            ok ==> t@ == tq,
            placement(objs@, i as int) == walk(objs@, j as int, tq, fuel as nat),
            placement_fits(objs@, i as int) == (ok && walk_fits(objs@, j as int, tq, fuel as nat)),
        decreases fuel,
    {
        let pid = match objs[j].parent {
            None => {
                return if ok {
                    Ok(t)
                } else {
                    Err(DropReason::Overflow)
                };
            },
            Some(pid) => pid,
        };
        let k = match find_object(objs, pid) {
            None => {
                return if ok {
                    Ok(t)
                } else {
                    Err(DropReason::Overflow)
                };
            },
            Some(k) => k,
        };
        proof {
            lemma_find_in_range(objs@, pid, 0);
        }
        if !objs[k].visible.resolve() {
            return Err(DropReason::HiddenAncestor);
        }
        if fuel == 0 {
            return Err(DropReason::Cycle);
        }
        let l = local_transform(&objs[k]);
        if ok {
            match compose_transforms(&l, &t) {
                Some(x) => {
                    t = x;
                },
                None => {
                    ok = false;
                },
            }
        }
        proof {
            tq = compose(l@, tq);
        }
        j = k;
        fuel = fuel - 1;
    }
}

/// Composition of transforms is associative: a chain of transforms has one
/// cumulative transform, however its links are grouped.
pub proof fn lemma_compose_assoc(a: Xf, b: Xf, c: Xf)
    ensures
        compose(compose(a, b), c) == compose(a, compose(b, c)),
{
    lemma_q3_mul_assoc(c.scale, b.scale, a.scale);
    lemma_q3_mul_assoc(c.origin, b.scale, a.scale);
    lemma_q3_add_assoc(c.angles, b.angles, a.angles);
    lemma_q3_distrib(b.origin, q3_mul(c.origin, b.scale), a.scale);
    lemma_q3_add_assoc(a.origin, q3_mul(b.origin, a.scale), q3_mul(q3_mul(c.origin, b.scale), a.scale));
}

proof fn lemma_q3_add_assoc(a: Q3, b: Q3, c: Q3)
    ensures
        q3_add(q3_add(a, b), c) == q3_add(a, q3_add(b, c)),
{
    lemma_q_add_assoc(a.x, b.x, c.x);
    lemma_q_add_assoc(a.y, b.y, c.y);
    lemma_q_add_assoc(a.z, b.z, c.z);
}

proof fn lemma_q3_mul_assoc(a: Q3, b: Q3, c: Q3)
    ensures
        q3_mul(q3_mul(a, b), c) == q3_mul(a, q3_mul(b, c)),
{
    lemma_q_mul_assoc(a.x, b.x, c.x);
    lemma_q_mul_assoc(a.y, b.y, c.y);
    lemma_q_mul_assoc(a.z, b.z, c.z);
}

proof fn lemma_q3_distrib(a: Q3, b: Q3, c: Q3)
    ensures
        q3_mul(q3_add(a, b), c) == q3_add(q3_mul(a, c), q3_mul(b, c)),
{
    lemma_q_distrib(a.x, b.x, c.x);
    lemma_q_distrib(a.y, b.y, c.y);
    lemma_q_distrib(a.z, b.z, c.z);
}

/// `p` with `y` composed inside its transform, where it is placed.
pub open spec fn then_inner(p: Placement, y: Xf) -> Placement {
    match p {
        Placement::Placed(r) => Placement::Placed(compose(r, y)),
        Placement::Hidden => Placement::Hidden,
        Placement::Cycle => Placement::Cycle,
    }
}

/// Walking up with `compose(x, y)` is walking up with `x` and composing `y`
/// inside the result: the cumulative transform of a chain of any length
/// does not depend on where the chain is cut.
pub proof fn lemma_walk_regroup(objs: Seq<SceneObject>, j: int, x: Xf, y: Xf, fuel: nat)
    ensures
        walk(objs, j, compose(x, y), fuel) == then_inner(walk(objs, j, x, fuel), y),
    decreases fuel,
{
    match objs[j].parent {
        None => {},
        Some(pid) => match find_id(objs, pid) {
            None => {},
            Some(k) => {
                if visible_spec(objs[k].visible) && fuel > 0 {
                    let l = local_xf(objs[k]);
                    lemma_compose_assoc(l, x, y);
                    lemma_walk_regroup(objs, k, compose(l, x), y, (fuel - 1) as nat);
                }
            },
        },
    }
}

/// The cumulative transform of an object is the cumulative transform of its
/// parent composed with the object's own transform, at any depth; a hidden
/// or cyclic chain above the parent is hidden or cyclic for the object too.
pub proof fn lemma_through_parent(objs: Seq<SceneObject>, c: int, p: int)
    requires
        0 <= c < objs.len(),
        objs[c].parent matches Some(pid) && find_id(objs, pid) == Some(p),
        visible_spec(objs[p].visible),
    ensures
        placement(objs, c) == then_inner(
            walk(objs, p, local_xf(objs[p]), (objs.len() - 1) as nat),
            local_xf(objs[c]),
        ),
{
    lemma_walk_regroup(objs, p, local_xf(objs[p]), local_xf(objs[c]), (objs.len() - 1) as nat);
}

/// A child of a root parent `P`: its cumulative origin is
/// `P.origin + C.origin * P.scale`, its scale `C.scale * P.scale` and its
/// angles `C.angles + P.angles`.
pub proof fn lemma_parent_child(objs: Seq<SceneObject>, c: int, p: int)
    requires
        0 <= c < objs.len(),
        objs[c].parent matches Some(pid) && find_id(objs, pid) == Some(p),
        visible_spec(objs[p].visible),
        objs[p].parent is None,
    ensures
        placement(objs, c) == Placement::Placed(compose(local_xf(objs[p]), local_xf(objs[c]))),
        compose(local_xf(objs[p]), local_xf(objs[c])).origin == q3_add(
            local_xf(objs[p]).origin,
            q3_mul(local_xf(objs[c]).origin, local_xf(objs[p]).scale),
        ),
{
    let t = compose(local_xf(objs[p]), local_xf(objs[c]));
    assert(walk(objs, p, t, (objs.len() - 1) as nat) == Placement::Placed(t));
}

/// A hidden parent hides its children, whatever their own visibility.
pub proof fn lemma_hidden_parent(objs: Seq<SceneObject>, c: int, p: int)
    requires
        0 <= c < objs.len(),
        objs[c].parent matches Some(pid) && find_id(objs, pid) == Some(p),
        !visible_spec(objs[p].visible),
    ensures
        placement(objs, c) == Placement::Hidden,
{
}

/// A three-level chain `G -> P -> C` under a root `G`: the cumulative
/// transform of `C` is `G`, `P` and `C` composed, in either grouping.
pub proof fn lemma_three_levels(objs: Seq<SceneObject>, c: int, p: int, g: int)
    requires
        0 <= c < objs.len(),
        c != p && p != g && c != g,
        objs[c].parent matches Some(pid) && find_id(objs, pid) == Some(p),
        objs[p].parent matches Some(gid) && find_id(objs, gid) == Some(g),
        objs[g].parent is None,
        visible_spec(objs[p].visible),
        visible_spec(objs[g].visible),
    ensures
        placement(objs, c) == Placement::Placed(
            compose(compose(local_xf(objs[g]), local_xf(objs[p])), local_xf(objs[c])),
        ),
        placement(objs, c) == Placement::Placed(
            compose(local_xf(objs[g]), compose(local_xf(objs[p]), local_xf(objs[c]))),
        ),
{
    lemma_find_in_range(objs, objs[c].parent->Some_0, 0);
    lemma_find_in_range(objs, objs[p].parent->Some_0, 0);
    let n = objs.len();
    assert(n >= 3);
    let (lg, lp, lc) = (local_xf(objs[g]), local_xf(objs[p]), local_xf(objs[c]));
    let t1 = compose(lp, lc);
    let t2 = compose(lg, t1);
    assert(walk(objs, g, t2, (n - 2) as nat) == Placement::Placed(t2));
    assert(walk(objs, p, t1, (n - 1) as nat) == Placement::Placed(t2));
    lemma_compose_assoc(lg, lp, lc);
}

/// Whether `rank` orders the objects as a forest: every parent that an
/// object's parent id names has a lower rank than the object, and no rank
/// reaches the number of objects.
pub open spec fn is_forest_rank(objs: Seq<SceneObject>, rank: spec_fn(int) -> nat) -> bool {
    &&& forall|a: int| 0 <= a < objs.len() ==> #[trigger] rank(a) < objs.len()
    &&& forall|a: int, b: int|
        0 <= a < objs.len() && objs[a].parent is Some && find_id(objs, objs[a].parent->Some_0)
            == Some(b) ==> #[trigger] rank(b) < #[trigger] rank(a)
}

proof fn lemma_walk_no_cycle(objs: Seq<SceneObject>, rank: spec_fn(int) -> nat, j: int, t: Xf, fuel: nat)
    requires
        is_forest_rank(objs, rank),
        0 <= j < objs.len(),
        rank(j) <= fuel,
    ensures
        !(walk(objs, j, t, fuel) is Cycle),
    decreases fuel,
{
    match objs[j].parent {
        None => {},
        Some(pid) => {
            lemma_find_in_range(objs, pid, 0);
            match find_id(objs, pid) {
                None => {},
                Some(k) => {
                    assert(rank(k) < rank(j));
                    if visible_spec(objs[k].visible) && fuel > 0 {
                        lemma_walk_no_cycle(objs, rank, k, compose(local_xf(objs[k]), t), (fuel - 1) as nat);
                    }
                },
            }
        },
    }
}

/// A scene whose parent links form a forest never reaches the cycle
/// placement: every object is placed or hidden.
pub proof fn lemma_forest_no_cycle(objs: Seq<SceneObject>, rank: spec_fn(int) -> nat, i: int)
    requires
        is_forest_rank(objs, rank),
        0 <= i < objs.len(),
    ensures
        !(placement(objs, i) is Cycle),
{
    assert(rank(i) < objs.len());
    lemma_walk_no_cycle(objs, rank, i, local_xf(objs[i]), objs.len());
}

} // verus!
