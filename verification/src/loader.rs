//! Decisions taken while a model is turned into a scene: which art meshes get
//! a mesh, which material each mesh uses, which clipping masks are made and
//! which meshes each mask serves, and what a mesh update touches.

use vstd::prelude::*;

use crate::text::{decimal, lemma_decimal, push_char, push_decimal, str_concat};

verus! {

// ---------------------------------------------------------------------------
// Meshes and materials.
// ---------------------------------------------------------------------------

/// Fewest vertices an art mesh needs to form a triangle.
pub const MIN_MESH_VERTICES: i32 = 3;

/// Whether an art mesh with `vertex_count` vertices gets a mesh.
pub fn builds_mesh(vertex_count: i32) -> (b: bool)
    ensures
        b == (vertex_count >= 3),
{
    vertex_count >= MIN_MESH_VERTICES
}

/// How an art mesh blends with what is under it.
#[derive(PartialEq, Eq, Structural, Clone, Copy, Debug)]
pub enum MeshBlend {
    Normal,
    Add,
    Multiply,
}

/// The slot of the mask material in the model's list of materials.
pub const MASK_MATERIAL_SLOT: usize = 3;

/// The slot, in the model's list of materials, of the material for `blend`:
/// mix, add and multiply come first, in that order, then the mask material.
pub fn material_slot(blend: MeshBlend) -> (slot: usize)
    ensures
        slot == (match blend {
            MeshBlend::Normal => 0usize,
            MeshBlend::Add => 1usize,
            MeshBlend::Multiply => 2usize,
        }),
        slot < MASK_MATERIAL_SLOT,
{
    match blend {
        MeshBlend::Normal => 0,
        MeshBlend::Add => 1,
        MeshBlend::Multiply => 2,
    }
}

/// What a mesh update touches.
#[derive(PartialEq, Eq, Structural, Clone, Copy, Debug)]
pub enum MeshUpdate {
    /// Too few vertices: the mesh is hidden and nothing else is done.
    Hide,
    /// Visibility, opacity and colors are updated; the vertices are not.
    Appearance,
    /// Visibility, opacity and colors, and the vertices and bounds too.
    Full,
}

/// What updating a mesh with `vertex_count` vertices touches: a mesh that can
/// not form a triangle is hidden; otherwise its vertices are uploaded when
/// forced, or when they changed and the mesh is visible.
pub fn mesh_update(vertex_count: usize, force: bool, updated: bool, visible: bool) -> (u: MeshUpdate)
    ensures
        u == (if vertex_count < 3 {
            MeshUpdate::Hide
        } else if !force && (!updated || !visible) {
            MeshUpdate::Appearance
        } else {
            MeshUpdate::Full
        }),
{
    if vertex_count < 3 {
        MeshUpdate::Hide
    } else if !force && (!updated || !visible) {
        MeshUpdate::Appearance
    } else {
        MeshUpdate::Full
    }
}

/// The scene path of the mesh node `name`, relative to the model.
pub fn mesh_node_path(name: &str) -> (path: String)
    ensures
        path@ == "Meshes/"@ + name@,
{
    str_concat("Meshes/", name)
}

// ---------------------------------------------------------------------------
// Clipping masks.
// ---------------------------------------------------------------------------

/// The name of the mask made of the art meshes `clips`: their uids in
/// decimal, joined by underscores.
pub open spec fn mask_name(clips: Seq<u32>) -> Seq<char>
    decreases clips.len(),
{
    if clips.len() == 0 {
        Seq::empty()
    } else if clips.len() == 1 {
        decimal(clips[0] as nat)
    } else {
        mask_name(clips.drop_last()) + seq!['_'] + decimal(clips.last() as nat)
    }
}

/// The name of the mask made of the art meshes `clips`.
pub fn mask_name_of(clips: &Vec<u32>) -> (name: String)
    ensures
        name@ == mask_name(clips@),
{
    let mut name = String::new();
    let n = clips.len();
    let mut i: usize = 0;
    while i < n
        invariant
            n == clips@.len(),
            i <= n,
            name@ == mask_name(clips@.take(i as int)),
        decreases n - i,
    {
        if i > 0 {
            push_char(&mut name, '_');
        }
        push_decimal(&mut name, clips[i]);
        proof {
            let t = clips@.take(i + 1);
            assert(t.drop_last() =~= clips@.take(i as int));
            assert(t.last() == clips@[i as int]);
            if i == 0 {
                assert(t.len() == 1);
                assert(name@ =~= mask_name(t));
            } else {
                assert(name@ =~= mask_name(t));
            }
        }
        i = i + 1;
    }
    assert(clips@.take(n as int) =~= clips@);
    name
}

/// A non-empty mask name ends with the decimal of its last uid, preceded by
/// an underscore unless that is all of it.
proof fn lemma_mask_name_shape(c: Seq<u32>)
    requires
        c.len() >= 1,
    ensures
        ({
            let s = mask_name(c);
            let d = decimal(c.last() as nat);
            &&& s.len() >= d.len()
            &&& s.skip(s.len() - d.len()) == d
            &&& c.len() == 1 ==> s == d
            &&& c.len() > 1 ==> s.len() > d.len() && s[s.len() - d.len() - 1] == '_'
                && s.take(s.len() - d.len() - 1) == mask_name(c.drop_last())
        }),
{
    let s = mask_name(c);
    let d = decimal(c.last() as nat);
    if c.len() == 1 {
        assert(c.last() == c[0]);
        assert(s.skip(0) =~= s);
    } else {
        let p = mask_name(c.drop_last());
        assert(s == p + seq!['_'] + d);
        assert(s.skip(s.len() - d.len()) =~= d);
        assert(s.take(s.len() - d.len() - 1) =~= p);
    }
}

/// Law: mask names identify masks: two clip lists have the same mask name
/// only when they are the same list.
pub proof fn law_mask_name_injective(a: Seq<u32>, b: Seq<u32>)
    requires
        mask_name(a) == mask_name(b),
    ensures
        a == b,
    decreases a.len() + b.len(),
{
    let s = mask_name(a);
    if a.len() == 0 || b.len() == 0 {
        if a.len() != 0 {
            lemma_mask_name_shape(a);
            lemma_decimal(a.last() as nat, 0);
        }
        if b.len() != 0 {
            lemma_mask_name_shape(b);
            lemma_decimal(b.last() as nat, 0);
        }
        assert(a =~= b);
    } else {
        lemma_mask_name_shape(a);
        lemma_mask_name_shape(b);
        let d = decimal(a.last() as nat);
        let e = decimal(b.last() as nat);
        lemma_decimal(a.last() as nat, b.last() as nat);
        lemma_decimal(b.last() as nat, a.last() as nat);
        // Both decimals are underscore-free suffixes of s that are preceded
        // by an underscore or by nothing, so they have the same length.
        if d.len() < e.len() {
            if a.len() == 1 {
                assert(false);
            } else {
                let i = s.len() - d.len() - 1;
                assert(s.skip(s.len() - e.len())[i - (s.len() - e.len())] == s[i]);
                assert(false);
            }
        }
        if e.len() < d.len() {
            if b.len() == 1 {
                assert(false);
            } else {
                let i = s.len() - e.len() - 1;
                assert(s.skip(s.len() - d.len())[i - (s.len() - d.len())] == s[i]);
                assert(false);
            }
        }
        assert(d == e);
        assert(a.last() == b.last());
        if a.len() == 1 && b.len() > 1 {
            assert(false);
        }
        if b.len() == 1 && a.len() > 1 {
            assert(false);
        }
        if a.len() == 1 {
            assert(a =~= b);
        } else {
            law_mask_name_injective(a.drop_last(), b.drop_last());
            assert(a =~= a.drop_last().push(a.last()));
            assert(b =~= b.drop_last().push(b.last()));
        }
    }
}


/// An art mesh and the art meshes that clip it, by uid.
pub struct ArtMeshClips {
    pub uid: u32,
    pub clips: Vec<u32>,
}

/// A mask to make: its name, the art meshes drawn into it, and the art meshes
/// it clips, in the order they were met.
pub struct MaskPlan {
    pub name: String,
    pub parts: Vec<u32>,
    pub dependents: Vec<u32>,
}

/// Why masks cannot be planned.
#[derive(PartialEq, Eq, Structural, Clone, Copy, Debug)]
pub enum MaskError {
    /// An art mesh that a mask needs, as a part or as a mesh to clip, has no
    /// mesh.
    MissingMesh(u32),
}

/// The view of the art meshes: uid and clip list of each.
pub open spec fn clips_view(v: Seq<ArtMeshClips>) -> Seq<(u32, Seq<u32>)> {
    v.map_values(|a: ArtMeshClips| (a.uid, a.clips@))
}

/// The view of a plan: name, parts and dependents of each mask.
pub open spec fn plans_view(v: Seq<MaskPlan>) -> Seq<(Seq<char>, Seq<u32>, Seq<u32>)> {
    v.map_values(|m: MaskPlan| (m.name@, m.parts@, m.dependents@))
}

/// Index of the last mask named `name`.
pub open spec fn find_mask(plans: Seq<(Seq<char>, Seq<u32>, Seq<u32>)>, name: Seq<char>) -> Option<int>
    decreases plans.len(),
{
    if plans.len() == 0 {
        None
    } else if plans.last().0 == name {
        Some(plans.len() - 1)
    } else {
        find_mask(plans.drop_last(), name)
    }
}

/// The first of `clips` that has no mesh.
pub open spec fn first_missing(clips: Seq<u32>, built: Seq<u32>) -> Option<u32>
    decreases clips.len(),
{
    if clips.len() == 0 {
        None
    } else if !built.contains(clips[0]) {
        Some(clips[0])
    } else {
        first_missing(clips.skip(1), built)
    }
}

/// The plan after meeting the art mesh `uid` clipped by `clips`: unclipped
/// meshes change nothing; a clip list met for the first time makes a new mask
/// once all its parts and the clipped mesh have meshes; a clip list met
/// before adds the clipped mesh to its mask.
pub open spec fn plan_step(
    plans: Seq<(Seq<char>, Seq<u32>, Seq<u32>)>,
    uid: u32,
    clips: Seq<u32>,
    built: Seq<u32>,
) -> Result<Seq<(Seq<char>, Seq<u32>, Seq<u32>)>, MaskError> {
    if clips.len() == 0 {
        Ok(plans)
    } else {
        let name = mask_name(clips);
        match find_mask(plans, name) {
            None => match first_missing(clips, built) {
                Some(m) => Err(MaskError::MissingMesh(m)),
                None => if !built.contains(uid) {
                    Err(MaskError::MissingMesh(uid))
                } else {
                    Ok(plans.push((name, clips, seq![uid])))
                },
            },
            Some(k) => if !built.contains(uid) {
                Err(MaskError::MissingMesh(uid))
            } else {
                Ok(plans.update(k, (plans[k].0, plans[k].1, plans[k].2.push(uid))))
            },
        }
    }
}

/// The masks planned for the art meshes `meshes`, met in order.
pub open spec fn plan_spec(meshes: Seq<(u32, Seq<u32>)>, built: Seq<u32>) -> Result<
    Seq<(Seq<char>, Seq<u32>, Seq<u32>)>,
    MaskError,
>
    decreases meshes.len(),
{
    if meshes.len() == 0 {
        Ok(Seq::empty())
    } else {
        match plan_spec(meshes.drop_last(), built) {
            Err(e) => Err(e),
            Ok(p) => plan_step(p, meshes.last().0, meshes.last().1, built),
        }
    }
}

/// Once planning fails on a prefix of the meshes, it fails the same way on
/// all of them.
proof fn lemma_plan_error_stays(meshes: Seq<(u32, Seq<u32>)>, built: Seq<u32>, j: int)
    requires
        0 <= j <= meshes.len(),
        plan_spec(meshes.take(j), built) is Err,
    ensures
        plan_spec(meshes, built) == plan_spec(meshes.take(j), built),
    decreases meshes.len() - j,
{
    if j == meshes.len() {
        assert(meshes.take(j) =~= meshes);
    } else {
        assert(meshes.take(j + 1).drop_last() =~= meshes.take(j));
        lemma_plan_error_stays(meshes, built, j + 1);
    }
}

fn contains_uid(v: &Vec<u32>, x: u32) -> (b: bool)
    ensures
        b == v@.contains(x),
{
    let n = v.len();
    let mut i: usize = 0;
    while i < n
        invariant
            n == v@.len(),
            i <= n,
            forall|j: int| 0 <= j < i ==> v@[j] != x,
        decreases n - i,
    {
        if v[i] == x {
            assert(v@[i as int] == x);
            return true;
        }
        i = i + 1;
    }
    false
}

fn first_missing_of(clips: &Vec<u32>, built: &Vec<u32>) -> (r: Option<u32>)
    ensures
        r == first_missing(clips@, built@),
{
    let n = clips.len();
    let mut i: usize = 0;
    assert(clips@.skip(0) =~= clips@);
    while i < n
        invariant
            n == clips@.len(),
            i <= n,
            first_missing(clips@, built@) == first_missing(clips@.skip(i as int), built@),
        decreases n - i,
    {
        let c = clips[i];
        assert(clips@.skip(i as int)[0] == c);
        if !contains_uid(built, c) {
            return Some(c);
        }
        assert(clips@.skip(i as int).skip(1) =~= clips@.skip(i + 1));
        i = i + 1;
    }
    assert(clips@.skip(n as int).len() == 0);
    None
}

fn find_plan(plans: &Vec<MaskPlan>, name: &String) -> (r: Option<usize>)
    ensures
        r matches Some(k) ==> k < plans@.len() && find_mask(plans_view(plans@), name@) == Some(k as int),
        r is None ==> find_mask(plans_view(plans@), name@) is None,
{
    let ghost pv = plans_view(plans@);
    let mut i: usize = plans.len();
    assert(pv.take(i as int) =~= pv);
    while i > 0
        invariant
            pv == plans_view(plans@),
            i <= plans@.len(),
            find_mask(pv, name@) == find_mask(pv.take(i as int), name@),
        decreases i,
    {
        let k = i - 1;
        assert(pv.take(i as int).last() == pv[k as int]);
        assert(pv.take(i as int).drop_last() =~= pv.take(k as int));
        if plans[k].name.eq(name) {
            return Some(k);
        }
        i = k;
    }
    None
}

/// The masks to make for the art meshes `meshes`, in the model's order, given
/// the uids of the art meshes that have a mesh: one mask per distinct clip
/// list, in order of first use, each with the meshes it clips. Fails on the
/// first art mesh a mask needs that has no mesh.
pub fn plan_masks(meshes: &Vec<ArtMeshClips>, built: &Vec<u32>) -> (r: Result<Vec<MaskPlan>, MaskError>)
    ensures
        match r {
            Ok(plans) => plan_spec(clips_view(meshes@), built@) == Ok::<
                Seq<(Seq<char>, Seq<u32>, Seq<u32>)>,
                MaskError,
            >(plans_view(plans@)),
            Err(e) => plan_spec(clips_view(meshes@), built@) == Err::<
                Seq<(Seq<char>, Seq<u32>, Seq<u32>)>,
                MaskError,
            >(e),
        },
{
    let ghost mv = clips_view(meshes@);
    let mut plans: Vec<MaskPlan> = Vec::new();
    let n = meshes.len();
    let mut i: usize = 0;
    assert(plans_view(plans@) =~= Seq::<(Seq<char>, Seq<u32>, Seq<u32>)>::empty());
    while i < n
        invariant
            n == meshes@.len(),
            mv == clips_view(meshes@),
            i <= n,
            plan_spec(mv.take(i as int), built@) == Ok::<
                Seq<(Seq<char>, Seq<u32>, Seq<u32>)>,
                MaskError,
            >(plans_view(plans@)),
        decreases n - i,
    {
        let am = &meshes[i];
        proof {
            assert(mv.take(i + 1).drop_last() =~= mv.take(i as int));
            assert(mv.take(i + 1).last() == (am.uid, am.clips@));
        }
        let ghost before = plans_view(plans@);
        if am.clips.len() > 0 {
            let name = mask_name_of(&am.clips);
            match find_plan(&plans, &name) {
                None => {
                    match first_missing_of(&am.clips, built) {
                        Some(m) => {
                            proof {
                                lemma_plan_error_stays(mv, built@, i + 1);
                            }
                            return Err(MaskError::MissingMesh(m));
                        }
                        None => {}
                    }
                    if !contains_uid(built, am.uid) {
                        proof {
                            lemma_plan_error_stays(mv, built@, i + 1);
                        }
                        return Err(MaskError::MissingMesh(am.uid));
                    }
                    let parts = am.clips.clone();
                    assert(parts@ =~= am.clips@);
                    let mut dependents: Vec<u32> = Vec::new();
                    dependents.push(am.uid);
                    plans.push(MaskPlan { name, parts, dependents });
                    assert(plans_view(plans@) =~= before.push((mask_name(am.clips@), am.clips@, seq![am.uid])));
                }
                Some(k) => {
                    if !contains_uid(built, am.uid) {
                        proof {
                            lemma_plan_error_stays(mv, built@, i + 1);
                        }
                        return Err(MaskError::MissingMesh(am.uid));
                    }
                    let mut p = plans.remove(k);
                    p.dependents.push(am.uid);
                    plans.insert(k, p);
                    assert(plans_view(plans@) =~= before.update(
                        k as int,
                        (before[k as int].0, before[k as int].1, before[k as int].2.push(am.uid)),
                    ));
                }
            }
        }
        i = i + 1;
    }
    assert(mv.take(n as int) =~= mv);
    Ok(plans)
}


/// What `find_mask` finds.
proof fn lemma_find_mask(plans: Seq<(Seq<char>, Seq<u32>, Seq<u32>)>, name: Seq<char>)
    ensures
        find_mask(plans, name) matches Some(k) ==> 0 <= k < plans.len() && plans[k].0 == name,
        find_mask(plans, name) is None ==> forall|k: int| 0 <= k < plans.len() ==> plans[k].0 != name,
    decreases plans.len(),
{
    if plans.len() > 0 {
        let t = plans.drop_last();
        lemma_find_mask(t, name);
        if plans.last().0 != name {
            assert forall|k: int| 0 <= k < t.len() implies plans[k] == t[k] by {}
        }
    }
}

/// A plan fits the art meshes met so far: each mask is named after its
/// parts, which are never empty; no two masks have the same parts; every
/// clipped art mesh is clipped by the mask of its clip list; and every mesh a
/// mask clips is an art mesh with that clip list.
pub open spec fn plan_fits(plans: Seq<(Seq<char>, Seq<u32>, Seq<u32>)>, meshes: Seq<(u32, Seq<u32>)>) -> bool {
    &&& forall|k: int| 0 <= k < plans.len() ==> (#[trigger] plans[k]).0 == mask_name(plans[k].1) && plans[k].1.len() > 0
    &&& forall|k: int, l: int| 0 <= k < plans.len() && 0 <= l < plans.len() && k != l ==> (#[trigger] plans[k]).1 != (#[trigger] plans[l]).1
    &&& forall|i: int| 0 <= i < meshes.len() && (#[trigger] meshes[i]).1.len() > 0 ==> exists|k: int|
        0 <= k < plans.len() && (#[trigger] plans[k]).1 == meshes[i].1 && plans[k].2.contains(meshes[i].0)
    &&& forall|k: int, d: u32| 0 <= k < plans.len() && #[trigger] plans[k].2.contains(d) ==> exists|i: int|
        0 <= i < meshes.len() && #[trigger] meshes[i] == (d, plans[k].1)
}

/// Law: a successful plan makes one mask per distinct non-empty clip list,
/// named after it; every clipped art mesh is served by the mask of its clip
/// list, and a mask serves only art meshes with its clip list.
pub proof fn law_masks_shared(meshes: Seq<(u32, Seq<u32>)>, built: Seq<u32>)
    requires
        plan_spec(meshes, built) is Ok,
    ensures
        plan_fits(plan_spec(meshes, built).unwrap(), meshes),
    decreases meshes.len(),
{
    if meshes.len() > 0 {
        let t = meshes.drop_last();
        law_masks_shared(t, built);
        let p = plan_spec(t, built).unwrap();
        let uid = meshes.last().0;
        let clips = meshes.last().1;
        let q = plan_spec(meshes, built).unwrap();
        assert forall|i: int| 0 <= i < t.len() implies meshes[i] == t[i] by {}
        assert(meshes[meshes.len() - 1] == (uid, clips));
        if clips.len() == 0 {
            assert(q == p);
            assert forall|i: int| 0 <= i < meshes.len() && (#[trigger] meshes[i]).1.len() > 0 implies exists|k: int|
                0 <= k < q.len() && (#[trigger] q[k]).1 == meshes[i].1 && q[k].2.contains(meshes[i].0) by {
                assert(i < t.len());
                assert(t[i] == meshes[i]);
            }
            assert forall|k: int, d: u32| 0 <= k < q.len() && #[trigger] q[k].2.contains(d) implies exists|i: int|
                0 <= i < meshes.len() && #[trigger] meshes[i] == (d, q[k].1) by {
                let i = choose|i: int| 0 <= i < t.len() && #[trigger] t[i] == (d, p[k].1);
                assert(meshes[i] == t[i]);
            }
        } else {
            let name = mask_name(clips);
            lemma_find_mask(p, name);
            match find_mask(p, name) {
                None => {
                    assert(q == p.push((name, clips, seq![uid])));
                    assert forall|k: int| 0 <= k < p.len() implies (#[trigger] p[k]).1 != clips by {
                        if p[k].1 == clips {
                            assert(p[k].0 == name);
                        }
                    }
                    assert forall|k: int| 0 <= k < q.len() implies (#[trigger] q[k]).0 == mask_name(q[k].1) && q[k].1.len() > 0 by {
                        if k < p.len() {
                            assert(q[k] == p[k]);
                        }
                    }
                    assert forall|k: int, l: int| 0 <= k < q.len() && 0 <= l < q.len() && k != l implies (#[trigger] q[k]).1 != (#[trigger] q[l]).1 by {
                        if k < p.len() {
                            assert(q[k] == p[k]);
                        }
                        if l < p.len() {
                            assert(q[l] == p[l]);
                        }
                    }
                    assert forall|i: int| 0 <= i < meshes.len() && (#[trigger] meshes[i]).1.len() > 0 implies exists|k: int|
                        0 <= k < q.len() && (#[trigger] q[k]).1 == meshes[i].1 && q[k].2.contains(meshes[i].0) by {
                        if i < t.len() {
                            assert(t[i] == meshes[i]);
                            let k = choose|k: int| 0 <= k < p.len() && (#[trigger] p[k]).1 == t[i].1 && p[k].2.contains(t[i].0);
                            assert(q[k] == p[k]);
                        } else {
                            let k = p.len() as int;
                            assert(q[k].2 == seq![uid]);
                            assert(q[k].2[0] == uid);
                        }
                    }
                    assert forall|k: int, d: u32| 0 <= k < q.len() && #[trigger] q[k].2.contains(d) implies exists|i: int|
                        0 <= i < meshes.len() && #[trigger] meshes[i] == (d, q[k].1) by {
                        if k < p.len() {
                            assert(q[k] == p[k]);
                            let i = choose|i: int| 0 <= i < t.len() && #[trigger] t[i] == (d, p[k].1);
                            assert(meshes[i] == t[i]);
                        } else {
                            let j = choose|j: int| 0 <= j < q[k].2.len() && q[k].2[j] == d;
                            assert(seq![uid][j] == uid);
                            assert(meshes[meshes.len() - 1] == (d, q[k].1));
                        }
                    }
                }
                Some(m) => {
                    law_mask_name_injective(p[m].1, clips);
                    assert(q == p.update(m, (p[m].0, p[m].1, p[m].2.push(uid))));
                    assert forall|k: int| 0 <= k < q.len() implies (#[trigger] q[k]).0 == mask_name(q[k].1) && q[k].1.len() > 0 by {
                        assert(p[k].0 == mask_name(p[k].1));
                    }
                    assert forall|k: int, l: int| 0 <= k < q.len() && 0 <= l < q.len() && k != l implies (#[trigger] q[k]).1 != (#[trigger] q[l]).1 by {
                        assert(p[k].1 != p[l].1);
                    }
                    assert forall|i: int| 0 <= i < meshes.len() && (#[trigger] meshes[i]).1.len() > 0 implies exists|k: int|
                        0 <= k < q.len() && (#[trigger] q[k]).1 == meshes[i].1 && q[k].2.contains(meshes[i].0) by {
                        if i < t.len() {
                            assert(t[i] == meshes[i]);
                            let k = choose|k: int| 0 <= k < p.len() && (#[trigger] p[k]).1 == t[i].1 && p[k].2.contains(t[i].0);
                            if k == m {
                                let j = choose|j: int| 0 <= j < p[k].2.len() && p[k].2[j] == t[i].0;
                                assert(q[k].2[j] == t[i].0);
                            }
                            assert(q[k].2.contains(meshes[i].0));
                        } else {
                            assert(q[m].2[p[m].2.len() as int] == uid);
                            assert(q[m].2.contains(uid));
                        }
                    }
                    assert forall|k: int, d: u32| 0 <= k < q.len() && #[trigger] q[k].2.contains(d) implies exists|i: int|
                        0 <= i < meshes.len() && #[trigger] meshes[i] == (d, q[k].1) by {
                        if k != m {
                            assert(q[k] == p[k]);
                            let i = choose|i: int| 0 <= i < t.len() && #[trigger] t[i] == (d, p[k].1);
                            assert(meshes[i] == t[i]);
                        } else {
                            let j = choose|j: int| 0 <= j < q[k].2.len() && q[k].2[j] == d;
                            if j < p[m].2.len() {
                                assert(p[m].2[j] == d);
                                assert(p[m].2.contains(d));
                                let i = choose|i: int| 0 <= i < t.len() && #[trigger] t[i] == (d, p[m].1);
                                assert(meshes[i] == t[i]);
                            } else {
                                assert(meshes[meshes.len() - 1] == (d, q[k].1));
                            }
                        }
                    }
                }
            }
        }
    }
}

/// Every clipped art mesh, and every art mesh that clips it, has a mesh.
pub open spec fn clips_built(meshes: Seq<(u32, Seq<u32>)>, built: Seq<u32>) -> bool {
    forall|i: int| 0 <= i < meshes.len() && (#[trigger] meshes[i]).1.len() > 0 ==> built.contains(meshes[i].0)
        && forall|j: int| 0 <= j < meshes[i].1.len() ==> built.contains(#[trigger] meshes[i].1[j])
}

proof fn lemma_first_missing(clips: Seq<u32>, built: Seq<u32>)
    ensures
        first_missing(clips, built) matches Some(m) ==> !built.contains(m) && clips.contains(m),
        (forall|j: int| 0 <= j < clips.len() ==> built.contains(#[trigger] clips[j])) ==> first_missing(clips, built) is None,
    decreases clips.len(),
{
    if clips.len() > 0 {
        let t = clips.skip(1);
        lemma_first_missing(t, built);
        if let Some(m) = first_missing(t, built) {
            let k = choose|k: int| 0 <= k < t.len() && t[k] == m;
            assert(clips[k + 1] == m);
        }
        if forall|j: int| 0 <= j < clips.len() ==> built.contains(#[trigger] clips[j]) {
            assert(built.contains(clips[0]));
            assert forall|j: int| 0 <= j < t.len() implies built.contains(#[trigger] t[j]) by {
                assert(t[j] == clips[j + 1]);
            }
        }
    }
}

/// Law: planning succeeds whenever every clipped art mesh and every art mesh
/// that clips one has a mesh.
pub proof fn law_masks_complete(meshes: Seq<(u32, Seq<u32>)>, built: Seq<u32>)
    requires
        clips_built(meshes, built),
    ensures
        plan_spec(meshes, built) is Ok,
    decreases meshes.len(),
{
    if meshes.len() > 0 {
        let t = meshes.drop_last();
        assert forall|i: int| 0 <= i < t.len() && (#[trigger] t[i]).1.len() > 0 implies built.contains(t[i].0)
            && forall|j: int| 0 <= j < t[i].1.len() ==> built.contains(#[trigger] t[i].1[j]) by {
            assert(t[i] == meshes[i]);
        }
        law_masks_complete(t, built);
        let l = meshes[meshes.len() - 1];
        assert(l == meshes.last());
        if l.1.len() > 0 {
            assert(built.contains(l.0));
            lemma_first_missing(l.1, built);
        }
    }
}

/// Law: when planning fails, the art mesh it reports has no mesh and is one
/// that a mask needs: a clipped art mesh or one of its clips.
pub proof fn law_masks_error(meshes: Seq<(u32, Seq<u32>)>, built: Seq<u32>, u: u32)
    requires
        plan_spec(meshes, built) == Err::<Seq<(Seq<char>, Seq<u32>, Seq<u32>)>, MaskError>(MaskError::MissingMesh(u)),
    ensures
        !built.contains(u),
        exists|i: int| 0 <= i < meshes.len() && (#[trigger] meshes[i]).1.len() > 0
            && (meshes[i].0 == u || meshes[i].1.contains(u)),
    decreases meshes.len(),
{
    let t = meshes.drop_last();
    let l = meshes[meshes.len() - 1];
    assert(l == meshes.last());
    match plan_spec(t, built) {
        Err(e) => {
            law_masks_error(t, built, u);
            let i = choose|i: int| 0 <= i < t.len() && (#[trigger] t[i]).1.len() > 0
                && (t[i].0 == u || t[i].1.contains(u));
            assert(meshes[i] == t[i]);
        }
        Ok(p) => {
            lemma_first_missing(l.1, built);
            assert(meshes[meshes.len() - 1].1.len() > 0);
        }
    }
}

/// Whether an art mesh is clipped by exactly `parts`.
pub open spec fn clipped_exactly_by(parts: Seq<u32>) -> spec_fn((u32, Seq<u32>)) -> bool {
    |m: (u32, Seq<u32>)| m.1 == parts
}

/// The uid of an art mesh.
pub open spec fn mesh_uid(m: (u32, Seq<u32>)) -> u32 {
    m.0
}

/// The uids of the art meshes clipped by exactly `parts`, in order.
pub open spec fn clipped_by(meshes: Seq<(u32, Seq<u32>)>, parts: Seq<u32>) -> Seq<u32> {
    meshes.filter(clipped_exactly_by(parts)).map_values(|m: (u32, Seq<u32>)| mesh_uid(m))
}

/// Law: each mask serves exactly the art meshes whose clip list is its parts,
/// in the model's order.
pub proof fn law_mask_dependents(meshes: Seq<(u32, Seq<u32>)>, built: Seq<u32>, k: int)
    requires
        plan_spec(meshes, built) is Ok,
        0 <= k < plan_spec(meshes, built).unwrap().len(),
    ensures
        plan_spec(meshes, built).unwrap()[k].2 == clipped_by(meshes, plan_spec(meshes, built).unwrap()[k].1),
    decreases meshes.len(),
{
    reveal_with_fuel(Seq::<_>::filter, 1);
    let t = meshes.drop_last();
    let l = meshes.last();
    let q = plan_spec(meshes, built).unwrap();
    let p = plan_spec(t, built).unwrap();
    law_masks_shared(t, built);
    law_masks_shared(meshes, built);
    let parts = q[k].1;
    let pred = clipped_exactly_by(parts);
    let ft = t.filter(pred);
    assert(meshes.filter(pred) == if pred(l) { ft.push(l) } else { ft });
    assert(parts.len() > 0);
    if l.1.len() == 0 {
        assert(q == p);
        assert(!pred(l));
        law_mask_dependents(t, built, k);
    } else {
        let name = mask_name(l.1);
        lemma_find_mask(p, name);
        match find_mask(p, name) {
            None => {
                if k < p.len() {
                    assert(q[k] == p[k]);
                    law_mask_dependents(t, built, k);
                    if p[k].1 == l.1 {
                        assert(p[k].0 == mask_name(p[k].1));
                    }
                    assert(!pred(l));
                } else {
                    assert(q[k] == (name, l.1, seq![l.0]));
                    assert(pred(l));
                    assert(ft.len() == 0) by {
                        if ft.len() > 0 {
                            let x = ft[0];
                            assert(ft.contains(x));
                            lemma_filter_member(t, pred, x);
                            let i = choose|i: int| 0 <= i < t.len() && t[i] == x;
                            assert(t[i].1 == l.1);
                            assert(t[i].1.len() > 0);
                            let kk = choose|kk: int| 0 <= kk < p.len() && (#[trigger] p[kk]).1 == t[i].1 && p[kk].2.contains(t[i].0);
                            assert(p[kk].0 == mask_name(p[kk].1));
                        }
                    }
                    assert(ft.push(l).map_values(|m: (u32, Seq<u32>)| mesh_uid(m)) =~= seq![l.0]);
                }
            }
            Some(m) => {
                law_mask_name_injective(p[m].1, l.1);
                assert(q[k].1 == p[k].1);
                law_mask_dependents(t, built, k);
                if k == m {
                    assert(pred(l));
                    assert(q[k].2 == p[k].2.push(l.0));
                    assert(ft.push(l).map_values(|m: (u32, Seq<u32>)| mesh_uid(m))
                        =~= ft.map_values(|m: (u32, Seq<u32>)| mesh_uid(m)).push(l.0));
                } else {
                    assert(q[k] == p[k]);
                    assert(p[k].1 != p[m].1);
                    assert(!pred(l));
                }
            }
        }
    }
}

proof fn lemma_filter_member(s: Seq<(u32, Seq<u32>)>, pred: spec_fn((u32, Seq<u32>)) -> bool, x: (u32, Seq<u32>))
    requires
        s.filter(pred).contains(x),
    ensures
        s.contains(x),
        pred(x),
    decreases s.len(),
{
    reveal_with_fuel(Seq::<_>::filter, 1);
    if s.len() > 0 {
        let t = s.drop_last();
        if t.filter(pred).contains(x) {
            lemma_filter_member(t, pred, x);
            let i = choose|i: int| 0 <= i < t.len() && t[i] == x;
            assert(s[i] == x);
        } else {
            let f = s.filter(pred);
            let i = choose|i: int| 0 <= i < f.len() && f[i] == x;
            if pred(s.last()) {
                assert(f == t.filter(pred).push(s.last()));
                if i < t.filter(pred).len() {
                    assert(t.filter(pred).contains(x));
                }
            }
            assert(s[s.len() - 1] == x);
        }
    }
}

proof fn lemma_plans_nonempty(meshes: Seq<(u32, Seq<u32>)>, built: Seq<u32>)
    requires
        plan_spec(meshes, built) is Ok,
    ensures
        forall|k: int| 0 <= k < plan_spec(meshes, built).unwrap().len()
            ==> (#[trigger] plan_spec(meshes, built).unwrap()[k]).2.len() > 0,
    decreases meshes.len(),
{
    if meshes.len() > 0 {
        let t = meshes.drop_last();
        lemma_plans_nonempty(t, built);
        let p = plan_spec(t, built).unwrap();
        let q = plan_spec(meshes, built).unwrap();
        let l = meshes.last();
        if l.1.len() > 0 {
            let name = mask_name(l.1);
            match find_mask(p, name) {
                None => {
                    assert forall|k: int| 0 <= k < q.len() implies (#[trigger] q[k]).2.len() > 0 by {
                        if k < p.len() {
                            assert(q[k] == p[k]);
                        }
                    }
                }
                Some(m) => {
                    lemma_find_mask(p, name);
                    assert(q == p.update(m, (p[m].0, p[m].1, p[m].2.push(l.0))));
                    assert forall|k: int| 0 <= k < q.len() implies (#[trigger] q[k]).2.len() > 0 by {
                        if k != m {
                            assert(q[k] == p[k]);
                        }
                    }
                }
            }
        }
    }
}

/// Law: masks come in the order their clip lists are first used: of two
/// masks, the earlier one clips an art mesh that comes before every art mesh
/// clipped by the later one.
pub proof fn law_masks_first_use_order(meshes: Seq<(u32, Seq<u32>)>, built: Seq<u32>, k: int, l: int)
    requires
        plan_spec(meshes, built) is Ok,
        0 <= k < l < plan_spec(meshes, built).unwrap().len(),
    ensures
        exists|i: int| 0 <= i < meshes.len() && meshes[i].1 == plan_spec(meshes, built).unwrap()[k].1
            && forall|j: int| 0 <= j <= i ==> meshes[j].1 != plan_spec(meshes, built).unwrap()[l].1,
    decreases meshes.len(),
{
    let t = meshes.drop_last();
    let p = plan_spec(t, built).unwrap();
    let q = plan_spec(meshes, built).unwrap();
    let last = meshes.last();
    assert forall|j: int| 0 <= j < t.len() implies meshes[j] == t[j] by {}
    let grows = last.1.len() > 0 && find_mask(p, mask_name(last.1)) is None;
    lemma_find_mask(p, mask_name(last.1));
    if !grows || l < p.len() {
        // the plans of the shorter list keep their parts and order
        assert(q.len() == p.len() || q.len() == p.len() + 1);
        assert(l < p.len());
        assert(q[k].1 == p[k].1 && q[l].1 == p[l].1);
        law_masks_first_use_order(t, built, k, l);
        let i = choose|i: int| 0 <= i < t.len() && t[i].1 == p[k].1
            && forall|j: int| 0 <= j <= i ==> t[j].1 != p[l].1;
        assert(meshes[i] == t[i]);
        assert forall|j: int| 0 <= j <= i implies meshes[j].1 != q[l].1 by {
            assert(meshes[j] == t[j]);
        }
    } else {
        // the later mask is new: its clip list is used nowhere before
        assert(l == p.len());
        assert(q[l].1 == last.1);
        assert(q[k] == p[k]);
        law_masks_shared(t, built);
        lemma_plans_nonempty(t, built);
        assert(p[k].2.len() > 0);
        let d = p[k].2[0];
        assert(p[k].2.contains(d));
        let i = choose|i: int| 0 <= i < t.len() && #[trigger] t[i] == (d, p[k].1);
        assert(meshes[i] == t[i]);
        assert forall|j: int| 0 <= j <= i implies meshes[j].1 != q[l].1 by {
            assert(meshes[j] == t[j]);
            if t[j].1 == last.1 {
                assert(t[j].1.len() > 0);
                let kk = choose|kk: int| 0 <= kk < p.len() && (#[trigger] p[kk]).1 == t[j].1 && p[kk].2.contains(t[j].0);
                assert(p[kk].0 == mask_name(p[kk].1));
            }
        }
    }
}

/// Law: the mask name of one art mesh is its uid in decimal, and the mask
/// name of two clip lists one after the other is their names joined by an
/// underscore.
pub proof fn law_mask_name_joins(a: Seq<u32>, b: Seq<u32>, x: u32)
    requires
        a.len() > 0,
        b.len() > 0,
    ensures
        mask_name(seq![x]) == decimal(x as nat),
        mask_name(a + b) == mask_name(a) + seq!['_'] + mask_name(b),
    decreases b.len(),
{
    assert(seq![x][0] == x);
    let ab = a + b;
    assert(ab.drop_last() =~= a + b.drop_last());
    assert(ab.last() == b.last());
    if b.len() == 1 {
        assert(b.drop_last() =~= Seq::<u32>::empty());
        assert(a + b.drop_last() =~= a);
        assert(b[0] == b.last());
    } else {
        law_mask_name_joins(a, b.drop_last(), x);
        assert(mask_name(a) + seq!['_'] + mask_name(b.drop_last()) + seq!['_'] + decimal(b.last() as nat)
            =~= mask_name(a) + seq!['_'] + (mask_name(b.drop_last()) + seq!['_'] + decimal(b.last() as nat)));
    }
}

} // verus!
