//! The semantic layer of the codec: qualification turns a flat [`RawMotion`]
//! into a per-bone, named [`Motion`] using two externally supplied schemas,
//! and unqualification is the inverse. The schemas are plain data: an
//! ordered list of bone names indexed by the ids stored in the file, and a
//! skeleton listing each bone's name and kind. Bone names are kept as their
//! UTF-8 bytes, and the animation map is ordered by that byte sequence,
//! which is exactly how Rust orders the strings the names spell.

use vstd::prelude::*;

use crate::read::views_of;
use crate::{Bone, BoneAnim, BoneAnimView, FrameData, FrameDataView, Motion, MotionView, RawMotion,
    RawMotionView, Vec3, Vec3View};

verus! {

/// The seven bone kinds of the bone schema: each determines how many
/// three-track groups the bone's animation occupies and their roles.
#[derive(Clone, Copy, PartialEq, Eq, Debug)]
pub enum BoneKind {
    Rotation,
    Unk,
    Position,
    PositionRotation,
    RotationIk,
    ArmIk,
    LegIk,
}

/// One bone of the bone schema: its unique name and its kind.
#[derive(Clone, PartialEq, Eq, Debug)]
pub struct SchemaBone {
    pub name: Vec<u8>,
    pub kind: BoneKind,
}

/// One skeleton of the bone schema.
#[derive(Clone, PartialEq, Eq, Debug)]
pub struct Skeleton {
    pub bones: Vec<SchemaBone>,
}

/// The bone schema: only the first skeleton is consulted.
#[derive(Clone, PartialEq, Eq, Debug)]
pub struct BoneSchema {
    pub skeletons: Vec<Skeleton>,
}

/// The motion-set schema: bone names indexed by the ids stored in the file.
#[derive(Clone, PartialEq, Eq, Debug)]
pub struct MotionSetSchema {
    pub bones: Vec<Vec<u8>>,
}

/// Why qualification failed.
#[derive(Clone, Copy, PartialEq, Eq, PartialOrd, Ord, Debug)]
pub enum MotionQualifyError {
    /// The bone schema has no skeleton at all.
    NoSkeleton,
    /// The track queue was exhausted before a bone got its tracks.
    PopSet,
    /// A bone id is out of range of the motion-set schema.
    NotInMotDb(u16),
}

/// Why unqualification failed.
#[derive(Clone, PartialEq, Eq, PartialOrd, Ord, Debug)]
pub enum UnqualifyMotionError {
    /// A bone name is absent from the motion-set schema.
    NotInDatabase(Vec<u8>),
}

/// The view of a motion-set schema: the name bytes, in schema order.
pub open spec fn mot_db_view(db: &MotionSetSchema) -> Seq<Seq<u8>> {
    db.bones@.map_values(|b: Vec<u8>| b@)
}

/// The view of one skeleton: (name bytes, kind) pairs, in schema order.
pub open spec fn skeleton_view(s: Skeleton) -> Seq<(Seq<u8>, BoneKind)> {
    s.bones@.map_values(|b: SchemaBone| (b.name@, b.kind))
}

/// The view of a bone schema: its skeletons' views.
pub open spec fn bone_schema_view(db: &BoneSchema) -> Seq<Seq<(Seq<u8>, BoneKind)>> {
    db.skeletons@.map_values(|s: Skeleton| skeleton_view(s))
}

/// Strict lexicographic order on byte strings; this is exactly how Rust
/// orders strings and byte slices.
pub open spec fn lex_lt(a: Seq<u8>, b: Seq<u8>) -> bool
    decreases a.len(),
{
    if b.len() == 0 {
        false
    } else if a.len() == 0 {
        true
    } else if a[0] < b[0] {
        true
    } else if a[0] > b[0] {
        false
    } else {
        lex_lt(a.skip(1), b.skip(1))
    }
}

/// Of two byte strings, at most one order holds, and none between equals.
pub proof fn lemma_lex_lt_asymmetric(a: Seq<u8>, b: Seq<u8>)
    ensures
        lex_lt(a, b) ==> !lex_lt(b, a) && a != b,
    decreases a.len(),
{
    if a.len() > 0 && b.len() > 0 && a[0] == b[0] {
        lemma_lex_lt_asymmetric(a.skip(1), b.skip(1));
        if lex_lt(a, b) {
            assert(a != b) by {
                if a == b {
                    assert(a.skip(1) == b.skip(1));
                }
            }
        }
    }
}

/// Two byte strings that order neither way are equal.
pub proof fn lemma_lex_lt_total(a: Seq<u8>, b: Seq<u8>)
    ensures
        !lex_lt(a, b) && !lex_lt(b, a) ==> a == b,
    decreases a.len(),
{
    if !lex_lt(a, b) && !lex_lt(b, a) {
        if a.len() == 0 {
            assert(b.len() == 0);
            assert(a =~= b);
        } else {
            assert(b.len() > 0);
            assert(a[0] == b[0]);
            lemma_lex_lt_total(a.skip(1), b.skip(1));
            assert(a.skip(1) =~= b.skip(1));
            assert(a =~= seq![a[0]] + a.skip(1));
            assert(b =~= seq![b[0]] + b.skip(1));
        }
    }
}

/// Do the byte strings `a` and `b` hold the same bytes?
pub fn bytes_eq(a: &[u8], b: &[u8]) -> (r: bool)
    ensures
        r == (a@ == b@),
{
    if a.len() != b.len() {
        return false;
    }
    let mut i: usize = 0;
    while i < a.len()
        invariant
            i <= a@.len(),
            a@.len() == b@.len(),
            forall|t: int| 0 <= t < i ==> a@[t] == b@[t],
        decreases a@.len() - i,
    {
        if a[i] != b[i] {
            return false;
        }
        i = i + 1;
    }
    proof {
        assert(a@ =~= b@);
    }
    true
}

/// Does `a` order strictly before `b`, byte-lexicographically?
#[verifier::loop_isolation(false)]
pub fn bytes_lt(a: &[u8], b: &[u8]) -> (r: bool)
    ensures
        r == lex_lt(a@, b@),
{
    let n = if a.len() < b.len() {
        a.len()
    } else {
        b.len()
    };
    let mut i: usize = 0;
    while i < n
        invariant
            i <= n,
            forall|t: int| 0 <= t < i ==> a@[t] == b@[t],
        decreases n - i,
    {
        proof {
            lemma_lex_lt_common_prefix(a@, b@, i as int);
        }
        if a[i] < b[i] {
            return true;
        }
        if a[i] > b[i] {
            return false;
        }
        i = i + 1;
    }
    proof {
        lemma_lex_lt_common_prefix(a@, b@, n as int);
    }
    a.len() < b.len()
}

/// Comparing byte strings that agree on their first `i` bytes reduces to
/// comparing what follows.
pub proof fn lemma_lex_lt_common_prefix(a: Seq<u8>, b: Seq<u8>, i: int)
    requires
        0 <= i <= a.len(),
        i <= b.len(),
        forall|t: int| 0 <= t < i ==> a[t] == b[t],
    ensures
        lex_lt(a, b) == lex_lt(a.skip(i), b.skip(i)),
    decreases i,
{
    if i > 0 {
        assert(a.len() > 0 && b.len() > 0 && a[0] == b[0]);
        lemma_lex_lt_common_prefix(a.skip(1), b.skip(1), i - 1);
        assert(a.skip(1).skip(i - 1) =~= a.skip(i));
        assert(b.skip(1).skip(i - 1) =~= b.skip(i));
    } else {
        assert(a.skip(0) =~= a);
        assert(b.skip(0) =~= b);
    }
}

/// The name bytes of the global-center bone, "gblctr".
pub open spec fn gblctr_name() -> Seq<u8> {
    seq![103u8, 98u8, 108u8, 99u8, 116u8, 114u8]
}

/// The name bytes of the extra yaw bone, "kg_ya_ex".
pub open spec fn kg_ya_ex_name() -> Seq<u8> {
    seq![107u8, 103u8, 95u8, 121u8, 97u8, 95u8, 101u8, 120u8]
}

/// Is `name` exactly "gblctr"?
pub fn is_gblctr(name: &[u8]) -> (r: bool)
    ensures
        r == (name@ == gblctr_name()),
{
    let r = name.len() == 6 && name[0] == 103 && name[1] == 98 && name[2] == 108 && name[3] == 99
        && name[4] == 116 && name[5] == 114;
    proof {
        if r {
            assert(name@ =~= gblctr_name());
        }
    }
    r
}

/// Is `name` exactly "kg_ya_ex"?
pub fn is_kg_ya_ex(name: &[u8]) -> (r: bool)
    ensures
        r == (name@ == kg_ya_ex_name()),
{
    let r = name.len() == 8 && name[0] == 107 && name[1] == 103 && name[2] == 95 && name[3] == 121
        && name[4] == 97 && name[5] == 95 && name[6] == 101 && name[7] == 120;
    proof {
        if r {
            assert(name@ =~= kg_ya_ex_name());
        }
    }
    r
}

/// The kind of the first skeleton bone with the given name, if any.
pub open spec fn find_bone_kind(skel: Seq<(Seq<u8>, BoneKind)>, name: Seq<u8>) -> Option<BoneKind>
    decreases skel.len(),
{
    if skel.len() == 0 {
        None
    } else if skel[0].0 == name {
        Some(skel[0].1)
    } else {
        find_bone_kind(skel.skip(1), name)
    }
}

/// Searching past a prefix free of `name` searches the rest.
pub proof fn lemma_find_bone_kind_skip(skel: Seq<(Seq<u8>, BoneKind)>, name: Seq<u8>, p: int)
    requires
        0 <= p <= skel.len(),
        forall|t: int| 0 <= t < p ==> (#[trigger] skel[t]).0 != name,
    ensures
        find_bone_kind(skel, name) == find_bone_kind(skel.skip(p), name),
    decreases p,
{
    if p > 0 {
        lemma_find_bone_kind_skip(skel.skip(1), name, p - 1);
        assert(skel.skip(1).skip(p - 1) =~= skel.skip(p));
    } else {
        assert(skel.skip(0) =~= skel);
    }
}

/// How a name resolves to a kind: an exact schema match first, then the two
/// well-known fallbacks, else nothing (the bone becomes a `None` entry).
pub open spec fn resolve_kind(skel: Seq<(Seq<u8>, BoneKind)>, name: Seq<u8>) -> Option<BoneKind> {
    match find_bone_kind(skel, name) {
        Some(k) => Some(k),
        None => if name == gblctr_name() {
            Some(BoneKind::Position)
        } else if name == kg_ya_ex_name() {
            Some(BoneKind::Rotation)
        } else {
            None
        },
    }
}

/// Look a name up in a skeleton.
#[verifier::loop_isolation(false)]
pub fn find_kind(skel: &Skeleton, name: &[u8]) -> (r: Option<BoneKind>)
    ensures
        r == find_bone_kind(skeleton_view(*skel), name@),
{
    let ghost skelv = skeleton_view(*skel);
    let mut p: usize = 0;
    while p < skel.bones.len()
        invariant
            p <= skel.bones@.len(),
            forall|t: int| 0 <= t < p ==> (#[trigger] skelv[t]).0 != name@,
        decreases skel.bones@.len() - p,
    {
        if bytes_eq(name, skel.bones[p].name.as_slice()) {
            proof {
                lemma_find_bone_kind_skip(skelv, name@, p as int);
                assert(skelv.skip(p as int)[0] == skelv[p as int]);
            }
            return Some(skel.bones[p].kind);
        }
        p = p + 1;
    }
    proof {
        lemma_find_bone_kind_skip(skelv, name@, p as int);
        assert(skelv.skip(p as int).len() == 0);
    }
    Option::None
}

/// How many three-track groups a kind's animation occupies.
pub open spec fn group_count(k: BoneKind) -> int {
    match k {
        BoneKind::Rotation => 1,
        BoneKind::Unk => 2,
        BoneKind::Position => 1,
        BoneKind::PositionRotation => 2,
        BoneKind::RotationIk => 2,
        BoneKind::ArmIk => 2,
        BoneKind::LegIk => 2,
    }
}

/// One x/y/z group taken from the track queue at position `q`.
pub open spec fn vec3_of(sets: Seq<FrameDataView>, q: int) -> Vec3View {
    Vec3View { x: sets[q], y: sets[q + 1], z: sets[q + 2] }
}

/// The animation built for a kind from the track queue at position `q`.
pub open spec fn anim_of(k: BoneKind, sets: Seq<FrameDataView>, q: int) -> BoneAnimView {
    match k {
        BoneKind::Rotation => BoneAnimView::Rotation(vec3_of(sets, q)),
        BoneKind::Unk => BoneAnimView::Unk(vec3_of(sets, q), vec3_of(sets, q + 3)),
        BoneKind::Position => BoneAnimView::Position(vec3_of(sets, q)),
        BoneKind::PositionRotation => BoneAnimView::PositionRotation {
            position: vec3_of(sets, q),
            rotation: vec3_of(sets, q + 3),
        },
        BoneKind::RotationIk => BoneAnimView::RotationIk {
            target: vec3_of(sets, q),
            rotation: vec3_of(sets, q + 3),
        },
        BoneKind::ArmIk => BoneAnimView::ArmIk {
            target: vec3_of(sets, q),
            rotation: vec3_of(sets, q + 3),
        },
        BoneKind::LegIk => BoneAnimView::LegIk {
            target: vec3_of(sets, q),
            position: vec3_of(sets, q + 3),
        },
    }
}

/// Insert an entry into an association list ordered by name: entries whose
/// names order before the new name are kept in front of it, an entry with
/// the same name is overwritten in place.
pub open spec fn insert_anim(
    anims: Seq<(Seq<u8>, Option<BoneAnimView>)>,
    name: Seq<u8>,
    a: Option<BoneAnimView>,
) -> Seq<(Seq<u8>, Option<BoneAnimView>)>
    decreases anims.len(),
{
    if anims.len() == 0 {
        seq![(name, a)]
    } else if lex_lt(name, anims[0].0) {
        seq![(name, a)] + anims
    } else if name == anims[0].0 {
        seq![(name, a)] + anims.skip(1)
    } else {
        seq![anims[0]] + insert_anim(anims.skip(1), name, a)
    }
}

/// Where the scan of the ordered list stops, the insertion happens: before
/// index `p` every name orders before the new one, and at `p` (if any) it
/// does not.
pub proof fn lemma_insert_anim_scan(
    anims: Seq<(Seq<u8>, Option<BoneAnimView>)>,
    name: Seq<u8>,
    a: Option<BoneAnimView>,
    p: int,
)
    requires
        0 <= p <= anims.len(),
        forall|t: int| 0 <= t < p ==> lex_lt((#[trigger] anims[t]).0, name),
        p < anims.len() ==> !lex_lt(anims[p].0, name),
    ensures
        insert_anim(anims, name, a) == if p < anims.len() && anims[p].0 == name {
            anims.take(p) + seq![(name, a)] + anims.skip(p + 1)
        } else {
            anims.take(p) + seq![(name, a)] + anims.skip(p)
        },
    decreases p,
{
    if p == 0 {
        assert(anims.take(0) =~= Seq::<(Seq<u8>, Option<BoneAnimView>)>::empty());
        if anims.len() == 0 {
            assert(insert_anim(anims, name, a) =~= anims.take(0) + seq![(name, a)] + anims.skip(0));
        } else {
            lemma_lex_lt_total(name, anims[0].0);
            if anims[0].0 == name {
                assert(insert_anim(anims, name, a) == seq![(name, a)] + anims.skip(1));
                assert(seq![(name, a)] + anims.skip(1) =~= anims.take(0) + seq![(name, a)]
                    + anims.skip(1));
            } else {
                assert(lex_lt(name, anims[0].0));
                assert(insert_anim(anims, name, a) == seq![(name, a)] + anims);
                assert(anims.skip(0) =~= anims);
                assert(seq![(name, a)] + anims =~= anims.take(0) + seq![(name, a)] + anims.skip(0));
            }
        }
    } else {
        lemma_lex_lt_asymmetric(anims[0].0, name);
        assert(!lex_lt(name, anims[0].0) && name != anims[0].0);
        let rest = anims.skip(1);
        assert(forall|t: int| 0 <= t < p - 1 ==> (#[trigger] rest[t]).0 == anims[t + 1].0);
        lemma_insert_anim_scan(rest, name, a, p - 1);
        assert(insert_anim(anims, name, a) == seq![anims[0]] + insert_anim(rest, name, a));
        if p < anims.len() && anims[p].0 == name {
            assert(rest[p - 1].0 == name);
            assert(seq![anims[0]] + (rest.take(p - 1) + seq![(name, a)] + rest.skip(p))
                =~= anims.take(p) + seq![(name, a)] + anims.skip(p + 1));
        } else {
            assert(seq![anims[0]] + (rest.take(p - 1) + seq![(name, a)] + rest.skip(p - 1))
                =~= anims.take(p) + seq![(name, a)] + anims.skip(p));
        }
    }
}

/// The animation list is strictly ordered by name: adjacent entries grow.
pub open spec fn sorted_anims(anims: Seq<(Seq<u8>, Option<BoneAnimView>)>) -> bool {
    forall|i: int| 0 <= i && i + 1 < anims.len() ==> lex_lt(anims[i].0, (#[trigger] anims[i + 1]).0)
}

/// Insert an entry into the ordered animation list, keeping the order.
#[verifier::loop_isolation(false)]
pub fn insert_sorted(anims: &mut Vec<(Bone, Option<BoneAnim>)>, name: Vec<u8>, a: Option<BoneAnim>)
    requires
        sorted_anims(crate::anims_view(old(anims)@)),
    ensures
        crate::anims_view(final(anims)@) == insert_anim(
            crate::anims_view(old(anims)@),
            name@,
            crate::opt_anim_view(a),
        ),
        sorted_anims(crate::anims_view(final(anims)@)),
{
    let ghost av = crate::anims_view(anims@);
    let ghost namev = name@;
    let ghost ev = (namev, crate::opt_anim_view(a));
    let mut p: usize = 0;
    while p < anims.len() && bytes_lt(anims[p].0.0.as_slice(), name.as_slice())
        invariant
            p <= anims@.len(),
            forall|t: int| 0 <= t < p ==> lex_lt((#[trigger] av[t]).0, namev),
        decreases anims@.len() - p,
    {
        p = p + 1;
    }
    proof {
        lemma_insert_anim_scan(av, namev, crate::opt_anim_view(a), p as int);
    }
    if p < anims.len() && bytes_eq(anims[p].0.0.as_slice(), name.as_slice()) {
        anims.remove(p);
        anims.insert(p, (Bone(name), a));
        proof {
            assert(crate::anims_view(anims@) =~= av.take(p as int) + seq![ev] + av.skip(
                p as int + 1,
            ));
            lemma_sorted_after_insert(av, namev, crate::opt_anim_view(a), p as int, true);
        }
    } else {
        anims.insert(p, (Bone(name), a));
        proof {
            assert(crate::anims_view(anims@) =~= av.take(p as int) + seq![ev] + av.skip(p as int));
            lemma_sorted_after_insert(av, namev, crate::opt_anim_view(a), p as int, false);
        }
    }
}

/// Inserting at the scan position keeps the list strictly ordered.
proof fn lemma_sorted_after_insert(
    av: Seq<(Seq<u8>, Option<BoneAnimView>)>,
    name: Seq<u8>,
    a: Option<BoneAnimView>,
    p: int,
    replace: bool,
)
    requires
        sorted_anims(av),
        0 <= p <= av.len(),
        forall|t: int| 0 <= t < p ==> lex_lt((#[trigger] av[t]).0, name),
        p < av.len() ==> !lex_lt(av[p].0, name),
        replace ==> p < av.len() && av[p].0 == name,
        !replace && p < av.len() ==> av[p].0 != name,
    ensures
        replace ==> sorted_anims(av.take(p) + seq![(name, a)] + av.skip(p + 1)),
        !replace ==> sorted_anims(av.take(p) + seq![(name, a)] + av.skip(p)),
{
    if replace {
        let r = av.take(p) + seq![(name, a)] + av.skip(p + 1);
        assert forall|i: int| 0 <= i && i + 1 < r.len() implies lex_lt(
            r[i].0,
            (#[trigger] r[i + 1]).0,
        ) by {
            assert(r.len() == av.len());
            if i + 1 < p {
                assert(r[i] == av[i] && r[i + 1] == av[i + 1]);
            } else if i + 1 == p {
                assert(r[i] == av[i] && r[i + 1] == (name, a));
            } else if i == p {
                assert(r[i] == (name, a) && r[i + 1] == av[i + 1]);
            } else {
                assert(r[i] == av[i] && r[i + 1] == av[i + 1]);
            }
        }
    } else {
        let r = av.take(p) + seq![(name, a)] + av.skip(p);
        if p < av.len() {
            lemma_lex_lt_total(av[p].0, name);
            assert(lex_lt(name, av[p].0));
        }
        assert forall|i: int| 0 <= i && i + 1 < r.len() implies lex_lt(
            r[i].0,
            (#[trigger] r[i + 1]).0,
        ) by {
            assert(r.len() == av.len() + 1);
            if i + 1 < p {
                assert(r[i] == av[i] && r[i + 1] == av[i + 1]);
                assert(lex_lt(av[i].0, av[i + 1].0));
                assert(lex_lt(r[i].0, r[i + 1].0));
            } else if i + 1 == p {
                assert(r[i] == av[i] && r[i + 1] == (name, a));
                assert(lex_lt(av[i].0, name));
                assert(lex_lt(r[i].0, r[i + 1].0));
            } else if i == p {
                assert(r[i] == (name, a) && r[i + 1] == av[p]);
                assert(lex_lt(name, av[p].0));
                assert(lex_lt(r[i].0, r[i + 1].0));
            } else {
                assert(r[i] == av[i - 1] && r[i + 1] == av[i]);
                assert(lex_lt(av[i - 1].0, av[(i - 1) + 1].0));
                assert(lex_lt(r[i].0, r[i + 1].0));
            }
        }
    }
}

/// What qualification does from bone index `i` on, with `q` tracks already
/// consumed and `anims` already built: resolve the id to a name, the name to
/// a kind (an unresolved name yields a `None` entry and consumes nothing),
/// pop three tracks per group, and insert the animation under the name.
pub open spec fn spec_from_raw_rec(
    bones: Seq<u16>,
    i: int,
    q: int,
    anims: Seq<(Seq<u8>, Option<BoneAnimView>)>,
    sets: Seq<FrameDataView>,
    mdb: Seq<Seq<u8>>,
    skel: Seq<(Seq<u8>, BoneKind)>,
) -> Result<(Seq<(Seq<u8>, Option<BoneAnimView>)>, int), MotionQualifyError>
    decreases bones.len() - i,
{
    if i < 0 || i >= bones.len() {
        Ok((anims, q))
    } else {
        let id = bones[i];
        if id >= mdb.len() {
            Err(MotionQualifyError::NotInMotDb(id))
        } else {
            let name = mdb[id as int];
            match resolve_kind(skel, name) {
                None => spec_from_raw_rec(
                    bones,
                    i + 1,
                    q,
                    insert_anim(anims, name, None),
                    sets,
                    mdb,
                    skel,
                ),
                Some(k) => {
                    let need = 3 * group_count(k);
                    if q + need > sets.len() {
                        Err(MotionQualifyError::PopSet)
                    } else {
                        spec_from_raw_rec(
                            bones,
                            i + 1,
                            q + need,
                            insert_anim(anims, name, Some(anim_of(k, sets, q))),
                            sets,
                            mdb,
                            skel,
                        )
                    }
                },
            }
        }
    }
}

/// What [`Motion::from_raw`] returns: the per-bone animations qualified
/// against the two schemas, keyed and ordered by bone name.
pub open spec fn spec_from_raw(
    mot: RawMotionView,
    mdb: Seq<Seq<u8>>,
    skels: Seq<Seq<(Seq<u8>, BoneKind)>>,
) -> Result<MotionView, MotionQualifyError> {
    if skels.len() == 0 {
        Err(MotionQualifyError::NoSkeleton)
    } else {
        match spec_from_raw_rec(mot.bones, 0, 0, Seq::empty(), mot.sets, mdb, skels[0]) {
            Err(e) => Err(e),
            Ok((anims, q)) => Ok(MotionView { frames: mot.frames, anims }),
        }
    }
}

/// Remove the front x/y/z group from the track queue.
pub fn pop3(queue: &mut Vec<FrameData>) -> (r: Vec3)
    requires
        old(queue)@.len() >= 3,
    ensures
        final(queue)@ == old(queue)@.skip(3),
        r@ == (Vec3View { x: old(queue)@[0]@, y: old(queue)@[1]@, z: old(queue)@[2]@ }),
{
    let x = queue.remove(0);
    let y = queue.remove(0);
    let z = queue.remove(0);
    proof {
        assert(queue@ =~= old(queue)@.skip(3));
    }
    Vec3 { x, y, z }
}

impl Motion {
    /// Qualify a flat motion against the two schemas: resolve each bone id
    /// to a name via the motion-set schema and the name to a kind via the
    /// first skeleton of the bone schema (with the two well-known name
    /// fallbacks), consume three tracks per group from the front of the
    /// track queue, and key the animations by name. An unresolved name gets
    /// a `None` entry and consumes nothing.
    #[verifier::loop_isolation(false)]
    pub fn from_raw(mot: RawMotion, mot_db: &MotionSetSchema, bone_db: &BoneSchema) -> (r: Result<
        Motion,
        MotionQualifyError,
    >)
        ensures
            match r {
                Ok(m) => spec_from_raw(mot@, mot_db_view(mot_db), bone_schema_view(bone_db)) == Ok::<
                    MotionView,
                    MotionQualifyError,
                >(m@) && sorted_anims(m@.anims),
                Err(e) => spec_from_raw(mot@, mot_db_view(mot_db), bone_schema_view(bone_db))
                    == Err::<MotionView, MotionQualifyError>(e),
            },
    {
        let ghost rawv = mot@;
        let ghost mdbv = mot_db_view(mot_db);
        let frames = mot.frames;
        let mut queue = mot.sets;
        let bones_ids = mot.bones;
        if bone_db.skeletons.len() == 0 {
            return Err(MotionQualifyError::NoSkeleton);
        }
        let skel = &bone_db.skeletons[0];
        let ghost skelv = skeleton_view(bone_db.skeletons@[0]);
        let mut anims: Vec<(Bone, Option<BoneAnim>)> = Vec::new();
        let mut i: usize = 0;
        let ghost mut q: int = 0;
        proof {
            assert(crate::anims_view(anims@) =~= Seq::<(Seq<u8>, Option<BoneAnimView>)>::empty());
            assert(views_of(queue@) =~= rawv.sets);
        }
        while i < bones_ids.len()
            invariant
                i <= bones_ids@.len(),
                0 <= q <= rawv.sets.len(),
                q == rawv.sets.len() - queue@.len(),
                views_of(queue@) == rawv.sets.skip(q),
                sorted_anims(crate::anims_view(anims@)),
                spec_from_raw_rec(
                    rawv.bones,
                    i as int,
                    q,
                    crate::anims_view(anims@),
                    rawv.sets,
                    mdbv,
                    skelv,
                ) == spec_from_raw_rec(
                    rawv.bones,
                    0,
                    0,
                    Seq::empty(),
                    rawv.sets,
                    mdbv,
                    skelv,
                ),
            decreases bones_ids@.len() - i,
        {
            let id = bones_ids[i];
            if id as usize >= mot_db.bones.len() {
                return Err(MotionQualifyError::NotInMotDb(id));
            }
            let name_ref = &mot_db.bones[id as usize];
            let ghost namev = mdbv[id as int];
            proof {
                assert(name_ref@ == namev);
            }
            let kind_found = find_kind(skel, name_ref.as_slice());
            let resolved: Option<BoneKind> = match kind_found {
                Some(k) => Some(k),
                Option::None => {
                    if is_gblctr(name_ref.as_slice()) {
                        Some(BoneKind::Position)
                    } else if is_kg_ya_ex(name_ref.as_slice()) {
                        Some(BoneKind::Rotation)
                    } else {
                        Option::None
                    }
                },
            };
            proof {
                assert(resolved == resolve_kind(skelv, namev));
            }
            let name_own = vstd::slice::slice_to_vec(name_ref.as_slice());
            match resolved {
                Option::None => {
                    insert_sorted(&mut anims, name_own, Option::None);
                },
                Some(k) => {
                    let need: usize = match k {
                        BoneKind::Rotation => 3,
                        BoneKind::Position => 3,
                        BoneKind::Unk => 6,
                        BoneKind::PositionRotation => 6,
                        BoneKind::RotationIk => 6,
                        BoneKind::ArmIk => 6,
                        BoneKind::LegIk => 6,
                    };
                    if queue.len() < need {
                        return Err(MotionQualifyError::PopSet);
                    }
                    let ghost q0 = queue@;
                    let anim = match k {
                        BoneKind::Rotation => BoneAnim::Rotation(pop3(&mut queue)),
                        BoneKind::Position => BoneAnim::Position(pop3(&mut queue)),
                        BoneKind::Unk => {
                            let a = pop3(&mut queue);
                            let b = pop3(&mut queue);
                            BoneAnim::Unk(a, b)
                        },
                        BoneKind::PositionRotation => {
                            let a = pop3(&mut queue);
                            let b = pop3(&mut queue);
                            BoneAnim::PositionRotation { position: a, rotation: b }
                        },
                        BoneKind::RotationIk => {
                            let a = pop3(&mut queue);
                            let b = pop3(&mut queue);
                            BoneAnim::RotationIk { target: a, rotation: b }
                        },
                        BoneKind::ArmIk => {
                            let a = pop3(&mut queue);
                            let b = pop3(&mut queue);
                            BoneAnim::ArmIk { target: a, rotation: b }
                        },
                        BoneKind::LegIk => {
                            let a = pop3(&mut queue);
                            let b = pop3(&mut queue);
                            BoneAnim::LegIk { target: a, position: b }
                        },
                    };
                    proof {
                        assert(views_of(q0) == rawv.sets.skip(q));
                        assert forall|t: int| 0 <= t < q0.len() implies (#[trigger] q0[t])@
                            == rawv.sets[q + t] by {
                            assert(views_of(q0)[t] == q0[t]@);
                        }
                        assert(queue@ =~= q0.skip(need as int));
                        assert forall|t: int| 0 <= t < queue@.len() implies views_of(queue@)[t]
                            == rawv.sets[q + need + t] by {
                            assert(views_of(queue@)[t] == queue@[t]@);
                            assert(queue@[t] == q0[t + need]);
                        }
                        assert(views_of(queue@) =~= rawv.sets.skip(q + need));
                        assert(anim@ == anim_of(k, rawv.sets, q));
                    }
                    insert_sorted(&mut anims, name_own, Some(anim));
                    proof {
                        q = q + need as int;
                    }
                },
            }
            i = i + 1;
        }
        let m = Motion { frames, anims };
        proof {
            assert(m@.anims == crate::anims_view(m.anims@));
        }
        Ok(m)
    }
}

/// The three tracks of one x/y/z group, in order.
pub open spec fn vec3_seq(v: Vec3View) -> Seq<FrameDataView> {
    seq![v.x, v.y, v.z]
}

/// The views of a list of groups.
pub open spec fn vec3s_view(v: Seq<Vec3>) -> Seq<Vec3View> {
    v.map_values(|x: Vec3| x@)
}

/// The groups of an animation, in the fixed per-variant order in which
/// unqualification writes them back.
pub open spec fn groups_of(a: BoneAnimView) -> Seq<Vec3View> {
    match a {
        BoneAnimView::Rotation(v) => seq![v],
        BoneAnimView::Unk(u, v) => seq![u, v],
        BoneAnimView::Position(v) => seq![v],
        BoneAnimView::PositionRotation { position, rotation } => seq![position, rotation],
        BoneAnimView::RotationIk { target, rotation } => seq![target, rotation],
        BoneAnimView::ArmIk { target, rotation } => seq![target, rotation],
        BoneAnimView::LegIk { position, target } => seq![target, position],
    }
}

/// The flat track list an animation contributes: its groups' tracks.
pub open spec fn flatten_anim(a: BoneAnimView) -> Seq<FrameDataView> {
    if groups_of(a).len() == 1 {
        vec3_seq(groups_of(a)[0])
    } else {
        vec3_seq(groups_of(a)[0]) + vec3_seq(groups_of(a)[1])
    }
}

impl BoneAnim {
    /// The animation's groups, in the fixed order they are written back.
    pub fn to_vec(self) -> (r: Vec<Vec3>)
        ensures
            vec3s_view(r@) == groups_of(self@),
            r@.len() == groups_of(self@).len(),
    {
        let ghost av = self@;
        let mut r: Vec<Vec3> = Vec::new();
        match self {
            BoneAnim::Rotation(v) => {
                r.push(v);
            },
            BoneAnim::Unk(u, v) => {
                r.push(u);
                r.push(v);
            },
            BoneAnim::Position(v) => {
                r.push(v);
            },
            BoneAnim::PositionRotation { position, rotation } => {
                r.push(position);
                r.push(rotation);
            },
            BoneAnim::RotationIk { target, rotation } => {
                r.push(target);
                r.push(rotation);
            },
            BoneAnim::ArmIk { target, rotation } => {
                r.push(target);
                r.push(rotation);
            },
            BoneAnim::LegIk { position, target } => {
                r.push(target);
                r.push(position);
            },
        }
        proof {
            assert(vec3s_view(r@) =~= groups_of(av));
        }
        r
    }
}

/// The first index at which `name` stands in the motion-set schema.
pub open spec fn index_of_name(mdb: Seq<Seq<u8>>, name: Seq<u8>) -> Option<int>
    decreases mdb.len(),
{
    if mdb.len() == 0 {
        None
    } else if mdb[0] == name {
        Some(0)
    } else {
        match index_of_name(mdb.skip(1), name) {
            None => None,
            Some(i) => Some(i + 1),
        }
    }
}

/// Searching past a prefix free of `name` searches the rest, shifted.
pub proof fn lemma_index_of_name_skip(mdb: Seq<Seq<u8>>, name: Seq<u8>, p: int)
    requires
        0 <= p <= mdb.len(),
        forall|t: int| 0 <= t < p ==> mdb[t] != name,
    ensures
        index_of_name(mdb, name) == match index_of_name(mdb.skip(p), name) {
            None => None::<int>,
            Some(i) => Some(i + p),
        },
    decreases p,
{
    if p > 0 {
        lemma_index_of_name_skip(mdb.skip(1), name, p - 1);
        assert(mdb.skip(1).skip(p - 1) =~= mdb.skip(p));
    } else {
        assert(mdb.skip(0) =~= mdb);
    }
}

/// Look a name up in the motion-set schema; the first match wins.
#[verifier::loop_isolation(false)]
pub fn find_index(mot_db: &MotionSetSchema, name: &[u8]) -> (r: Option<usize>)
    ensures
        match r {
            Some(i) => index_of_name(mot_db_view(mot_db), name@) == Some(i as int),
            None => index_of_name(mot_db_view(mot_db), name@) is None,
        },
{
    let ghost mdbv = mot_db_view(mot_db);
    let mut p: usize = 0;
    while p < mot_db.bones.len()
        invariant
            p <= mot_db.bones@.len(),
            forall|t: int| 0 <= t < p ==> mdbv[t] != name@,
        decreases mot_db.bones@.len() - p,
    {
        if bytes_eq(mot_db.bones[p].as_slice(), name) {
            proof {
                lemma_index_of_name_skip(mdbv, name@, p as int);
                assert(mdbv.skip(p as int)[0] == mdbv[p as int]);
            }
            return Some(p);
        }
        p = p + 1;
    }
    proof {
        lemma_index_of_name_skip(mdbv, name@, p as int);
        assert(mdbv.skip(p as int).len() == 0);
    }
    Option::None
}

/// What unqualification does from entry `j` on: `None` entries contribute
/// nothing; a present animation contributes its resolved id (truncated to
/// the on-disk `u16`) and its flattened tracks, or fails with the name if
/// the motion-set schema lacks it.
pub open spec fn spec_to_raw_rec(
    anims: Seq<(Seq<u8>, Option<BoneAnimView>)>,
    j: int,
    mdb: Seq<Seq<u8>>,
) -> Result<(Seq<u16>, Seq<FrameDataView>), Seq<u8>>
    decreases anims.len() - j,
{
    if j < 0 || j >= anims.len() {
        Ok((Seq::empty(), Seq::empty()))
    } else {
        let (name, aopt) = anims[j];
        match aopt {
            None => spec_to_raw_rec(anims, j + 1, mdb),
            Some(a) => match index_of_name(mdb, name) {
                None => Err(name),
                Some(idx) => match spec_to_raw_rec(anims, j + 1, mdb) {
                    Err(e) => Err(e),
                    Ok((bs, ds)) => Ok((seq![idx as u16] + bs, flatten_anim(a) + ds)),
                },
            },
        }
    }
}

/// What [`Motion::to_raw`] returns: the flat record rebuilt from the
/// animation list in its name order, carrying the frame count forward.
pub open spec fn spec_to_raw(m: MotionView, mdb: Seq<Seq<u8>>) -> Result<RawMotionView, Seq<u8>> {
    match spec_to_raw_rec(m.anims, 0, mdb) {
        Err(n) => Err(n),
        Ok((bones, sets)) => Ok(RawMotionView { sets, bones, frames: m.frames }),
    }
}

/// Helper shape for the loop invariant of [`Motion::to_raw`].
pub open spec fn prepend_to_raw_result(
    bones: Seq<u16>,
    sets: Seq<FrameDataView>,
    out: Result<(Seq<u16>, Seq<FrameDataView>), Seq<u8>>,
) -> Result<(Seq<u16>, Seq<FrameDataView>), Seq<u8>> {
    match out {
        Err(e) => Err(e),
        Ok((bs, ds)) => Ok((bones + bs, sets + ds)),
    }
}

impl Motion {
    /// Unqualify: walk the animation list in its name order, skip absent
    /// (`None`) entries, resolve each remaining name to its id in the
    /// motion-set schema, and lay the groups back out as a flat track list.
    #[verifier::loop_isolation(false)]
    pub fn to_raw(self, mot_db: &MotionSetSchema) -> (r: Result<RawMotion, UnqualifyMotionError>)
        ensures
            match r {
                Ok(raw) => spec_to_raw(self@, mot_db_view(mot_db)) == Ok::<RawMotionView, Seq<u8>>(
                    raw@,
                ),
                Err(UnqualifyMotionError::NotInDatabase(n)) => spec_to_raw(
                    self@,
                    mot_db_view(mot_db),
                ) == Err::<RawMotionView, Seq<u8>>(n@),
            },
    {
        let ghost mv = self@;
        let ghost mdbv = mot_db_view(mot_db);
        let frames = self.frames;
        let mut rest = self.anims;
        let mut bones: Vec<u16> = Vec::new();
        let mut sets: Vec<FrameData> = Vec::new();
        let ghost mut j: int = 0;
        proof {
            assert(crate::anims_view(rest@) =~= mv.anims);
            assert(views_of(sets@) =~= Seq::<FrameDataView>::empty());
            match spec_to_raw_rec(mv.anims, 0, mdbv) {
                Ok((bs, ds)) => {
                    assert(Seq::<u16>::empty() + bs =~= bs);
                    assert(Seq::<FrameDataView>::empty() + ds =~= ds);
                },
                Err(_) => {},
            }
        }
        while rest.len() > 0
            invariant
                0 <= j <= mv.anims.len(),
                rest@.len() == mv.anims.len() - j,
                crate::anims_view(rest@) == mv.anims.skip(j),
                spec_to_raw_rec(mv.anims, 0, mdbv) == prepend_to_raw_result(
                    bones@,
                    views_of(sets@),
                    spec_to_raw_rec(mv.anims, j, mdbv),
                ),
            decreases rest@.len(),
        {
            let ghost rest0 = rest@;
            let e = rest.remove(0);
            proof {
                assert(crate::anims_view(rest0)[0] == crate::anim_entry_view(rest0[0]));
                assert(crate::anim_entry_view(e) == mv.anims[j]);
                assert forall|t: int| 0 <= t < rest@.len() implies crate::anims_view(rest@)[t]
                    == mv.anims.skip(j + 1)[t] by {
                    assert(crate::anims_view(rest@)[t] == crate::anim_entry_view(rest@[t]));
                    assert(rest@[t] == rest0[t + 1]);
                    assert(crate::anims_view(rest0)[t + 1] == crate::anim_entry_view(rest0[t + 1]));
                }
                assert(crate::anims_view(rest@) =~= mv.anims.skip(j + 1));
            }
            let (bone, aopt) = e;
            match aopt {
                Option::None => {
                    proof {
                        j = j + 1;
                    }
                },
                Some(anim) => {
                    let idx = match find_index(mot_db, bone.0.as_slice()) {
                        Option::None => {
                            return Err(UnqualifyMotionError::NotInDatabase(bone.0));
                        },
                        Some(i) => i,
                    };
                    let ghost animv = anim@;
                    let ghost bones0 = bones@;
                    let ghost sets0 = views_of(sets@);
                    bones.push(#[verifier::truncate] (idx as u16));
                    let mut gs = anim.to_vec();
                    let g0 = gs.remove(0);
                    sets.push(g0.x);
                    sets.push(g0.y);
                    sets.push(g0.z);
                    if gs.len() > 0 {
                        let g1 = gs.remove(0);
                        sets.push(g1.x);
                        sets.push(g1.y);
                        sets.push(g1.z);
                    }
                    proof {
                        assert(views_of(sets@) =~= sets0 + flatten_anim(animv));
                        match spec_to_raw_rec(mv.anims, j + 1, mdbv) {
                            Ok((bs, ds)) => {
                                assert(bones0 + (seq![(idx as int) as u16] + bs) =~= bones0.push(
                                    (idx as int) as u16,
                                ) + bs);
                                assert(sets0 + (flatten_anim(animv) + ds) =~= (sets0
                                    + flatten_anim(animv)) + ds);
                            },
                            Err(_) => {},
                        }
                        j = j + 1;
                    }
                },
            }
        }
        proof {
            match spec_to_raw_rec(mv.anims, j, mdbv) {
                Ok((bs, ds)) => {
                    assert(bones@ + bs =~= bones@);
                    assert(views_of(sets@) + ds =~= views_of(sets@));
                },
                Err(_) => {},
            }
        }
        let raw = RawMotion { sets, bones, frames };
        proof {
            assert(raw@.sets =~= views_of(raw.sets@));
            assert(raw@ =~= (RawMotionView { sets: views_of(raw.sets@), bones: raw.bones@, frames }));
        }
        Ok(raw)
    }
}

} // verus!
