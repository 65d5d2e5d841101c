//! Motions: the layout of a motion curve's segment list, the track each curve
//! drives, and the tracks of the reset motion.
//!
//! A curve's segment list starts with the time and value of its first point;
//! then come segments, each a type code followed by its points: a linear
//! segment (code 0) and the two stepped ones (codes 2 and 3) carry one point,
//! a cubic Bézier segment (code 1) carries three.

use vstd::prelude::*;

use crate::properties::{scope_prefix, PropertyScope, PARAMETER_PREFIX, PART_PREFIX};
use crate::text::{begins_with, str_concat, has_prefix};

verus! {

/// The kind of a curve segment.
#[derive(PartialEq, Eq, Structural, Clone, Copy, Debug)]
pub enum SegmentKind {
    Linear,
    Bezier,
    Stepped,
    InverseStepped,
}

/// A segment of a curve: its kind and the index of its type code in the
/// segment list; its points follow that index, the previous point precedes it.
#[derive(PartialEq, Eq, Structural, Clone, Copy, Debug)]
pub struct CurveSegment {
    pub kind: SegmentKind,
    pub at: usize,
}

/// Why a curve's segment list cannot be used.
#[derive(PartialEq, Eq, Structural, Clone, Copy, Debug)]
pub enum CurveError {
    /// Fewer than two entries: not even a first point.
    TooShort,
    /// A type code that is none of the four kinds.
    InvalidSegmentType,
    /// The list ends inside a segment: a point it needs is missing.
    Truncated,
}

/// The kind a type code stands for.
pub open spec fn kind_of_code(code: i32) -> Option<SegmentKind> {
    if code == 0 {
        Some(SegmentKind::Linear)
    } else if code == 1 {
        Some(SegmentKind::Bezier)
    } else if code == 2 {
        Some(SegmentKind::Stepped)
    } else if code == 3 {
        Some(SegmentKind::InverseStepped)
    } else {
        None
    }
}

/// How far past its type code a segment reads.
pub open spec fn reach(kind: SegmentKind) -> nat {
    match kind {
        SegmentKind::Bezier => 6,
        _ => 2,
    }
}

/// How many entries a segment takes, its type code included.
pub open spec fn width(kind: SegmentKind) -> nat {
    reach(kind) + 1
}

/// The segments of `codes` from the type code at `s` on.
pub open spec fn decode_from(codes: Seq<i32>, s: int) -> Result<Seq<CurveSegment>, CurveError>
    decreases codes.len() - s,
{
    if s < 0 || s >= codes.len() {
        Err(CurveError::Truncated)
    } else {
        match kind_of_code(codes[s]) {
            None => Err(CurveError::InvalidSegmentType),
            Some(k) => {
                let seg = CurveSegment { kind: k, at: s as usize };
                if s + reach(k) >= codes.len() {
                    Err(CurveError::Truncated)
                } else if s + width(k) >= codes.len() {
                    Ok(seq![seg])
                } else {
                    match decode_from(codes, s + width(k)) {
                        Ok(rest) => Ok(seq![seg] + rest),
                        Err(e) => Err(e),
                    }
                }
            }
        }
    }
}

/// The segments of a curve whose segment list, each entry truncated to an
/// integer, is `codes`.
pub open spec fn decode_curve(codes: Seq<i32>) -> Result<Seq<CurveSegment>, CurveError> {
    if codes.len() < 2 {
        Err(CurveError::TooShort)
    } else {
        decode_from(codes, 2)
    }
}

/// The segments of a curve, from its segment list with each entry truncated
/// to an integer (only type codes are read from it).
pub fn decode_segments(codes: &Vec<i32>) -> (r: Result<Vec<CurveSegment>, CurveError>)
    ensures
        match r {
            Ok(segs) => decode_curve(codes@) == Ok::<Seq<CurveSegment>, CurveError>(segs@),
            Err(e) => decode_curve(codes@) == Err::<Seq<CurveSegment>, CurveError>(e),
        },
{
    let len = codes.len();
    if len < 2 {
        return Err(CurveError::TooShort);
    }
    if len == 2 {
        return Err(CurveError::Truncated);
    }
    let mut acc: Vec<CurveSegment> = Vec::new();
    let mut s: usize = 2;
    loop
        invariant
            len == codes@.len(),
            2 <= s < len,
            decode_curve(codes@) == (match decode_from(codes@, s as int) {
                Ok(rest) => Ok::<Seq<CurveSegment>, CurveError>(acc@ + rest),
                Err(e) => Err::<Seq<CurveSegment>, CurveError>(e),
            }),
        decreases len - s,
    {
        let code = codes[s];
        let kind = if code == 0 {
            SegmentKind::Linear
        } else if code == 1 {
            SegmentKind::Bezier
        } else if code == 2 {
            SegmentKind::Stepped
        } else if code == 3 {
            SegmentKind::InverseStepped
        } else {
            return Err(CurveError::InvalidSegmentType);
        };
        let reach: usize = match kind {
            SegmentKind::Bezier => 6,
            _ => 2,
        };
        if reach >= len - s {
            return Err(CurveError::Truncated);
        }
        let seg = CurveSegment { kind, at: s };
        let ghost before = acc@;
        acc.push(seg);
        let next = s + reach + 1;
        if next >= len {
            assert(acc@ =~= before + seq![seg]);
            return Ok(acc);
        }
        proof {
            match decode_from(codes@, next as int) {
                Ok(rest) => {
                    assert(before + (seq![seg] + rest) =~= acc@ + rest);
                }
                Err(e) => {}
            }
        }
        s = next;
    }
}

/// The segments `segs` tile `codes` from the type code at `s` on: the first
/// starts at `s`, each segment's type code is valid and every entry it reads
/// is in the list, each starts where the previous one ends, and the last one
/// ends the list.
pub open spec fn tiles_from(codes: Seq<i32>, segs: Seq<CurveSegment>, s: int) -> bool {
    &&& segs.len() > 0
    &&& segs[0].at == s
    &&& forall|k: int| 0 <= k < segs.len() ==> kind_of_code(codes[segs[k].at as int]) == Some(#[trigger] segs[k].kind)
    &&& forall|k: int| 0 <= k < segs.len() ==> #[trigger] segs[k].at + reach(segs[k].kind) < codes.len()
    &&& forall|k: int| 0 <= k < segs.len() - 1 ==> #[trigger] segs[k + 1].at == segs[k].at + width(segs[k].kind)
    &&& segs.last().at + width(segs.last().kind) >= codes.len()
}

/// Law: the segments of a usable curve tile its segment list from the entry
/// after the first point (index 2) to its end.
pub proof fn law_segments_tile(codes: Seq<i32>)
    requires
        codes.len() <= usize::MAX,
        decode_curve(codes) is Ok,
    ensures
        tiles_from(codes, decode_curve(codes).unwrap(), 2),
{
    lemma_decode_from_tiles(codes, 2);
}

proof fn lemma_decode_from_tiles(codes: Seq<i32>, s: int)
    requires
        codes.len() <= usize::MAX,
        decode_from(codes, s) is Ok,
    ensures
        tiles_from(codes, decode_from(codes, s).unwrap(), s),
    decreases codes.len() - s,
{
    let k = kind_of_code(codes[s]).unwrap();
    let seg = CurveSegment { kind: k, at: s as usize };
    assert(0 <= s < codes.len());
    if s + width(k) < codes.len() {
        let rest = decode_from(codes, s + width(k)).unwrap();
        assert(decode_from(codes, s + width(k)) is Ok);
        lemma_decode_from_tiles(codes, s + width(k));
        let segs = seq![seg] + rest;
        assert(decode_from(codes, s) == Ok::<Seq<CurveSegment>, CurveError>(segs));
        assert forall|j: int| 0 <= j < segs.len() implies kind_of_code(codes[segs[j].at as int]) == Some(#[trigger] segs[j].kind) by {
            if j > 0 {
                assert(segs[j] == rest[j - 1]);
            }
        }
        assert forall|j: int| 0 <= j < segs.len() implies #[trigger] segs[j].at + reach(segs[j].kind) < codes.len() by {
            if j > 0 {
                assert(segs[j] == rest[j - 1]);
            }
        }
        assert forall|j: int| 0 <= j < segs.len() - 1 implies #[trigger] segs[j + 1].at == segs[j].at + width(segs[j].kind) by {
            if j > 0 {
                assert(segs[j] == rest[j - 1]);
                let jj = j - 1;
                assert(0 <= jj < rest.len() - 1);
                assert(rest[jj + 1].at == rest[jj].at + width(rest[jj].kind));
            } else {
                assert(segs[0] == seg);
                assert(rest[0].at == s + width(k));
            }
            assert(segs[j + 1] == rest[j]);
        }
        assert(segs.last() == rest.last());
    } else {
        assert(decode_from(codes, s) == Ok::<Seq<CurveSegment>, CurveError>(seq![seg]));
    }
}

/// Law: decoding is complete: every segment list that the first point
/// followed by whole segments tiles, up to its end, decodes to exactly those
/// segments.
pub proof fn law_segments_complete(codes: Seq<i32>, segs: Seq<CurveSegment>)
    requires
        tiles_from(codes, segs, 2),
    ensures
        decode_curve(codes) == Ok::<Seq<CurveSegment>, CurveError>(segs),
{
    lemma_tiles_decode(codes, segs, 2);
}

proof fn lemma_tiles_decode(codes: Seq<i32>, segs: Seq<CurveSegment>, s: int)
    requires
        0 <= s,
        tiles_from(codes, segs, s),
    ensures
        decode_from(codes, s) == Ok::<Seq<CurveSegment>, CurveError>(segs),
    decreases segs.len(),
{
    let seg0 = segs[0];
    let k = seg0.kind;
    assert(kind_of_code(codes[segs[0].at as int]) == Some(segs[0].kind));
    assert(segs[0].at + reach(segs[0].kind) < codes.len());
    let seg = CurveSegment { kind: k, at: s as usize };
    assert(seg == seg0);
    if segs.len() == 1 {
        assert(segs.last() == seg0);
        assert(seq![seg] =~= segs);
    } else {
        let rest = segs.skip(1);
        assert(segs[1].at == segs[0].at + width(segs[0].kind));
        assert(rest[0] == segs[1]);
        assert forall|j: int| 0 <= j < rest.len() implies kind_of_code(codes[rest[j].at as int]) == Some(#[trigger] rest[j].kind) by {
            assert(rest[j] == segs[j + 1]);
            assert(kind_of_code(codes[segs[j + 1].at as int]) == Some(segs[j + 1].kind));
        }
        assert forall|j: int| 0 <= j < rest.len() implies #[trigger] rest[j].at + reach(rest[j].kind) < codes.len() by {
            assert(rest[j] == segs[j + 1]);
            assert(segs[j + 1].at + reach(segs[j + 1].kind) < codes.len());
        }
        assert forall|j: int| 0 <= j < rest.len() - 1 implies #[trigger] rest[j + 1].at == rest[j].at + width(rest[j].kind) by {
            assert(rest[j] == segs[j + 1]);
            assert(rest[j + 1] == segs[j + 2]);
            let jj = j + 1;
            assert(segs[jj + 1].at == segs[jj].at + width(segs[jj].kind));
        }
        assert(rest.last() == segs.last());
        assert(tiles_from(codes, rest, s + width(k)));
        lemma_tiles_decode(codes, rest, s + width(k));
        assert(rest[0].at + reach(rest[0].kind) < codes.len());
        assert(seq![seg] + rest =~= segs);
    }
}

proof fn lemma_decode_from_not_too_short(codes: Seq<i32>, s: int)
    ensures
        decode_from(codes, s) != Err::<Seq<CurveSegment>, CurveError>(CurveError::TooShort),
    decreases codes.len() - s,
{
    if 0 <= s < codes.len() {
        if let Some(k) = kind_of_code(codes[s]) {
            if s + reach(k) < codes.len() && s + width(k) < codes.len() {
                lemma_decode_from_not_too_short(codes, s + width(k));
            }
        }
    }
}

/// Law: a segment list is refused as too short exactly when it has fewer than
/// two entries.
pub proof fn law_too_short(codes: Seq<i32>)
    ensures
        decode_curve(codes) == Err::<Seq<CurveSegment>, CurveError>(CurveError::TooShort) <==> codes.len() < 2,
{
    lemma_decode_from_not_too_short(codes, 2);
}

/// `segs` are whole segments of `codes`, one after the other, starting with
/// the type code at `s` and ending just before index `p` (`p == s` when there
/// are none).
pub open spec fn runs_to(codes: Seq<i32>, segs: Seq<CurveSegment>, s: int, p: int) -> bool {
    &&& segs.len() == 0 ==> p == s
    &&& segs.len() > 0 ==> segs[0].at == s && segs.last().at + width(segs.last().kind) == p
    &&& forall|k: int| 0 <= k < segs.len() ==> kind_of_code(codes[segs[k].at as int]) == Some(#[trigger] segs[k].kind)
    &&& forall|k: int| 0 <= k < segs.len() ==> #[trigger] segs[k].at + reach(segs[k].kind) < codes.len()
    &&& forall|k: int| 0 <= k < segs.len() - 1 ==> #[trigger] segs[k + 1].at == segs[k].at + width(segs[k].kind)
}

/// What is found at index `p`, right after whole segments, that makes the
/// list unusable with error `e`: a type code that is no kind, or the end of
/// the list where a type code or a point should be.
pub open spec fn stops_with(codes: Seq<i32>, p: int, e: CurveError) -> bool {
    match e {
        CurveError::InvalidSegmentType => 0 <= p < codes.len() && kind_of_code(codes[p]) is None,
        CurveError::Truncated => p >= codes.len() || (0 <= p && match kind_of_code(codes[p]) {
            Some(k) => p + reach(k) >= codes.len(),
            None => false,
        }),
        CurveError::TooShort => false,
    }
}

proof fn lemma_runs_prepend(codes: Seq<i32>, seg: CurveSegment, segs: Seq<CurveSegment>, s: int, p: int)
    requires
        0 <= s,
        seg.at == s,
        kind_of_code(codes[s]) == Some(seg.kind),
        s + reach(seg.kind) < codes.len(),
        runs_to(codes, segs, s + width(seg.kind), p),
    ensures
        runs_to(codes, seq![seg] + segs, s, p),
{
    let all = seq![seg] + segs;
    assert(all[0] == seg);
    assert forall|k: int| 0 <= k < all.len() implies kind_of_code(codes[all[k].at as int]) == Some(#[trigger] all[k].kind)
        && #[trigger] all[k].at + reach(all[k].kind) < codes.len() by {
        if k > 0 {
            assert(all[k] == segs[k - 1]);
        }
    }
    assert forall|k: int| 0 <= k < all.len() - 1 implies #[trigger] all[k + 1].at == all[k].at + width(all[k].kind) by {
        assert(all[k + 1] == segs[k]);
        if k > 0 {
            assert(all[k] == segs[k - 1]);
            let kk = k - 1;
            assert(segs[kk + 1].at == segs[kk].at + width(segs[kk].kind));
        }
    }
    if segs.len() > 0 {
        assert(all.last() == segs.last());
    }
}

/// Decoding from the start of whole segments continues where they end.
proof fn lemma_runs_decode(codes: Seq<i32>, segs: Seq<CurveSegment>, s: int, p: int)
    requires
        0 <= s,
        runs_to(codes, segs, s, p),
        p < codes.len(),
    ensures
        decode_from(codes, s) == (match decode_from(codes, p) {
            Ok(r) => Ok::<Seq<CurveSegment>, CurveError>(segs + r),
            Err(e) => Err::<Seq<CurveSegment>, CurveError>(e),
        }),
    decreases segs.len(),
{
    if segs.len() == 0 {
        assert(seq![] + Seq::<CurveSegment>::empty() =~= Seq::<CurveSegment>::empty());
        match decode_from(codes, p) {
            Ok(r) => { assert(segs + r =~= r); }
            Err(e) => {}
        }
    } else {
        let seg = segs[0];
        assert(kind_of_code(codes[segs[0].at as int]) == Some(segs[0].kind));
        assert(segs[0].at + reach(segs[0].kind) < codes.len());
        let k = seg.kind;
        let rest = segs.skip(1);
        let s2 = s + width(k);
        assert(runs_to(codes, rest, s2, p)) by {
            if rest.len() > 0 {
                assert(rest[0] == segs[1]);
                assert(segs[1].at == segs[0].at + width(segs[0].kind));
                assert(rest.last() == segs.last());
            } else {
                assert(segs.len() == 1);
                assert(segs.last() == segs[0]);
            }
            assert forall|j: int| 0 <= j < rest.len() implies kind_of_code(codes[rest[j].at as int]) == Some(#[trigger] rest[j].kind)
                && #[trigger] rest[j].at + reach(rest[j].kind) < codes.len() by {
                assert(rest[j] == segs[j + 1]);
                assert(kind_of_code(codes[segs[j + 1].at as int]) == Some(segs[j + 1].kind));
                assert(segs[j + 1].at + reach(segs[j + 1].kind) < codes.len());
            }
            assert forall|j: int| 0 <= j < rest.len() - 1 implies #[trigger] rest[j + 1].at == rest[j].at + width(rest[j].kind) by {
                assert(rest[j] == segs[j + 1]);
                assert(rest[j + 1] == segs[j + 2]);
                let jj = j + 1;
                assert(segs[jj + 1].at == segs[jj].at + width(segs[jj].kind));
            }
        }
        if rest.len() == 0 {
            assert(s2 == p);
        } else {
            assert(rest[0].at + reach(rest[0].kind) < codes.len());
        }
        assert(s2 < codes.len());
        lemma_runs_decode(codes, rest, s2, p);
        assert(seg == CurveSegment { kind: k, at: s as usize });
        match decode_from(codes, p) {
            Ok(r) => { assert(seq![seg] + (rest + r) =~= segs + r); }
            Err(e) => {}
        }
    }
}

/// The whole segments read before decoding from `s` fails, and where it stops.
proof fn lemma_decode_err(codes: Seq<i32>, s: int) -> (w: (Seq<CurveSegment>, int))
    requires
        0 <= s,
        codes.len() <= usize::MAX,
        decode_from(codes, s) is Err,
    ensures
        w.1 < codes.len() || w.0.len() == 0,
        runs_to(codes, w.0, s, w.1),
        stops_with(codes, w.1, decode_from(codes, s)->Err_0),
    decreases codes.len() - s,
{
    if s >= codes.len() {
        (Seq::empty(), s)
    } else {
        match kind_of_code(codes[s]) {
            None => (Seq::empty(), s),
            Some(k) => {
                if s + reach(k) >= codes.len() {
                    (Seq::empty(), s)
                } else {
                    let seg = CurveSegment { kind: k, at: s as usize };
                    let (segs, p) = lemma_decode_err(codes, s + width(k));
                    lemma_runs_prepend(codes, seg, segs, s, p);
                    (seq![seg] + segs, p)
                }
            }
        }
    }
}

/// Law: a list of at least two entries is refused with an invalid type code,
/// or as truncated, exactly when whole segments from index 2 on lead to an
/// index holding a type code that is no kind, or to an index inside the list
/// holding a type code whose points run past its end, or (with no whole
/// segment at all) to the end of the list right after the first point.
pub proof fn law_segments_refused(codes: Seq<i32>, e: CurveError)
    requires
        codes.len() >= 2,
        codes.len() <= usize::MAX,
    ensures
        decode_curve(codes) == Err::<Seq<CurveSegment>, CurveError>(e) <==> exists|segs: Seq<CurveSegment>, p: int|
            runs_to(codes, segs, 2, p) && stops_with(codes, p, e) && (p < codes.len() || segs.len() == 0),
{
    if decode_curve(codes) == Err::<Seq<CurveSegment>, CurveError>(e) {
        let (segs, p) = lemma_decode_err(codes, 2);
        assert(runs_to(codes, segs, 2, p) && stops_with(codes, p, e) && (p < codes.len() || segs.len() == 0));
    }
    if exists|segs: Seq<CurveSegment>, p: int| runs_to(codes, segs, 2, p) && stops_with(codes, p, e) && (p < codes.len() || segs.len() == 0) {
        let (segs, p) = choose|segs: Seq<CurveSegment>, p: int|
            runs_to(codes, segs, 2, p) && stops_with(codes, p, e) && (p < codes.len() || segs.len() == 0);
        if p < codes.len() {
            lemma_runs_decode(codes, segs, 2, p);
        }
    }
}

/// The directory of the model properties a curve of target `target` drives.
pub open spec fn target_directory(target: Seq<char>) -> Seq<char> {
    if target == "Parameter"@ {
        "parameters"@
    } else if target == "PartOpacity"@ {
        "parts"@
    } else {
        Seq::empty()
    }
}

/// The track path of the curve `id` of target `target`:
/// `.:<directory>/<id>`.
pub fn curve_track_path(target: &str, id: &str) -> (path: String)
    ensures
        path@ == ".:"@ + target_directory(target@) + "/"@ + id@,
{
    let t: String = target.to_owned();
    let dir: &str = if t == "Parameter".to_owned() {
        "parameters"
    } else if t == "PartOpacity".to_owned() {
        "parts"
    } else {
        ""
    };
    proof {
        reveal_strlit("");
    }
    let head = str_concat(".:", dir);
    let head = str_concat(head.as_str(), "/");
    str_concat(head.as_str(), id)
}

/// Law: the track of a parameter curve or a part opacity curve drives the
/// property under which the model exposes that parameter or part.
pub proof fn law_curve_drives_model_property(id: Seq<char>)
    ensures
        ".:"@ + target_directory("Parameter"@) + "/"@ + id == ".:"@ + (scope_prefix(PropertyScope::Parameter) + id),
        ".:"@ + target_directory("PartOpacity"@) + "/"@ + id == ".:"@ + (scope_prefix(PropertyScope::Part) + id),
{
    reveal_strlit("Parameter");
    reveal_strlit("PartOpacity");
    reveal_strlit("parameters");
    reveal_strlit("parts");
    reveal_strlit("parameters/");
    reveal_strlit("parts/");
    reveal_strlit("/");
    assert("Parameter"@ != "PartOpacity"@) by {
        assert("Parameter"@.len() != "PartOpacity"@.len());
    }
    assert(".:"@ + "parameters"@ + "/"@ + id =~= ".:"@ + ("parameters/"@ + id));
    assert(".:"@ + "parts"@ + "/"@ + id =~= ".:"@ + ("parts/"@ + id));
}

// ---------------------------------------------------------------------------
// The reset motion.
// ---------------------------------------------------------------------------

/// A property that the reset motion keeps: a parameter or a part opacity.
pub open spec fn is_pose_property(name: Seq<char>) -> bool {
    has_prefix(name, PARAMETER_PREFIX@) || has_prefix(name, PART_PREFIX@)
}

/// The properties among `names` that the reset motion keeps, in order.
pub open spec fn reset_properties(names: Seq<Seq<char>>) -> Seq<Seq<char>>
    decreases names.len(),
{
    if names.len() == 0 {
        Seq::empty()
    } else {
        let r = reset_properties(names.drop_last());
        if is_pose_property(names.last()) {
            r.push(names.last())
        } else {
            r
        }
    }
}

/// The properties of a model, given by name in its order, that the reset
/// motion sets back: every parameter and every part opacity.
pub fn reset_track_properties(names: &Vec<String>) -> (r: Vec<String>)
    ensures
        r@.map_values(|s: String| s@) == reset_properties(names@.map_values(|s: String| s@)),
{
    let ghost all = names@.map_values(|s: String| s@);
    let mut r: Vec<String> = Vec::new();
    let n = names.len();
    let mut i: usize = 0;
    while i < n
        invariant
            n == names@.len(),
            all == names@.map_values(|s: String| s@),
            i <= n,
            r@.map_values(|s: String| s@) == reset_properties(all.take(i as int)),
        decreases n - i,
    {
        let name = &names[i];
        proof {
            assert(all.take(i + 1).drop_last() =~= all.take(i as int));
            assert(all.take(i + 1).last() == name@);
        }
        if begins_with(name.as_str(), PARAMETER_PREFIX) || begins_with(name.as_str(), PART_PREFIX) {
            let ghost before = r@.map_values(|s: String| s@);
            r.push(name.clone());
            assert(r@.map_values(|s: String| s@) =~= before.push(name@));
        }
        i = i + 1;
    }
    assert(all.take(n as int) =~= all);
    r
}

/// The path of the value track that sets the property `name` of the model:
/// `.:<name>`.
pub fn property_track_path(name: &str) -> (path: String)
    ensures
        path@ == ".:"@ + name@,
{
    str_concat(".:", name)
}

/// Law: the reset motion keeps exactly the parameters and part opacities,
/// each once per occurrence, in the model's order.
pub proof fn law_reset_tracks(names: Seq<Seq<char>>, name: Seq<char>)
    ensures
        reset_properties(names).contains(name) <==> names.contains(name) && is_pose_property(name),
        forall|k: int| 0 <= k < reset_properties(names).len() ==> is_pose_property(#[trigger] reset_properties(names)[k]),
    decreases names.len(),
{
    if names.len() > 0 {
        let t = names.drop_last();
        law_reset_tracks(t, name);
        let r = reset_properties(t);
        assert forall|k: int| 0 <= k < reset_properties(names).len() implies is_pose_property(#[trigger] reset_properties(names)[k]) by {
            if k < r.len() {
                assert(reset_properties(names)[k] == r[k]);
            }
        }
        if names.contains(name) && is_pose_property(name) {
            let j = choose|j: int| 0 <= j < names.len() && names[j] == name;
            if j < t.len() {
                assert(t[j] == name);
                assert(t.contains(name));
                let m = choose|m: int| 0 <= m < r.len() && r[m] == name;
                assert(reset_properties(names)[m] == name);
            } else {
                assert(reset_properties(names)[r.len() as int] == name);
            }
        }
        if reset_properties(names).contains(name) {
            let u = reset_properties(names);
            let m = choose|m: int| 0 <= m < u.len() && u[m] == name;
            if m < r.len() {
                assert(r[m] == name);
                assert(r.contains(name));
                let j = choose|j: int| 0 <= j < t.len() && t[j] == name;
                assert(names[j] == name);
            } else {
                assert(names[names.len() - 1] == name);
            }
        }
    }
}

/// Law: every property under which a model exposes a parameter or a part is
/// one that the reset motion keeps.
pub proof fn law_reset_covers_model_properties(scope: PropertyScope, id: Seq<char>)
    ensures
        is_pose_property(scope_prefix(scope) + id),
{
    crate::properties::lemma_prefixed(scope_prefix(scope), id);
}

/// Law: the reset motion keeps the properties of the model that are
/// parameters or part opacities, each occurrence once, in the model's order:
/// exactly the list filtered by that test.
pub proof fn law_reset_is_filter(names: Seq<Seq<char>>)
    ensures
        reset_properties(names) == names.filter(|n: Seq<char>| is_pose_property(n)),
    decreases names.len(),
{
    reveal_with_fuel(Seq::<_>::filter, 1);
    if names.len() > 0 {
        law_reset_is_filter(names.drop_last());
    }
}

} // verus!
