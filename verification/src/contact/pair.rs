//! Which axis separates two convex solids, and which feature realizes it.
//!
//! One separating axis per pair selects a single contact normal, so a box
//! resting on another box never also reports its side faces as supports. Face
//! axes are preferred unless an edge axis separates clearly further, so resting
//! faces keep a stable normal.

use vstd::prelude::*;

use super::interval::ContactGeometryError;
use crate::double::Double;
use crate::exact::{
    all_double_patterns_stand_in_a_row, double_coded, double_rounds,
    doubles_compare_as_their_values, lemma_double_encoded,
};

verus! {

/// Alignment of an edge axis with a face normal from which on the face is what
/// lies across the other solid's edge: 0.999, about 2.6 degrees.
pub const EDGE_FACE_ALIGNMENT: u64 = 0x3FEF_F7CE_D916_872B;

/// What is measured of one face axis.
#[derive(Clone, Copy, Debug, PartialEq, Eq, Structural)]
pub struct FaceGap {
    /// Whether the plane has a unit normal.
    pub has_normal: bool,
    /// Whether the axis is finite.
    pub axis_finite: bool,
    /// How far the solids are apart along the axis.
    pub gap: Double,
    /// The gap that an edge axis has to exceed to replace this one.
    pub edge_bar: Double,
}

/// A face of one of two solids.
#[derive(Clone, Copy, Debug, PartialEq, Eq, Structural)]
pub enum FaceRow {
    /// Face plane of the receiving solid, by plane row.
    Own(usize),
    /// Face plane of the other solid, by plane row.
    Other(usize),
}

/// The axes that separate two solids furthest.
#[derive(Clone, Copy, Debug, PartialEq, Eq, Structural)]
pub struct LeadingAxes {
    /// The best face axis.
    pub face: FaceRow,
    /// The best edge axis, where it separates clearly further.
    pub edge: Option<usize>,
}

/// Feature that realizes the largest gap between two solids.
#[derive(Clone, Copy, Debug, PartialEq, Eq, Structural)]
pub enum ConvexFeature {
    /// The best face, along its own axis.
    Face,
    /// A face that an edge axis runs along; the axis stays that of the edges.
    AlignedFace(FaceRow),
    /// The closest points of one edge of each solid.
    Edges,
}

/// Whether a gap leads others: nothing exceeds it and what comes before falls
/// short of it. A first gap that is no number cannot be exceeded.
pub open spec fn leads(gaps: Seq<Double>, at: int) -> bool {
    &&& 0 <= at < gaps.len()
    &&& forall|j: int|
        #![trigger gaps[j]]
        0 <= j < gaps.len() ==> !gaps[at].below(gaps[j])
    &&& forall|j: int|
        #![trigger gaps[j]]
        0 <= j < at && !gaps[j].nan() ==> gaps[j].below(gaps[at])
    &&& gaps[0].nan() <==> at == 0 && gaps[at].nan()
    &&& gaps[at].nan() ==> at == 0
}

/// Only one gap leads.
pub proof fn one_gap_leads(gaps: Seq<Double>, a: int, b: int)
    requires
        leads(gaps, a),
        leads(gaps, b),
    ensures
        a == b,
{
    assert(!gaps[a].below(gaps[b]));
    assert(!gaps[b].below(gaps[a]));
}

/// The gaps of faces.
pub open spec fn gaps_of(faces: Seq<FaceGap>) -> Seq<Double> {
    faces.map_values(|face: FaceGap| face.gap)
}

/// The position of a face among the own faces and then the other ones.
pub open spec fn position_of(row: FaceRow, own: int) -> int {
    match row {
        FaceRow::Own(at) => at as int,
        FaceRow::Other(at) => own + at,
    }
}

/// Whether a row names a face of its solid.
pub open spec fn row_listed(row: FaceRow, own: int, other: int) -> bool {
    match row {
        FaceRow::Own(at) => at < own,
        FaceRow::Other(at) => at < other,
    }
}

/// Whether faces give a best axis: every plane has a normal.
pub open spec fn faces_usable(faces: Seq<FaceGap>) -> bool {
    &&& faces.len() > 0
    &&& forall|i: int| #![trigger faces[i]] 0 <= i < faces.len() ==> faces[i].has_normal
}

/// Whether axes are the ones that separate two solids furthest.
pub open spec fn axes_lead(
    own: Seq<FaceGap>,
    other: Seq<FaceGap>,
    edges: Seq<Double>,
    axes: LeadingAxes,
) -> bool {
    let faces = own + other;
    let at = position_of(axes.face, own.len() as int);
    &&& row_listed(axes.face, own.len() as int, other.len() as int)
    &&& leads(gaps_of(faces), at)
    &&& match axes.edge {
        Some(edge) => leads(edges, edge as int) && !edges[edge as int].at_most(faces[at].edge_bar),
        None => forall|e: int| #[trigger] leads(edges, e) ==> edges[e].at_most(faces[at].edge_bar),
    }
}

/// The gap that leads.
pub(crate) fn leader(gaps: &Vec<Double>) -> (at: usize)
    requires
        gaps@.len() > 0,
    ensures
        leads(gaps@, at as int),
{
    let mut at: usize = 0;
    let mut i: usize = 1;
    while i < gaps.len()
        invariant
            1 <= i <= gaps@.len(),
            leads(gaps@.take(i as int), at as int),
        decreases gaps@.len() - i,
    {
        let ghost before = gaps@.take(i as int);
        let ghost after = gaps@.take(i + 1);
        let ghost held = at;
        if gaps[at].less(gaps[i]) {
            at = i;
        }
        proof {
            assert(after =~= before.push(gaps@[i as int]));
            assert(after[0] == before[0]);
            assert(after[held as int] == before[held as int]);
            assert forall|j: int| #![trigger after[j]] 0 <= j < after.len() implies !after[at as int].below(
            after[j]) by {
                if j < i {
                    assert(after[j] == before[j]);
                    assert(!before[held as int].below(before[j]));
                }
            }
            assert forall|j: int|
                #![trigger after[j]]
                0 <= j < at && !after[j].nan() implies after[j].below(after[at as int]) by {
                if j < i {
                    assert(after[j] == before[j]);
                    assert(!before[held as int].below(before[j]));
                }
            }
        }
        i += 1;
    }
    assert(gaps@.take(i as int) =~= gaps@);
    at
}

/// The gaps of two solids' faces, own ones first.
fn face_gaps(own: &Vec<FaceGap>, other: &Vec<FaceGap>) -> (gaps: Vec<Double>)
    ensures
        gaps@ == gaps_of(own@ + other@),
{
    let mut gaps: Vec<Double> = Vec::new();
    let mut i: usize = 0;
    while i < own.len()
        invariant
            i <= own@.len(),
            gaps@ =~= gaps_of(own@.take(i as int)),
        decreases own@.len() - i,
    {
        gaps.push(own[i].gap);
        i += 1;
    }
    assert(own@.take(i as int) =~= own@);
    let mut k: usize = 0;
    while k < other.len()
        invariant
            k <= other@.len(),
            gaps@ =~= gaps_of(own@ + other@.take(k as int)),
        decreases other@.len() - k,
    {
        gaps.push(other[k].gap);
        k += 1;
    }
    assert(other@.take(k as int) =~= other@);
    gaps
}

/// Whether every plane has a normal.
fn normals_held(faces: &Vec<FaceGap>) -> (held: bool)
    ensures
        held == forall|i: int| #![trigger faces@[i]] 0 <= i < faces@.len() ==> faces@[i].has_normal,
{
    let mut i: usize = 0;
    while i < faces.len()
        invariant
            i <= faces@.len(),
            forall|j: int| #![trigger faces@[j]] 0 <= j < i ==> faces@[j].has_normal,
        decreases faces@.len() - i,
    {
        if !faces[i].has_normal {
            assert(!faces@[i as int].has_normal);
            return false;
        }
        i += 1;
    }
    true
}

/// Picks the face axis and the edge axis that separate two solids furthest.
///
/// `edges` holds the gap along every cross axis of two edges, both ways;
/// nearly parallel edges have none.
pub fn leading_axes(own: &Vec<FaceGap>, other: &Vec<FaceGap>, edges: &Vec<Double>) -> (axes: Result<
    LeadingAxes,
    ContactGeometryError,
>)
    ensures
        axes is Ok <==> faces_usable(own@ + other@) && exists|at: int| #[trigger]
            leads(gaps_of(own@ + other@), at) && (own@ + other@)[at].gap.finite() && (own@
                + other@)[at].axis_finite,
        axes is Ok ==> axes_lead(own@, other@, edges@, axes->Ok_0),
{
    let ghost faces = own@ + other@;
    proof {
        assert forall|i: int| #![trigger own@[i]] 0 <= i < own@.len() implies faces[i] == own@[i] by {}
        assert forall|i: int| #![trigger other@[i]] 0 <= i < other@.len() implies faces[own@.len()
            + i] == other@[i] by {}
    }
    if !normals_held(own) || !normals_held(other) {
        proof {
            if faces_usable(faces) {
                assert forall|i: int| #![trigger own@[i]] 0 <= i < own@.len() implies own@[i].has_normal by {
                    assert(faces[i].has_normal);
                }
                assert forall|i: int| #![trigger other@[i]] 0 <= i < other@.len() implies other@[i].has_normal by {
                    assert(faces[own@.len() + i].has_normal);
                }
            }
        }
        return Err(ContactGeometryError);
    }
    if own.len() == 0 && other.len() == 0 {
        return Err(ContactGeometryError);
    }
    let gaps: Vec<Double> = face_gaps(own, other);
    let at: usize = leader(&gaps);
    let (face, found) = if at < own.len() {
        (FaceRow::Own(at), own[at])
    } else {
        (FaceRow::Other(at - own.len()), other[at - own.len()])
    };
    proof {
        assert(found == faces[at as int]);
        assert forall|e: int| #[trigger] leads(gaps_of(faces), e) implies e == at by {
            one_gap_leads(gaps_of(faces), e, at as int);
        }
        assert forall|i: int| #![trigger faces[i]] 0 <= i < faces.len() implies faces[i].has_normal by {
            if i < own@.len() {
                assert(own@[i].has_normal);
            } else {
                assert(other@[i - own@.len()].has_normal);
            }
        }
    }
    if !found.gap.is_finite() || !found.axis_finite {
        return Err(ContactGeometryError);
    }
    let edge: Option<usize> = if edges.len() == 0 {
        None
    } else {
        let best: usize = leader(edges);
        proof {
            assert forall|e: int| #[trigger] leads(edges@, e) implies e == best by {
                one_gap_leads(edges@, e, best as int);
            }
        }
        if edges[best].less_or_equal(found.edge_bar) {
            None
        } else {
            Some(best)
        }
    };
    Ok(LeadingAxes { face, edge })
}

/// Whether a face is the one that an edge axis runs along: aligned enough, and
/// the last of the most aligned ones.
pub open spec fn runs_along(alignments: Seq<Double>, at: int) -> bool {
    let bar = Double { bits: EDGE_FACE_ALIGNMENT };
    &&& 0 <= at < alignments.len()
    &&& bar.at_most(alignments[at])
    &&& forall|j: int|
        #![trigger alignments[j]]
        0 <= j < alignments.len() && bar.at_most(alignments[j]) ==> alignments[j].total_key()
            <= alignments[at].total_key() && (j > at ==> alignments[j].total_key()
            < alignments[at].total_key())
}

/// The last of the faces that an edge axis runs most along, if it runs along any.
fn most_aligned(alignments: &Vec<Double>) -> (at: Option<usize>)
    ensures
        match at {
            Some(at) => runs_along(alignments@, at as int),
            None => forall|j: int|
                #![trigger alignments@[j]]
                0 <= j < alignments@.len() ==> !(Double {
                    bits: EDGE_FACE_ALIGNMENT,
                }).at_most(alignments@[j]),
        },
{
    let bar: Double = Double::from_bits(EDGE_FACE_ALIGNMENT);
    let mut best: Option<usize> = None;
    let mut i: usize = 0;
    while i < alignments.len()
        invariant
            i <= alignments@.len(),
            bar == (Double { bits: EDGE_FACE_ALIGNMENT }),
            match best {
                Some(at) => {
                    &&& at < i
                    &&& bar.at_most(alignments@[at as int])
                    &&& forall|j: int|
                        #![trigger alignments@[j]]
                        0 <= j < i && bar.at_most(alignments@[j]) ==> alignments@[j].total_key()
                            <= alignments@[at as int].total_key() && (j > at
                            ==> alignments@[j].total_key() < alignments@[at as int].total_key())
                },
                None => forall|j: int|
                    #![trigger alignments@[j]]
                    0 <= j < i ==> !bar.at_most(alignments@[j]),
            },
        decreases alignments@.len() - i,
    {
        if bar.less_or_equal(alignments[i]) {
            best = match best {
                Some(at) => if alignments[at].total_less_or_equal(alignments[i]) {
                    Some(i)
                } else {
                    Some(at)
                },
                None => Some(i),
            };
        }
        i += 1;
    }
    best
}

/// Picks the feature of two solids whose edge axis separates clearly further
/// than any face.
///
/// `own` and `other` hold the alignment of each face's axis with the edge axis,
/// and `supported` whether an edge of each solid lies along its side. Without
/// such edges a corner realizes the axis, and the best face still describes
/// the contact.
pub fn edge_feature(own: &Vec<Double>, other: &Vec<Double>, supported: bool) -> (feature:
    ConvexFeature)
    ensures
        match feature {
            ConvexFeature::AlignedFace(row) => row_listed(
                row,
                own@.len() as int,
                other@.len() as int,
            ) && runs_along(own@ + other@, position_of(row, own@.len() as int)),
            ConvexFeature::Edges => supported && forall|at: int|
                !#[trigger] runs_along(own@ + other@, at),
            ConvexFeature::Face => !supported && forall|at: int|
                !#[trigger] runs_along(own@ + other@, at),
        },
{
    let mut alignments: Vec<Double> = Vec::new();
    let mut i: usize = 0;
    while i < own.len()
        invariant
            i <= own@.len(),
            alignments@ =~= own@.take(i as int),
        decreases own@.len() - i,
    {
        alignments.push(own[i]);
        i += 1;
    }
    let mut k: usize = 0;
    while k < other.len()
        invariant
            k <= other@.len(),
            alignments@ =~= own@ + other@.take(k as int),
        decreases other@.len() - k,
    {
        alignments.push(other[k]);
        k += 1;
    }
    assert(alignments@ =~= own@ + other@);
    match most_aligned(&alignments) {
        Some(at) => if at < own.len() {
            ConvexFeature::AlignedFace(FaceRow::Own(at))
        } else {
            ConvexFeature::AlignedFace(FaceRow::Other(at - own.len()))
        },
        None => {
            assert forall|at: int| !#[trigger] runs_along(own@ + other@, at) by {
                if 0 <= at < alignments@.len() {
                    assert(alignments@[at] == (own@ + other@)[at]);
                }
            }
            if supported {
                ConvexFeature::Edges
            } else {
                ConvexFeature::Face
            }
        },
    }
}

/// A leading gap is no smaller than any other and larger than those before it.
pub proof fn the_leading_gap_is_the_greatest(gaps: Seq<Double>, at: int, j: int)
    requires
        leads(gaps, at),
        0 <= j < gaps.len(),
        gaps[at].finite(),
        gaps[j].finite(),
    ensures
        gaps[j].units() <= gaps[at].units(),
        j < at ==> gaps[j].units() < gaps[at].units(),
{
    doubles_compare_as_their_values(gaps[at], gaps[j]);
    doubles_compare_as_their_values(gaps[j], gaps[at]);
}

/// Of all faces of both solids the leading one has the greatest gap, own faces
/// before the other's; an edge axis replaces it exactly when its gap is the
/// greatest of the edges' and exceeds what the face asks for.
pub proof fn edges_replace_faces_when_clearly_further(
    own: Seq<FaceGap>,
    other: Seq<FaceGap>,
    edges: Seq<Double>,
    axes: LeadingAxes,
    j: int,
    e: int,
)
    requires
        axes_lead(own, other, edges, axes),
        forall|k: int|
            #![trigger own[k]]
            0 <= k < own.len() ==> own[k].gap.finite() && own[k].edge_bar.finite(),
        forall|k: int|
            #![trigger other[k]]
            0 <= k < other.len() ==> other[k].gap.finite() && other[k].edge_bar.finite(),
        forall|k: int| #![trigger edges[k]] 0 <= k < edges.len() ==> edges[k].finite(),
    ensures
        ({
            let face = match axes.face {
                FaceRow::Own(at) => own[at as int],
                FaceRow::Other(at) => other[at as int],
            };
            &&& axes.face is Own ==> axes.face->Own_0 < own.len()
            &&& axes.face is Other ==> axes.face->Other_0 < other.len()
            &&& 0 <= j < own.len() ==> own[j].gap.units() <= face.gap.units()
            &&& 0 <= j < other.len() ==> other[j].gap.units() <= face.gap.units()
            &&& 0 <= j < own.len() && axes.face is Other ==> own[j].gap.units() < face.gap.units()
            &&& axes.edge is Some ==> axes.edge->0 < edges.len() && edges[axes.edge->0 as int].units()
                > face.edge_bar.units()
            &&& axes.edge is Some && 0 <= e < edges.len() ==> edges[e].units()
                <= edges[axes.edge->0 as int].units()
            &&& axes.edge is None && leads(edges, e) ==> edges[e].units() <= face.edge_bar.units()
        }),
{
    let faces = own + other;
    let gaps = gaps_of(faces);
    let at = position_of(axes.face, own.len() as int);
    assert(gaps[at] == faces[at].gap);
    match axes.face {
        FaceRow::Own(row) => {
            assert(faces[at] == own[row as int]);
        },
        FaceRow::Other(row) => {
            assert(faces[at] == other[row as int]);
        },
    }
    if 0 <= j < own.len() {
        assert(faces[j] == own[j]);
        assert(gaps[j] == own[j].gap);
        the_leading_gap_is_the_greatest(gaps, at, j);
    }
    if 0 <= j < other.len() {
        assert(faces[own.len() + j] == other[j]);
        assert(gaps[own.len() + j] == other[j].gap);
        the_leading_gap_is_the_greatest(gaps, at, own.len() + j);
    }
    match axes.edge {
        Some(edge) => {
            assert(edges[edge as int].finite());
            doubles_compare_as_their_values(edges[edge as int], faces[at].edge_bar);
            if 0 <= e < edges.len() {
                the_leading_gap_is_the_greatest(edges, edge as int, e);
            }
        },
        None => {
            if leads(edges, e) {
                assert(edges[e].finite());
                doubles_compare_as_their_values(edges[e], faces[at].edge_bar);
            }
        },
    }
}

/// A face that an edge axis runs along is aligned with it to within a
/// thousandth, and none is more so; nor is one behind it just as much.
pub proof fn aligned_faces_are_the_most_aligned(alignments: Seq<Double>, at: int, j: int)
    requires
        forall|k: int|
            #![trigger alignments[k]]
            0 <= k < alignments.len() ==> alignments[k].finite(),
        0 <= j < alignments.len(),
    ensures
        double_rounds(EDGE_FACE_ALIGNMENT, 999, 1000),
        runs_along(alignments, at) ==> 0 <= at < alignments.len() && double_coded(
            EDGE_FACE_ALIGNMENT,
        ) <= alignments[at].units() && alignments[j].units() <= alignments[at].units() && (j > at
            ==> alignments[j] != alignments[at]),
        double_coded(EDGE_FACE_ALIGNMENT) <= alignments[j].units() && (forall|k: int|
            #![trigger alignments[k]]
            0 <= k < alignments.len() && k != j ==> alignments[k].units() < alignments[j].units())
            ==> runs_along(alignments, j),
{
    let bar = Double { bits: EDGE_FACE_ALIGNMENT };
    vstd::arithmetic::power2::lemma2_to64();
    vstd::arithmetic::power2::lemma_pow2_adds(32, 21);
    lemma_double_encoded(EDGE_FACE_ALIGNMENT, 999, 1000, 53);
    doubles_compare_as_their_values(bar, alignments[j]);
    if runs_along(alignments, at) {
        doubles_compare_as_their_values(bar, alignments[at]);
        doubles_compare_as_their_values(alignments[at], alignments[j]);
        all_double_patterns_stand_in_a_row(alignments[at], alignments[j]);
    }
    if double_coded(EDGE_FACE_ALIGNMENT) <= alignments[j].units() && forall|k: int|
        #![trigger alignments[k]]
        0 <= k < alignments.len() && k != j ==> alignments[k].units() < alignments[j].units() {
        assert forall|k: int|
            #![trigger alignments[k]]
            0 <= k < alignments.len() && bar.at_most(alignments[k]) implies alignments[k].total_key()
            <= alignments[j].total_key() && (k > j ==> alignments[k].total_key()
            < alignments[j].total_key()) by {
            if k != j {
                doubles_compare_as_their_values(alignments[k], alignments[j]);
                all_double_patterns_stand_in_a_row(alignments[k], alignments[j]);
            }
        }
    }
}

} // verus!
