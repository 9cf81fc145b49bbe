//! Contact queries: measured here in double precision, decided by the library.

use bevy_math::{DQuat, DVec3, DVec4};
use mechanic_core::contact::clip::{clip, ClipCorner};
use mechanic_core::contact::interval::{ContactGeometryError, Interval};
use mechanic_core::contact::manifold::{reduce, spread_points};
use mechanic_core::contact::pair::{
    edge_feature, leading_axes, ConvexFeature, FaceGap, FaceRow,
};
use mechanic_core::contact::sweep::{
    activation_source, check_solid, check_sweep, furthest_axis, overlap, sweep_step,
    ActivationSource, AxisPass, Overlap, Prefix, SweepMeasure, SweepOutcome, SweepStep,
};
use mechanic_core::double::Double;

fn double(value: f64) -> Double {
    Double::from_bits(value.to_bits())
}

fn value(number: Double) -> f64 {
    f64::from_bits(number.to_bits())
}

struct Solid {
    vertices: Vec<DVec3>,
    planes: Vec<DVec4>,
    edges: Vec<DVec3>,
}

#[derive(Debug, PartialEq)]
struct Point {
    triangle_point: DVec3,
    body_point: DVec3,
    normal: DVec3,
    depth: f64,
}

#[derive(Debug)]
enum Feature {
    OwnFace(usize),
    OtherFace(usize),
    Edges([DVec3; 2]),
}

#[derive(Debug)]
struct Separation {
    axis: DVec3,
    separation: f64,
    feature: Feature,
}

type Query<T> = Result<T, ContactGeometryError>;

fn cuboid(half: DVec3) -> Solid {
    let mut planes = Vec::new();
    for (axis, extent) in [DVec3::X, DVec3::Y, DVec3::Z].into_iter().zip(half.to_array()) {
        for sign in [-1.0, 1.0] {
            planes.push((axis * sign).extend(extent));
        }
    }
    let vertices = (0..8)
        .map(|corner| {
            let sign = |bit: u32| if corner & bit == 0 { -1.0 } else { 1.0 };
            half * DVec3::new(sign(1), sign(2), sign(4))
        })
        .collect();
    Solid {
        vertices,
        planes,
        edges: vec![DVec3::X, DVec3::Y, DVec3::Z],
    }
}

fn cube() -> Solid {
    cuboid(DVec3::splat(0.5))
}

fn floor() -> [DVec3; 3] {
    [
        DVec3::new(-10.0, 0.0, -10.0),
        DVec3::new(0.0, 0.0, 10.0),
        DVec3::new(10.0, 0.0, -10.0),
    ]
}

fn triangle_normal(triangle: [DVec3; 3]) -> Query<DVec3> {
    if triangle.iter().any(|corner| !corner.is_finite()) {
        return Err(ContactGeometryError);
    }
    (triangle[1] - triangle[0])
        .cross(triangle[2] - triangle[0])
        .try_normalize()
        .ok_or(ContactGeometryError)
}

fn project(points: &[DVec3], axis: DVec3) -> [f64; 2] {
    points
        .iter()
        .fold([f64::INFINITY, f64::NEG_INFINITY], |[low, high], point| {
            let distance = point.dot(axis);
            [low.min(distance), high.max(distance)]
        })
}

fn tangents(normal: DVec3) -> [DVec3; 2] {
    let reference = if normal.y.abs() > 0.9 {
        DVec3::X
    } else {
        DVec3::Y
    };
    let u = reference.cross(normal).normalize();
    [u, normal.cross(u)]
}

fn diagonals(normal: DVec3) -> [DVec3; 4] {
    let [u, v] = tangents(normal);
    [u + v, u - v, -u - v, -u + v]
}

fn near(points: &[DVec3]) -> Vec<Vec<bool>> {
    points
        .iter()
        .map(|a| points.iter().map(|b| a.distance(*b) < 1e-5).collect())
        .collect()
}

fn heights(points: &[DVec3], normal: DVec3) -> Vec<Vec<Double>> {
    diagonals(normal)
        .iter()
        .map(|direction| {
            points
                .iter()
                .map(|point| double(point.dot(*direction)))
                .collect()
        })
        .collect()
}

impl Solid {
    fn transformed(&self, position: DVec3, rotation: DQuat) -> Self {
        let rotation = rotation.normalize();
        Solid {
            vertices: self
                .vertices
                .iter()
                .map(|vertex| position + rotation * *vertex)
                .collect(),
            planes: self
                .planes
                .iter()
                .map(|plane| {
                    let normal = rotation * plane.truncate();
                    normal.extend(plane.w + normal.dot(position))
                })
                .collect(),
            edges: self.edges.iter().map(|edge| rotation * *edge).collect(),
        }
    }

    fn triangle_contacts(&self, triangle: [DVec3; 3]) -> Query<Vec<Point>> {
        let normal = triangle_normal(triangle)?;
        let mut polygon = triangle.to_vec();
        for plane in &self.planes {
            let distances = polygon
                .iter()
                .map(|corner| double(plane.truncate().dot(*corner) - plane.w))
                .collect::<Vec<_>>();
            let side = |at: usize| {
                let next = (at + 1) % polygon.len();
                let from = value(distances[at]);
                let share = from / (from - value(distances[next]));
                polygon[at].lerp(polygon[next], share)
            };
            polygon = clip(&distances)
                .into_iter()
                .map(|corner| match corner {
                    ClipCorner::Kept(at) => polygon[at],
                    ClipCorner::Crossing(at) => side(at),
                })
                .collect();
            if polygon.is_empty() {
                return Ok(Vec::new());
            }
        }
        let kept = spread_points(&heights(&polygon, normal), &near(&polygon));
        Ok(kept
            .into_iter()
            .map(|at| {
                let point = polygon[at];
                let lower = self
                    .planes
                    .iter()
                    .filter(|plane| plane.truncate().dot(normal) < -1e-12)
                    .map(|plane| {
                        (plane.w - plane.truncate().dot(point)) / plane.truncate().dot(normal)
                    })
                    .fold(f64::NEG_INFINITY, f64::max);
                let depth = (-lower).max(0.0);
                Point {
                    triangle_point: point,
                    body_point: point - depth * normal,
                    normal,
                    depth,
                }
            })
            .collect())
    }

    fn directions(&self, triangle: [DVec3; 3]) -> Query<Vec<DVec3>> {
        let mut all = vec![triangle_normal(triangle)?];
        all.extend(self.planes.iter().map(|plane| plane.truncate()));
        for edge in &self.edges {
            for side in 0..3 {
                all.push(edge.cross(triangle[(side + 1) % 3] - triangle[side]));
            }
        }
        Ok(all.into_iter().filter_map(DVec3::try_normalize).collect())
    }

    fn translation_interval(
        &self,
        triangle: [DVec3; 3],
        displacement: DVec3,
    ) -> Query<Option<[f64; 2]>> {
        if !displacement.is_finite() {
            return Err(ContactGeometryError);
        }
        let axes = self
            .directions(triangle)?
            .into_iter()
            .map(|axis| {
                let body = project(&self.vertices, axis);
                let surface = project(&triangle, axis);
                let speed = axis.dot(displacement);
                let low = surface[0] - body[1];
                let high = surface[1] - body[0];
                if speed == 0.0 {
                    AxisPass::Still {
                        low: double(low),
                        high: double(high),
                    }
                } else {
                    let (a, b) = (low / speed, high / speed);
                    AxisPass::Moving {
                        entry: double(a.min(b)),
                        exit: double(a.max(b)),
                    }
                }
            })
            .collect();
        Ok(overlap(&axes).map(|Overlap { start, end }| [value(start), value(end)]))
    }

    fn triangle_separation(&self, triangle: [DVec3; 3]) -> Query<f64> {
        let mut gaps = Vec::new();
        for direction in self.directions(triangle)? {
            let body = project(&self.vertices, direction);
            let surface = project(&triangle, direction);
            gaps.push(double(surface[0] - body[1]));
            gaps.push(double(body[0] - surface[1]));
        }
        Ok(furthest_axis(&gaps).map_or(f64::NEG_INFINITY, |at| value(gaps[at])))
    }

    fn sweep(
        &self,
        triangle: [DVec3; 3],
        position: DVec3,
        translation: DVec3,
        turn: DVec3,
        tolerance: f64,
        most: usize,
    ) -> Query<SweepOutcome> {
        triangle_normal(triangle)?;
        let usable = position.is_finite() && translation.is_finite() && turn.is_finite();
        check_sweep(usable, double(tolerance), most)?;
        let radius = self
            .vertices
            .iter()
            .map(|point| point.length())
            .fold(0.0, f64::max);
        let speed_bound = translation.length() + turn.length() * radius;
        let mut fraction = 0.0;
        for evaluations in 1..=most {
            let body = self.transformed(
                position + translation * fraction,
                DQuat::from_scaled_axis(turn * fraction),
            );
            let separation = body.triangle_separation(triangle)?;
            let measure = SweepMeasure {
                fraction: double(fraction),
                separation: double(separation),
                speed_bound: double(speed_bound),
                reach: double(speed_bound * (1.0 - fraction)),
                next: double(fraction + separation / speed_bound),
            };
            match sweep_step(measure, double(tolerance), evaluations, most) {
                SweepStep::End(outcome) => return Ok(outcome),
                SweepStep::Advance(next) => fraction = value(next),
            }
        }
        unreachable!("the last evaluation ends a sweep")
    }

    fn face_gaps(&self, other: &Solid, towards: f64) -> Vec<(FaceGap, DVec3)> {
        self.planes
            .iter()
            .map(|plane| {
                let normal = plane.truncate().normalize();
                let gap = project(&other.vertices, normal)[0] - project(&self.vertices, normal)[1];
                let face = FaceGap {
                    has_normal: true,
                    axis_finite: normal.is_finite(),
                    gap: double(gap),
                    edge_bar: double(gap + 1e-6),
                };
                (face, normal * towards)
            })
            .collect()
    }

    fn support_edge(&self, direction: DVec3, edge: DVec3) -> Option<[DVec3; 2]> {
        let support = project(&self.vertices, direction)[1];
        let supporting = self
            .vertices
            .iter()
            .copied()
            .filter(|vertex| vertex.dot(direction) >= support - 1e-6)
            .collect::<Vec<_>>();
        let mut best: Option<[DVec3; 2]> = None;
        for (index, &a) in supporting.iter().enumerate() {
            for &b in &supporting[index + 1..] {
                let span = b - a;
                if span.length() > 1e-6
                    && span.normalize().cross(edge).length() < 1e-6
                    && best.is_none_or(|[c, d]| span.length() > c.distance(d))
                {
                    best = Some([a, b]);
                }
            }
        }
        best
    }

    fn convex_separation(&self, other: &Solid) -> Query<Separation> {
        let own = self.face_gaps(other, -1.0);
        let theirs = other.face_gaps(self, 1.0);
        let mut crossings = Vec::new();
        for own_edge in &self.edges {
            for other_edge in &other.edges {
                let cross = own_edge.cross(*other_edge);
                if cross.length_squared() < 1e-12 {
                    continue;
                }
                let axis = cross.normalize();
                let a = project(&self.vertices, axis);
                let b = project(&other.vertices, axis);
                crossings.push((axis, a[0] - b[1], *own_edge, *other_edge));
                crossings.push((-axis, b[0] - a[1], *own_edge, *other_edge));
            }
        }
        let axes = leading_axes(
            &own.iter().map(|face| face.0).collect(),
            &theirs.iter().map(|face| face.0).collect(),
            &crossings.iter().map(|row| double(row.1)).collect(),
        )?;
        let face = |row: FaceRow| match row {
            FaceRow::Own(at) => Separation {
                axis: own[at].1,
                separation: value(own[at].0.gap),
                feature: Feature::OwnFace(at),
            },
            FaceRow::Other(at) => Separation {
                axis: theirs[at].1,
                separation: value(theirs[at].0.gap),
                feature: Feature::OtherFace(at),
            },
        };
        let Some(edge) = axes.edge else {
            return Ok(face(axes.face));
        };
        let (axis, separation, own_edge, other_edge) = crossings[edge];
        let supports = (
            self.support_edge(-axis, own_edge),
            other.support_edge(axis, other_edge),
        );
        let aligned = |faces: &[(FaceGap, DVec3)]| {
            faces
                .iter()
                .map(|face| double(face.1.dot(axis)))
                .collect::<Vec<_>>()
        };
        let feature = match edge_feature(
            &aligned(&own),
            &aligned(&theirs),
            supports.0.is_some() && supports.1.is_some(),
        ) {
            ConvexFeature::Face => return Ok(face(axes.face)),
            ConvexFeature::AlignedFace(row) => face(row).feature,
            ConvexFeature::Edges => Feature::Edges(closest_points(
                supports.0.unwrap(),
                supports.1.unwrap(),
            )),
        };
        Ok(Separation {
            axis,
            separation,
            feature,
        })
    }
}

fn closest_points(first: [DVec3; 2], second: [DVec3; 2]) -> [DVec3; 2] {
    let a = first[1] - first[0];
    let b = second[1] - second[0];
    let offset = first[0] - second[0];
    let alignment = a.dot(b);
    let denominator = a.length_squared() * b.length_squared() - alignment * alignment;
    let on_first = ((alignment * b.dot(offset) - a.dot(offset) * b.length_squared()) / denominator)
        .clamp(0.0, 1.0);
    let on_second = (alignment * on_first + b.dot(offset)) / b.length_squared();
    [first[0] + a * on_first, second[0] + b * on_second]
}

#[test]
fn resting_box_retains_four_finite_supports_with_measured_depth() {
    let body = cube().transformed(DVec3::Y * 0.499, DQuat::IDENTITY);
    let points = body.triangle_contacts(floor()).unwrap();
    assert_eq!(points.len(), 4);
    for point in points {
        assert!((point.depth - 0.001).abs() < 1e-12);
        assert!(point.normal.abs_diff_eq(DVec3::Y, 1e-12));
        assert!(point.body_point.y.abs() <= 0.001 + 1e-12);
        assert!(point.triangle_point.y.abs() < 1e-12);
    }
}

#[test]
fn finite_edges_holes_and_below_surface_separation_produce_no_contact() {
    let triangle = [DVec3::ZERO, DVec3::Z, DVec3::X];
    for position in [
        DVec3::new(4.0, 0.0, 0.0),
        DVec3::new(0.1, -2.0, 0.1),
        DVec3::new(0.1, 2.0, 0.1),
    ] {
        let body = cube().transformed(position, DQuat::IDENTITY);
        assert!(body.triangle_contacts(triangle).unwrap().is_empty());
    }
    let body = cube().transformed(DVec3::new(4.0, 2.0, 0.0), DQuat::IDENTITY);
    assert!(body
        .translation_interval(triangle, -DVec3::Y * 4.0)
        .unwrap()
        .is_none());
}

#[test]
fn oblique_contacts_have_points_on_both_actual_surfaces() {
    let body = cube().transformed(DVec3::Y * 0.2, DQuat::from_rotation_z(0.67));
    let triangle = [
        DVec3::new(-0.3, 0.0, -1.0),
        DVec3::new(0.0, 0.0, 1.0),
        DVec3::new(0.3, 0.0, -1.0),
    ];
    let contacts = body.triangle_contacts(triangle).unwrap();
    assert!(contacts.len() >= 3);
    for point in contacts {
        let mut on_surface = false;
        for plane in &body.planes {
            let error = plane.truncate().dot(point.body_point) - plane.w;
            assert!(error <= 1e-12, "body point outside convex: {error}");
            on_surface |= error.abs() < 1e-12;
        }
        assert!(on_surface);
        for edge in 0..3 {
            assert!(
                (triangle[(edge + 1) % 3] - triangle[edge])
                    .cross(point.triangle_point - triangle[edge])
                    .dot(point.normal)
                    >= -1e-12
            );
        }
    }
}

#[test]
fn continuous_translation_finds_fast_crossing_even_when_both_endpoints_are_clear() {
    let body = cube().transformed(DVec3::Y * 10.0, DQuat::IDENTITY);
    assert!(body.triangle_contacts(floor()).unwrap().is_empty());
    let [entry, exit] = body
        .translation_interval(floor(), -DVec3::Y * 20.0)
        .unwrap()
        .unwrap();
    assert!((entry - 0.475).abs() < 1e-12);
    assert!((exit - 0.525).abs() < 1e-12);
    let impact = cube().transformed(DVec3::Y * (10.0 - 20.0 * entry), DQuat::IDENTITY);
    assert_eq!(impact.triangle_contacts(floor()).unwrap().len(), 4);
}

#[test]
fn invalid_triangle_and_motion_are_errors_instead_of_missing_contacts() {
    assert_eq!(
        cube().triangle_contacts([DVec3::ZERO; 3]),
        Err(ContactGeometryError)
    );
    assert_eq!(
        cube().translation_interval(floor(), DVec3::splat(f64::NAN)),
        Err(ContactGeometryError)
    );
}

#[test]
fn rotational_sweep_finds_an_impact_hidden_by_identical_endpoint_poses() {
    let bar = cuboid(DVec3::new(2.0, 0.125, 0.125));
    let position = DVec3::Y;
    assert!(bar
        .transformed(position, DQuat::IDENTITY)
        .triangle_contacts(floor())
        .unwrap()
        .is_empty());
    let SweepOutcome::Impact {
        fraction,
        separation,
        ..
    } = bar
        .sweep(
            floor(),
            position,
            DVec3::ZERO,
            DVec3::Z * std::f64::consts::TAU,
            1e-9,
            128,
        )
        .unwrap()
    else {
        panic!("full rotation must hit the floor");
    };
    let fraction = value(fraction);
    let angle = (1.0 / 2.0_f64.hypot(0.125)).asin() - (0.125_f64 / 2.0).atan();
    assert!((fraction - angle / std::f64::consts::TAU).abs() < 1e-9);
    assert!(value(separation) <= 1e-9);
    assert!(fraction > 0.0 && fraction < 0.25);
}

#[test]
fn conservative_sweep_matches_exact_translation_and_reports_exhaustion() {
    let position = DVec3::Y * 10.0;
    let down = -DVec3::Y * 20.0;
    let sweep = |triangle, position, most| {
        cube()
            .sweep(triangle, position, down, DVec3::ZERO, 1e-10, most)
            .unwrap()
    };
    let SweepOutcome::Impact { fraction, .. } = sweep(floor(), position, 16) else {
        panic!("translation crosses floor");
    };
    assert!((value(fraction) - 0.475).abs() < 1e-12);
    assert!(matches!(
        sweep(floor(), position, 1),
        SweepOutcome::Unconverged { .. }
    ));
    let finite = [DVec3::ZERO, DVec3::Z, DVec3::X];
    assert!(matches!(
        sweep(finite, position + DVec3::X * 4.0, 128),
        SweepOutcome::Separated { .. }
    ));
}

#[test]
fn resting_boxes_are_separated_by_one_of_their_touching_faces() {
    let lower = cube();
    let upper = cube().transformed(DVec3::Y * 0.999, DQuat::IDENTITY);
    let separation = upper.convex_separation(&lower).unwrap();
    assert!((separation.separation + 0.001).abs() < 1e-12);
    assert!(separation.axis.abs_diff_eq(DVec3::Y, 1e-12));
    let (face, outward) = match separation.feature {
        Feature::OtherFace(row) => (lower.planes[row], DVec3::Y),
        Feature::OwnFace(row) => (upper.planes[row], -DVec3::Y),
        Feature::Edges(_) => panic!("parallel faces cannot select an edge axis"),
    };
    assert!(face.truncate().abs_diff_eq(outward, 1e-12));
    let reversed = lower.convex_separation(&upper).unwrap();
    assert!((reversed.separation + 0.001).abs() < 1e-12);
    assert!(reversed.axis.abs_diff_eq(-DVec3::Y, 1e-12));
}

#[test]
fn crossed_edges_meet_at_one_point_on_their_cross_axis() {
    let lower = cube().transformed(
        DVec3::ZERO,
        DQuat::from_rotation_x(std::f64::consts::FRAC_PI_4),
    );
    let half_diagonal = std::f64::consts::FRAC_1_SQRT_2;
    let upper = cube().transformed(
        DVec3::Y * (2.0 * half_diagonal + 0.01),
        DQuat::from_rotation_z(std::f64::consts::FRAC_PI_4),
    );
    let separation = upper.convex_separation(&lower).unwrap();
    assert!((separation.separation - 0.01).abs() < 1e-9);
    assert!(separation.axis.abs_diff_eq(DVec3::Y, 1e-9));
    let Feature::Edges([own, theirs]) = separation.feature else {
        panic!("expected crossed edges, got {:?}", separation.feature);
    };
    assert!(own.abs_diff_eq(DVec3::Y * (half_diagonal + 0.01), 1e-9));
    assert!(theirs.abs_diff_eq(DVec3::Y * half_diagonal, 1e-9));
}

#[test]
fn a_slightly_tilted_box_over_a_ledge_rests_on_a_face_not_a_crossed_edge() {
    let lower = cube();
    let tilt = DQuat::from_rotation_z(-0.003);
    let upper = cube().transformed(DVec3::new(0.35, 0.999 + 0.15 * 0.003, 0.0), tilt);
    let separation = upper.convex_separation(&lower).unwrap();
    assert!(
        !matches!(separation.feature, Feature::Edges(_)),
        "{separation:?}"
    );
    assert!(separation.axis.y > 0.999, "{separation:?}");
    assert!(separation.separation < 0.0 && separation.separation > -0.002);
}

#[test]
fn faces_without_a_normal_or_a_finite_gap_are_errors() {
    let face = |has_normal, gap| FaceGap {
        has_normal,
        axis_finite: true,
        gap: double(gap),
        edge_bar: double(gap),
    };
    let none = Vec::new();
    assert_eq!(
        leading_axes(&vec![], &vec![], &none),
        Err(ContactGeometryError)
    );
    assert_eq!(
        leading_axes(&vec![face(true, 1.0)], &vec![face(false, 0.0)], &none),
        Err(ContactGeometryError)
    );
    assert_eq!(
        leading_axes(&vec![face(true, f64::NAN), face(true, 1.0)], &vec![], &none),
        Err(ContactGeometryError)
    );
    let found = leading_axes(
        &vec![face(true, -1.0), face(true, 2.0)],
        &vec![face(true, 2.0)],
        &vec![double(2.0), double(3.0), double(3.0)],
    )
    .unwrap();
    assert_eq!(found.face, FaceRow::Own(1));
    assert_eq!(found.edge, Some(1));
}

#[test]
fn many_points_reduce_to_their_extremes_and_the_deepest() {
    let points = (0..9)
        .map(|at| DVec3::new(f64::from(at % 3), 0.0, f64::from(at / 3)))
        .collect::<Vec<_>>();
    let separations = (0..9)
        .map(|at| double(if at == 4 { -1.0 } else { 0.0 }))
        .collect::<Vec<_>>();
    let kept = reduce(&separations, &heights(&points, DVec3::Y), &near(&points));
    assert_eq!(kept.len(), 5);
    assert_eq!(kept[4], 4);
    let mut corners = kept[..4].to_vec();
    corners.sort_unstable();
    assert_eq!(corners, vec![0, 2, 6, 8]);
}

#[test]
fn points_in_one_place_keep_the_deeper_one() {
    let points = vec![DVec3::ZERO, DVec3::X, DVec3::X * 1e-6];
    let separations = vec![double(0.5), double(0.0), double(0.25)];
    let kept = reduce(&separations, &heights(&points, DVec3::Y), &near(&points));
    assert_eq!(kept, vec![2, 1]);
}

#[test]
fn a_prefix_narrows_towards_what_is_certified() {
    let mut prefix = Prefix {
        lower: double(0.0),
        upper: double(1.0),
    };
    for _ in 0..48 {
        let (low, high) = (value(prefix.lower), value(prefix.upper));
        let middle = low + (high - low) * 0.5;
        prefix = prefix.narrowed(double(middle), middle <= 0.3);
    }
    assert!(value(prefix.lower) <= 0.3);
    assert!(value(prefix.upper) > 0.3);
    assert!(value(prefix.upper) - value(prefix.lower) < 1e-14);
}

#[test]
fn activation_prefers_intersections_then_nearby_points_then_corners() {
    let gap = double(1e-6);
    let decide = |intersecting, near: Option<Vec<f64>>| {
        let gaps = near.map(|gaps| gaps.into_iter().map(double).collect());
        activation_source(gap, intersecting, &gaps)
    };
    assert_eq!(decide(true, None), Ok(ActivationSource::Intersection));
    assert_eq!(
        decide(false, Some(vec![])),
        Ok(ActivationSource::VerticesOrNothing)
    );
    assert_eq!(
        decide(false, Some(vec![1e-7, 1e-6])),
        Ok(ActivationSource::Proximity)
    );
    assert_eq!(
        decide(false, Some(vec![1e-7, 2e-6])),
        Ok(ActivationSource::Vertices)
    );
    assert_eq!(decide(false, None), Ok(ActivationSource::Vertices));
    assert_eq!(
        activation_source(double(0.0), false, &None),
        Err(ContactGeometryError)
    );
}

#[test]
fn a_solid_needs_corners_faces_and_edges() {
    let rows = |count: usize| vec![true; count];
    assert_eq!(check_solid(&rows(4), &rows(4), &rows(3)), Ok(()));
    assert_eq!(
        check_solid(&rows(3), &rows(4), &rows(3)),
        Err(ContactGeometryError)
    );
    assert_eq!(
        check_solid(&rows(4), &vec![true, true, false, true], &rows(3)),
        Err(ContactGeometryError)
    );
}

#[test]
fn neighbouring_numbers_match_the_platform() {
    for number in [
        0.0,
        -0.0,
        1.0,
        -1.0,
        f64::MIN_POSITIVE,
        -f64::from_bits(1),
        f64::MAX,
        f64::MIN,
        f64::INFINITY,
        f64::NEG_INFINITY,
    ] {
        assert_eq!(
            double(number).next_up().to_bits(),
            number.next_up().to_bits()
        );
        assert_eq!(
            double(number).next_down().to_bits(),
            number.next_down().to_bits()
        );
    }
}

#[test]
fn intervals_round_outward_and_refuse_what_is_not_finite() {
    let sum = Interval::outward(double(0.1 + 0.2), double(0.1 + 0.2));
    assert!(value(sum.lo) < 0.1 + 0.2 && value(sum.hi) > 0.1 + 0.2);
    assert_eq!(sum.finite(), Ok(sum));
    let overflow = Interval::outward(double(f64::MAX), double(f64::INFINITY));
    assert_eq!(overflow.finite(), Err(ContactGeometryError));
    let undefined = Interval::of_products([double(1.0), double(f64::NAN), double(0.0), double(2.0)]);
    assert_eq!(value(undefined.lo), f64::NEG_INFINITY);
    assert_eq!(value(undefined.hi), f64::INFINITY);
    let crossing = Interval {
        lo: double(-3.0),
        hi: double(2.0),
    };
    assert_eq!(value(crossing.abs().lo), 0.0);
    assert_eq!(value(crossing.abs().hi), 3.0);
    assert_eq!(value(crossing.rooted().unwrap().lo), 0.0);
    assert_eq!(crossing.divides(), Err(ContactGeometryError));
}
