use argmin::solver::gradientdescent::SteepestDescent;
use argmin::solver::linesearch::MoreThuenteLineSearch;
use nalgebra as na;
use slam_rs::{Correspondences, IcpError};

#[derive(Debug, Clone, Copy, PartialEq)]
struct Pose {
    x: f64,
    y: f64,
    theta: f64,
}

impl Pose {
    fn new(x: f64, y: f64, theta: f64) -> Self {
        Self { x, y, theta }
    }
}

impl argmin_math::ArgminMul<f64, Pose> for Pose {
    fn mul(&self, other: &f64) -> Pose {
        Pose::new(self.x * other, self.y * other, self.theta * other)
    }
}

impl argmin_math::ArgminScaledAdd<Pose, f64, Pose> for Pose {
    fn scaled_add(&self, factor: &f64, other: &Pose) -> Pose {
        Pose::new(
            self.x + factor * other.x,
            self.y + factor * other.y,
            self.theta + factor * other.theta,
        )
    }
}

impl argmin_math::ArgminDot<Pose, f64> for Pose {
    fn dot(&self, other: &Pose) -> f64 {
        self.x * other.x + self.y * other.y + self.theta * other.theta
    }
}

type Point = (f64, f64);

fn transform(pose: &Pose, points: &[Point]) -> Vec<Point> {
    let isometry = na::Isometry2::new(na::Vector2::new(pose.x, pose.y), pose.theta);
    points
        .iter()
        .map(|point| {
            let moved = (isometry * na::Translation2::new(point.0, point.1)).translation;
            (moved.x, moved.y)
        })
        .collect()
}

fn distance_squared(a: &Point, b: &Point) -> f64 {
    (a.0 - b.0).powi(2) + (a.1 - b.1).powi(2)
}

/// Registration of a scan against a reference cloud, with the matching
/// left to the correspondence table.
#[derive(Debug, Clone)]
struct Registration {
    scan: Vec<Point>,
    reference: Vec<Point>,
    pose: Pose,
    table: Correspondences,
}

impl Registration {
    fn new(scan: Vec<Point>, reference: Vec<Point>, pose: Pose) -> Result<Self, IcpError> {
        let table = Correspondences::new(scan.len(), reference.len())?;
        Ok(Self { scan, reference, pose, table })
    }

    fn data_correspondences(&mut self) {
        let distances: Vec<Vec<u64>> = transform(&self.pose, &self.scan)
            .iter()
            .map(|scan_point| {
                self.reference
                    .iter()
                    .map(|reference_point| {
                        distance_squared(scan_point, reference_point).sqrt().to_bits()
                    })
                    .collect()
            })
            .collect();
        self.table.data_correspondences(&distances, f64::MAX.to_bits());
    }

    fn distance_between_correspondences(&self, pose: &Pose) -> f64 {
        let mut distance = 0.0;
        for (i, scan_point) in transform(pose, &self.scan).iter().enumerate() {
            distance += distance_squared(scan_point, &self.reference[self.table.get(i)]);
        }
        distance / self.table.len() as f64
    }

    fn optimize_once(&mut self) {
        self.data_correspondences();
        let init_pose = self.pose;
        let solver = SteepestDescent::new(MoreThuenteLineSearch::new());
        let result = argmin::core::Executor::new(self.clone(), solver)
            .configure(|state| state.param(init_pose).max_iters(10).target_cost(0.0))
            .run()
            .unwrap();
        self.pose = result.state.best_param.unwrap();
    }

    fn scan_matching(&mut self, max_iterations: usize) {
        for _ in 0..max_iterations {
            self.optimize_once();
        }
    }
}

impl argmin::core::CostFunction for Registration {
    type Param = Pose;
    type Output = f64;

    fn cost(&self, param: &Self::Param) -> Result<Self::Output, argmin::core::Error> {
        Ok(self.distance_between_correspondences(param))
    }
}

impl argmin::core::Gradient for Registration {
    type Param = Pose;
    type Gradient = Pose;

    fn gradient(&self, param: &Self::Param) -> Result<Self::Gradient, argmin::core::Error> {
        let epsilon = 1e-6;
        let cost = |x: f64, y: f64, theta: f64| {
            self.distance_between_correspondences(&Pose::new(x, y, theta))
        };
        let grad_x = (cost(param.x + epsilon, param.y, param.theta)
            - cost(param.x - epsilon, param.y, param.theta))
            / (2.0 * epsilon);
        let grad_y = (cost(param.x, param.y + epsilon, param.theta)
            - cost(param.x, param.y - epsilon, param.theta))
            / (2.0 * epsilon);
        let grad_theta = (cost(param.x, param.y, param.theta + epsilon)
            - cost(param.x, param.y, param.theta - epsilon))
            / (2.0 * epsilon);
        Ok(Pose::new(grad_x, grad_y, grad_theta))
    }
}

/// The corner of two walls, each a metre long, seen from the corner.
fn corner_scan() -> Vec<Point> {
    let init_pose = Pose::new(0.0, 0.0, 0.0);
    let mut scan_points = vec![(init_pose.x, init_pose.y)];
    let wall_length = 1.0;
    let resolution = 20.0;
    for i in 1..(resolution as i32) {
        scan_points.push((init_pose.x, init_pose.y + wall_length / resolution * i as f64));
        scan_points.push((init_pose.x + wall_length / resolution * i as f64, init_pose.y));
    }
    scan_points
}

#[test]
fn test_icp() {
    let init_pose = Pose::new(0.0, 0.0, 0.0);
    let expected_pose = Pose::new(0.1, 0.1, 0.1);
    let scan_points = corner_scan();
    let reference_points = transform(&expected_pose, &scan_points);
    let mut icp_client = Registration::new(scan_points, reference_points, init_pose).unwrap();

    icp_client.scan_matching(5);

    println!("Estimated: {:?}", icp_client.pose);
    println!("Expected: {:?}", expected_pose);

    assert!((icp_client.pose.x - expected_pose.x).abs() < 1.0e-6);
    assert!((icp_client.pose.y - expected_pose.y).abs() < 1.0e-6);
    assert!(
        (icp_client.pose.theta % std::f64::consts::TAU
            - expected_pose.theta % std::f64::consts::TAU)
            .abs()
            < 1.0e-6
    );
}

#[test]
fn matching_a_moved_corner_pairs_each_point_with_its_image() {
    // Moved by less than half the spacing of the points, every point is
    // nearest to its own image.
    let scan_points = corner_scan();
    let reference_points = transform(&Pose::new(0.01, -0.01, 0.0), &scan_points);
    let mut icp_client =
        Registration::new(scan_points, reference_points, Pose::new(0.0, 0.0, 0.0)).unwrap();
    icp_client.data_correspondences();
    for i in 0..icp_client.table.len() {
        assert_eq!(icp_client.table.get(i), i);
    }
}

#[test]
fn registration_against_no_points_is_refused() {
    let refused = Registration::new(corner_scan(), Vec::new(), Pose::new(0.0, 0.0, 0.0));
    assert_eq!(refused.err(), Some(IcpError::EmptyReference));
}
