//! The equilibrium solver: configuration errors, convergence, the slope
//! clamp, and the base-elevation shift.

use fastlem::generator::{GenerationError, TerrainGenerator};
use fastlem::parameters::TopographicalParameters;
use fastlem::terrain::{Site2D, TerrainModel2D};
use terrain_graph::edge_attributed_undirected::EdgeAttributedUndirectedGraph;

/// A w-by-h lattice with unit cell areas; 4-neighbor connectivity.
fn lattice_model(w: usize, h: usize, spacing: i64) -> TerrainModel2D {
    let n = w * h;
    let mut sites = Vec::with_capacity(n);
    for y in 0..h {
        for x in 0..w {
            sites.push(Site2D::new(x as i64 * spacing, y as i64 * spacing));
        }
    }
    let mut graph: EdgeAttributedUndirectedGraph<u64> = EdgeAttributedUndirectedGraph::new(n);
    for y in 0..h {
        for x in 0..w {
            let i = y * w + x;
            if x + 1 < w {
                let j = y * w + x + 1;
                graph.add_edge(i, j, sites[i].distance(&sites[j]));
            }
            if y + 1 < h {
                let j = (y + 1) * w + x;
                graph.add_edge(i, j, sites[i].distance(&sites[j]));
            }
        }
    }
    let areas = vec![1u64; n];
    TerrainModel2D::new(sites, areas, graph, vec![0])
}

fn uniform_params(n: usize) -> Vec<TopographicalParameters> {
    (0..n)
        .map(|i| {
            TopographicalParameters::default()
                .set_base_elevation(0)
                .set_erodibility(1)
                .set_uplift_rate(1)
                .set_is_outlet(i == 0)
        })
        .collect()
}

#[test]
fn missing_model_and_parameters_are_rejected() {
    let r = TerrainGenerator::default().generate();
    assert_eq!(r.err(), Some(GenerationError::ModelNotSet));

    let model = lattice_model(3, 3, 100);
    let r = TerrainGenerator::default().set_model(model).generate();
    assert_eq!(r.err(), Some(GenerationError::ParametersNotSet));
}

#[test]
fn parameter_count_must_match() {
    let model = lattice_model(3, 3, 100);
    let r = TerrainGenerator::default()
        .set_model(model)
        .set_parameters(uniform_params(8))
        .generate();
    assert_eq!(r.err(), Some(GenerationError::InvalidNumberOfParameters));
}

#[test]
fn out_of_range_parameters_are_rejected() {
    let model = lattice_model(3, 3, 100);
    let mut params = uniform_params(9);
    params[4] = params[4].set_erodibility(0);
    let r = TerrainGenerator::default()
        .set_model(model)
        .set_parameters(params)
        .generate();
    assert_eq!(r.err(), Some(GenerationError::InvalidParameters));
}

#[test]
fn zero_length_edges_make_the_model_invalid() {
    let n = 2;
    let sites = vec![Site2D::new(0, 0), Site2D::new(0, 0)];
    let mut graph: EdgeAttributedUndirectedGraph<u64> = EdgeAttributedUndirectedGraph::new(n);
    graph.add_edge(0, 1, 0);
    let model = TerrainModel2D::new(sites, vec![1, 1], graph, vec![0]);
    let r = TerrainGenerator::default()
        .set_model(model)
        .set_parameters(uniform_params(n))
        .generate();
    assert_eq!(r.err(), Some(GenerationError::InvalidModel));
}

#[test]
fn no_outlet_anywhere_is_rejected() {
    let n = 2;
    let sites = vec![Site2D::new(0, 0), Site2D::new(100, 0)];
    let mut graph: EdgeAttributedUndirectedGraph<u64> = EdgeAttributedUndirectedGraph::new(n);
    graph.add_edge(0, 1, 100);
    let model = TerrainModel2D::new(sites, vec![1, 1], graph, vec![]);
    let mut params = uniform_params(n);
    params[0] = params[0].set_is_outlet(false);
    let r = TerrainGenerator::default()
        .set_model(model)
        .set_parameters(params)
        .generate();
    assert_eq!(r.err(), Some(GenerationError::EmptyOutlets));
}

#[test]
fn disconnected_sites_are_rejected() {
    let n = 4;
    let sites = vec![
        Site2D::new(0, 0),
        Site2D::new(100, 0),
        Site2D::new(0, 100),
        Site2D::new(100, 100),
    ];
    let mut graph: EdgeAttributedUndirectedGraph<u64> = EdgeAttributedUndirectedGraph::new(n);
    graph.add_edge(0, 1, 100);
    graph.add_edge(2, 3, 100);
    let model = TerrainModel2D::new(sites, vec![1; 4], graph, vec![0]);
    let r = TerrainGenerator::default()
        .set_model(model)
        .set_parameters(uniform_params(n))
        .generate();
    assert_eq!(r.err(), Some(GenerationError::Disconnected));
}

#[test]
fn uniform_inputs_converge_and_reproduce() {
    // a 5x5 lattice, one corner outlet, uniform uplift and erodibility:
    // the solve must converge and must be exactly reproducible
    let run = || {
        let model = lattice_model(5, 5, 100);
        let (terrain, converged) = TerrainGenerator::default()
            .set_model(model)
            .set_parameters(uniform_params(25))
            .set_max_iteration(500)
            .generate()
            .unwrap();
        (terrain.elevations().clone(), converged)
    };
    let (e1, c1) = run();
    let (e2, c2) = run();
    assert!(c1);
    assert!(c2);
    assert_eq!(e1, e2);
    // the converged field, pinned: exact reproducibility is part of the
    // design (deterministic tie-breaks, no randomness)
    let golden: Vec<i64> = vec![
        0, 25, 58, 91, 141, 50, 75, 108, 141, 191, 150, 175, 208, 241, 291, 250, 275, 308,
        341, 391, 350, 375, 408, 441, 491,
    ];
    assert_eq!(e1, golden);
    // the outlet keeps its base elevation; everything else sits above it
    assert_eq!(e1[0], 0);
    for i in 1..25 {
        assert!(e1[i] > 0);
    }
}

#[test]
fn successive_iterates_stabilize() {
    // the k-th run with the iteration bound k is the k-th iterate; the
    // sequence of iterates must reach a fixed point
    let field_at = |k: u32| {
        let model = lattice_model(4, 4, 100);
        let (terrain, _) = TerrainGenerator::default()
            .set_model(model)
            .set_parameters(uniform_params(16))
            .set_max_iteration(k)
            .generate()
            .unwrap();
        terrain.elevations().clone()
    };
    let converged = {
        let model = lattice_model(4, 4, 100);
        let (terrain, c) = TerrainGenerator::default()
            .set_model(model)
            .set_parameters(uniform_params(16))
            .set_max_iteration(500)
            .generate()
            .unwrap();
        assert!(c);
        terrain.elevations().clone()
    };
    let mut k = 1;
    let mut prev = field_at(1);
    let mut prev_delta = i64::MAX;
    loop {
        let f = field_at(k + 1);
        let delta = (0..16).map(|i| (f[i] - prev[i]).abs()).max().unwrap();
        assert!(delta <= prev_delta, "deltas grew between iterates");
        if f == converged && delta == 0 {
            break;
        }
        prev = f;
        prev_delta = delta;
        k += 1;
        assert!(k < 500, "iterates did not stabilize");
    }
}

#[test]
fn slope_clamp_output_is_a_fixed_point() {
    // with a tight maximum slope the clamped solution, fed back in as the
    // base elevations, re-runs to itself: a fixed point, no oscillation
    let max_slope = Some(16384u64); // tangent 0.25 on the fixed-point scale
    let solve = |base: &[i64]| {
        let model = lattice_model(4, 4, 100);
        let params: Vec<TopographicalParameters> = (0..16)
            .map(|i| {
                TopographicalParameters::default()
                    .set_base_elevation(base[i])
                    .set_erodibility(1)
                    .set_uplift_rate(1)
                    .set_is_outlet(i == 0)
                    .set_max_slope(max_slope)
            })
            .collect();
        let (terrain, converged) = TerrainGenerator::default()
            .set_model(model)
            .set_parameters(params)
            .set_max_iteration(500)
            .generate()
            .unwrap();
        assert!(converged);
        terrain.elevations().clone()
    };
    let first = solve(&[0i64; 16]);
    let second = solve(&first);
    assert_eq!(first, second);
    // and the clamp really bit: along the flow of the converged field no
    // edge rises more than the clamped slope allows
    let model = lattice_model(4, 4, 100);
    let tree = fastlem::stream_tree::StreamTree::construct(16, &first, model.graph(), &vec![0])
        .unwrap();
    for i in 1..16usize {
        let j = tree.get_next(i);
        assert!(first[i] - first[j] <= 100 * 16384 / 65536);
    }
}

#[test]
fn base_shift_moves_the_whole_field() {
    // adding a constant to every base elevation shifts every converged
    // elevation by exactly that constant on a lake-free configuration
    let solve = |offset: i64| {
        let model = lattice_model(4, 4, 100);
        let params: Vec<TopographicalParameters> = (0..16)
            .map(|i| {
                TopographicalParameters::default()
                    .set_base_elevation(offset)
                    .set_erodibility(1)
                    .set_uplift_rate(1)
                    .set_is_outlet(i == 0)
            })
            .collect();
        let (terrain, converged) = TerrainGenerator::default()
            .set_model(model)
            .set_parameters(params)
            .set_max_iteration(500)
            .generate()
            .unwrap();
        assert!(converged);
        terrain.elevations().clone()
    };
    let base = solve(0);
    let c = 12345i64;
    let shifted = solve(c);
    for i in 0..16 {
        assert_eq!(shifted[i], base[i] + c);
    }
}

#[test]
fn terrain_carries_the_sites() {
    let model = lattice_model(3, 3, 100);
    let sites_before = model.sites().clone();
    let (terrain, _) = TerrainGenerator::default()
        .set_model(model)
        .set_parameters(uniform_params(9))
        .set_max_iteration(100)
        .generate()
        .unwrap();
    assert_eq!(terrain.sites().len(), 9);
    assert_eq!(terrain.elevations().len(), 9);
    for i in 0..9 {
        assert_eq!(terrain.sites()[i], sites_before[i]);
    }
}

#[test]
fn parameter_builders_set_their_fields() {
    let p = TopographicalParameters::default()
        .set_base_elevation(7)
        .set_erodibility(3)
        .set_uplift_rate(2)
        .set_is_outlet(true)
        .set_max_slope(Some(99));
    assert_eq!(p.base_elevation, 7);
    assert_eq!(p.erodibility, 3);
    assert_eq!(p.uplift_rate, 2);
    assert!(p.is_outlet);
    assert_eq!(p.max_slope, Some(99));
    let d = TopographicalParameters::default();
    assert_eq!(d.base_elevation, 0);
    assert_eq!(d.erodibility, 1);
    assert_eq!(d.uplift_rate, 1);
    assert!(!d.is_outlet);
    assert_eq!(d.max_slope, None);
}
