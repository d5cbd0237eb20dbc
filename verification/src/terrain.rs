//! Sites, the terrain model, and the generated terrain.
//!
//! A site is a point of the plane with fixed-point integer coordinates. The
//! model bundles what terrain generation consumes: the sites, their cell
//! areas, the proximity graph and the default outlets; the terrain is what
//! it produces: the sites and their final elevations.

use vstd::prelude::*;
use terrain_graph::edge_attributed_undirected::EdgeAttributedUndirectedGraph;
use crate::graph::{adj_wf, graph_adj};
use crate::units::{Area, Elevation, Length, isqrt, AREA_LIMIT, SITE_LIMIT};

verus! {

/// Inclusive bound on the magnitude of site coordinates.
pub const COORDINATE_LIMIT: i64 = 1048576;

/// A point of the plane, in fixed-point integer coordinates.
#[derive(Clone, Copy, Debug, PartialEq, Eq, Structural)]
pub struct Site2D {
    pub x: i64,
    pub y: i64,
}

impl Site2D {
    pub open spec fn ok(self) -> bool {
        -COORDINATE_LIMIT <= self.x <= COORDINATE_LIMIT
            && -COORDINATE_LIMIT <= self.y <= COORDINATE_LIMIT
    }

    /// The squared distance of two sites, exactly.
    pub open spec fn squared_distance_spec(self, other: Self) -> int {
        (self.x - other.x) * (self.x - other.x) + (self.y - other.y) * (self.y - other.y)
    }

    pub fn new(x: i64, y: i64) -> (r: Self)
        ensures
            r.x == x && r.y == y,
    {
        Self { x, y }
    }

    /// The squared Euclidean distance between two sites.
    pub fn squared_distance(&self, other: &Self) -> (r: u64)
        requires
            self.ok(),
            other.ok(),
        ensures
            r == self.squared_distance_spec(*other),
    {
        let dx = (self.x as i128) - (other.x as i128);
        let dy = (self.y as i128) - (other.y as i128);
        proof {
            assert(0 <= dx * dx <= 4398046511104i128 && 0 <= dy * dy <= 4398046511104i128)
                by (nonlinear_arith)
                requires
                    -2097152 <= dx <= 2097152,
                    -2097152 <= dy <= 2097152;
        }
        (dx * dx + dy * dy) as u64
    }

    /// The Euclidean distance between two sites, rounded down to the
    /// fixed-point grid.
    pub fn distance(&self, other: &Self) -> (r: Length)
        requires
            self.ok(),
            other.ok(),
        ensures
            r * r <= self.squared_distance_spec(*other),
            self.squared_distance_spec(*other) < (r + 1) * (r + 1),
    {
        isqrt(self.squared_distance(other))
    }
}

/// A vector representation of the terrain network: the sites, the area of
/// each site's cell, the proximity graph, and the sites that act as
/// outlets when no parameter declares one.
pub struct TerrainModel2D {
    sites: Vec<Site2D>,
    areas: Vec<Area>,
    graph: EdgeAttributedUndirectedGraph<Length>,
    default_outlets: Vec<usize>,
}

impl TerrainModel2D {
    /// What terrain generation needs of a model: matching lengths, a
    /// well-formed graph, positive bounded areas, outlets in range.
    pub open spec fn wf(self) -> bool {
        &&& self.sites_spec().len() == graph_adj(self.graph_spec()).len()
        &&& self.areas_spec().len() == graph_adj(self.graph_spec()).len()
        &&& graph_adj(self.graph_spec()).len() <= SITE_LIMIT
        &&& adj_wf(graph_adj(self.graph_spec()))
        &&& forall|i: int| 0 <= i < self.areas_spec().len()
            ==> 1 <= #[trigger] self.areas_spec()[i] < AREA_LIMIT
        &&& forall|k: int| 0 <= k < self.default_outlets_spec().len()
            ==> (#[trigger] self.default_outlets_spec()[k])
                < graph_adj(self.graph_spec()).len()
    }

    pub closed spec fn sites_spec(self) -> Seq<Site2D> {
        self.sites@
    }

    pub closed spec fn areas_spec(self) -> Seq<Area> {
        self.areas@
    }

    pub closed spec fn graph_spec(self) -> EdgeAttributedUndirectedGraph<Length> {
        self.graph
    }

    pub closed spec fn default_outlets_spec(self) -> Seq<usize> {
        self.default_outlets@
    }

    pub fn new(
        sites: Vec<Site2D>,
        areas: Vec<Area>,
        graph: EdgeAttributedUndirectedGraph<Length>,
        default_outlets: Vec<usize>,
    ) -> (r: Self)
        ensures
            r.sites_spec() == sites@,
            r.areas_spec() == areas@,
            r.graph_spec() == graph,
            r.default_outlets_spec() == default_outlets@,
    {
        Self { sites, areas, graph, default_outlets }
    }

    /// The number of sites.
    pub fn num(&self) -> (n: usize)
        ensures
            n == graph_adj(self.graph_spec()).len(),
    {
        crate::graph::graph_order(&self.graph)
    }

    pub fn sites(&self) -> (r: &Vec<Site2D>)
        ensures
            r@ == self.sites_spec(),
    {
        &self.sites
    }

    pub fn areas(&self) -> (r: &Vec<Area>)
        ensures
            r@ == self.areas_spec(),
    {
        &self.areas
    }

    pub fn graph(&self) -> (r: &EdgeAttributedUndirectedGraph<Length>)
        ensures
            *r == self.graph_spec(),
    {
        &self.graph
    }

    pub fn default_outlets(&self) -> (r: &Vec<usize>)
        ensures
            r@ == self.default_outlets_spec(),
    {
        &self.default_outlets
    }
}

/// The result of terrain generation: the sites paired with their final
/// elevations, index-aligned.
#[derive(Clone)]
pub struct Terrain2D {
    sites: Vec<Site2D>,
    elevations: Vec<Elevation>,
}

impl Terrain2D {
    pub fn new(sites: Vec<Site2D>, elevations: Vec<Elevation>) -> (r: Self)
        ensures
            r.sites()@ == sites@,
            r.elevations()@ == elevations@,
    {
        Self { sites, elevations }
    }

    #[verifier::when_used_as_spec(sites_spec)]
    pub fn sites(&self) -> (r: &Vec<Site2D>)
        ensures
            r@ == self.sites_spec()@,
    {
        &self.sites
    }

    pub closed spec fn sites_spec(&self) -> &Vec<Site2D> {
        &self.sites
    }

    #[verifier::when_used_as_spec(elevations_spec)]
    pub fn elevations(&self) -> (r: &Vec<Elevation>)
        ensures
            r@ == self.elevations_spec()@,
    {
        &self.elevations
    }

    pub closed spec fn elevations_spec(&self) -> &Vec<Elevation> {
        &self.elevations
    }
}

} // verus!
