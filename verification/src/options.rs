//! Options of a dense vector field.

use vstd::prelude::*;

verus! {

/// Distance metric for vector similarity search.
#[derive(Clone, Copy, Debug, PartialEq, Eq, Structural)]
pub enum VectorDistance {
    /// Cosine distance: one minus the cosine similarity.
    Cosine,
    /// Euclidean distance.
    Euclidean,
    /// Dot product distance (for normalized vectors, related to cosine).
    DotProduct,
}

/// The arithmetic that a distance metric runs on.
#[derive(Clone, Copy, Debug, PartialEq, Eq, Structural)]
pub enum Metric {
    /// Root of the summed squared differences.
    L2,
    /// One minus the dot product.
    Dot,
}

impl Default for VectorDistance {
    /// Cosine distance.
    fn default() -> (r: Self)
        ensures
            r == VectorDistance::Cosine,
    {
        VectorDistance::Cosine
    }
}

impl VectorDistance {
    /// The arithmetic behind the metric.
    pub open spec fn spec_metric(self) -> Metric {
        match self {
            VectorDistance::Euclidean => Metric::L2,
            VectorDistance::Cosine | VectorDistance::DotProduct => Metric::Dot,
        }
    }

    /// Euclidean fields compare by [`Metric::L2`], the others by [`Metric::Dot`].
    pub fn metric(self) -> (r: Metric)
        ensures
            r == self.spec_metric(),
    {
        match self {
            VectorDistance::Euclidean => Metric::L2,
            VectorDistance::Cosine | VectorDistance::DotProduct => Metric::Dot,
        }
    }

    /// Whether rows and queries are scaled to unit length first. Only cosine
    /// fields are, which makes their distance a dot product.
    pub fn normalizes(self) -> (r: bool)
        ensures
            r == (self == VectorDistance::Cosine),
    {
        self == VectorDistance::Cosine
    }
}

/// Configuration of a vector field and of its neighbour graph.
#[derive(Clone, Copy, Debug, PartialEq, Eq, Structural)]
pub struct VectorOptions {
    /// Number of components of each document's vector.
    pub dimension: usize,
    /// Distance metric used for search and for building the graph.
    pub distance: VectorDistance,
    /// Whether the vector is kept in the document store too.
    pub stored: bool,
    /// Search width while inserting into the graph.
    pub ef_construction: usize,
    /// Maximum number of neighbours per graph layer.
    pub max_nb_connection: usize,
}

/// Search width of graph insertion when none was set.
pub fn default_ef_construction() -> (r: usize)
    ensures
        r == 200,
{
    200
}

/// Neighbours per graph layer when no limit was set.
pub fn default_max_nb_connection() -> (r: usize)
    ensures
        r == 16,
{
    16
}

impl VectorOptions {
    /// Creates options for a vector field with the given fixed dimension.
    pub fn new(dimension: usize) -> (r: Self)
        ensures
            r == (VectorOptions {
                dimension,
                distance: VectorDistance::Cosine,
                stored: false,
                ef_construction: 200,
                max_nb_connection: 16,
            }),
    {
        VectorOptions {
            dimension,
            distance: VectorDistance::default(),
            stored: false,
            ef_construction: default_ef_construction(),
            max_nb_connection: default_max_nb_connection(),
        }
    }

    /// Sets the distance metric.
    pub fn set_distance(self, distance: VectorDistance) -> (r: Self)
        ensures
            r == (VectorOptions { distance, ..self }),
    {
        VectorOptions { distance, ..self }
    }

    /// Sets whether the vector is kept in the document store.
    pub fn set_stored(self, stored: bool) -> (r: Self)
        ensures
            r == (VectorOptions { stored, ..self }),
    {
        VectorOptions { stored, ..self }
    }

    /// Sets the search width of graph insertion.
    pub fn set_ef_construction(self, ef: usize) -> (r: Self)
        ensures
            r == (VectorOptions { ef_construction: ef, ..self }),
    {
        VectorOptions { ef_construction: ef, ..self }
    }

    /// Sets the maximum number of graph connections per node.
    pub fn set_max_nb_connection(self, m: usize) -> (r: Self)
        ensures
            r == (VectorOptions { max_nb_connection: m, ..self }),
    {
        VectorOptions { max_nb_connection: m, ..self }
    }

    /// Vector fields are always indexed for nearest-neighbour search.
    pub fn is_indexed(&self) -> (r: bool)
        ensures
            r,
    {
        true
    }

    /// Whether the vector is kept in the document store.
    pub fn is_stored(&self) -> (r: bool)
        ensures
            r == self.stored,
    {
        self.stored
    }
}

} // verus!
