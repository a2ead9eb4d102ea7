//! Per-collection configuration: dimension count, distance metric,
//! quantization mode and the HNSW construction knobs.

use vstd::prelude::*;
use crate::errors::Error;

verus! {

/// The largest dimension count a collection may be created with. The bound
/// keeps every distance computation, including the cross-multiplied cosine
/// comparison, inside `i128`.
pub const MAX_DIM: usize = 4096;

/// Largest magnitude a vector component may have. Components are fixed-point
/// values; the caller picks the scale. The bound keeps the cosine comparison
/// `d*d*n` inside `i128` for vectors of up to `MAX_DIM` components.
pub const COMP_LIMIT: i32 = 32767;

/// Longest accepted identifier, in characters.
pub const ID_MAX_LEN: usize = 256;

/// Highest layer a node may be assigned in the HNSW graph.
pub const MAX_LEVEL: usize = 16;

/// Upper bound accepted for the per-layer degree caps.
pub const MAX_DEGREE: usize = 1024;

/// Upper bound accepted for the beam widths.
pub const MAX_EF: usize = 65536;

/// The distance metric a collection scores vectors under. Each is oriented
/// so that a smaller value is a closer match.
#[derive(Debug, Clone, Copy, PartialEq, Eq, Structural)]
pub enum DistanceMetric {
    /// Squared Euclidean distance; squaring preserves the ordering.
    Euclidean,
    /// One minus the cosine of the angle; one when either norm is zero.
    Cosine,
    /// Negated dot product, so that larger products rank first.
    Dot,
}

/// Whether a collection keeps a scalar-quantized copy of each vector
/// beside the raw components. The copies are written on insert and never
/// read by any search path: results are always scored from the raw
/// components, so quantization cannot change what a search returns.
#[derive(Debug, Clone, Copy, PartialEq, Eq, Structural)]
pub enum QuantizationType {
    /// No quantized copies.
    Disabled,
    /// One byte per dimension, under per-dimension affine parameters.
    U8Scalar,
}

/// A collection's configuration; immutable once the collection exists.
#[derive(Debug, Clone, Copy, PartialEq, Eq, Structural)]
pub struct Config {
    /// Number of components of every vector in the collection; at least 1.
    pub dimensions: usize,
    /// The metric every insert and search scores under.
    pub distance_metric: DistanceMetric,
    /// Whether quantized copies are kept.
    pub quantization: QuantizationType,
    /// Target degree used when selecting neighbours during construction.
    pub m: usize,
    /// Hard degree cap at layer 0; layers above are capped at `m`.
    pub m_max0: usize,
    /// Beam width used while inserting.
    pub ef_construction: usize,
    /// Beam width a search uses when larger than `k`.
    pub ef_search_default: usize,
}

impl Config {
    /// A configuration the library accepts: the dimension count is in range
    /// and the HNSW knobs are positive and consistent.
    pub open spec fn valid(self) -> bool {
        &&& 1 <= self.dimensions <= MAX_DIM
        &&& 2 <= self.m <= self.m_max0
        &&& self.m_max0 <= MAX_DEGREE
        &&& 1 <= self.ef_construction <= MAX_EF
        &&& 1 <= self.ef_search_default <= MAX_EF
    }

    /// Checks `valid`, naming the first field found out of range.
    pub fn validate(&self) -> (r: Result<(), Error>)
        ensures
            r is Ok <==> self.valid(),
            r matches Err(e) ==> e is InvalidConfig,
    {
        if self.dimensions < 1 || self.dimensions > MAX_DIM {
            Err(Error::InvalidConfig("dimensions out of range".to_string()))
        } else if self.m < 2 || self.m > self.m_max0 {
            Err(Error::InvalidConfig("m out of range".to_string()))
        } else if self.m_max0 > MAX_DEGREE {
            Err(Error::InvalidConfig("m_max0 out of range".to_string()))
        } else if self.ef_construction < 1 || self.ef_construction > MAX_EF {
            Err(Error::InvalidConfig("ef_construction out of range".to_string()))
        } else if self.ef_search_default < 1 || self.ef_search_default > MAX_EF {
            Err(Error::InvalidConfig("ef_search_default out of range".to_string()))
        } else {
            Ok(())
        }
    }

    /// The per-layer hard degree cap: `m_max0` at layer 0, `m` above.
    pub open spec fn cap(self, layer: int) -> int {
        if layer == 0 {
            self.m_max0 as int
        } else {
            self.m as int
        }
    }
}

impl Default for Config {
    /// The default knobs; `dimensions` starts at 0 and must be set before
    /// the configuration is valid.
    fn default() -> (c: Config)
        ensures
            c.dimensions == 0,
            c.distance_metric == DistanceMetric::Cosine,
            c.quantization == QuantizationType::Disabled,
            c.m == 16,
            c.m_max0 == 32,
            c.ef_construction == 200,
            c.ef_search_default == 50,
    {
        Config {
            dimensions: 0,
            distance_metric: DistanceMetric::Cosine,
            quantization: QuantizationType::Disabled,
            m: 16,
            m_max0: 32,
            ef_construction: 200,
            ef_search_default: 50,
        }
    }
}

} // verus!
