//! Paths below the cache directory.

use vstd::prelude::*;
use crate::paths::{join, join_path};

verus! {

/// Where the font scan results are kept.
pub fn font_scan_bin(cache_dir: &str) -> (path: String)
    ensures
        path@ == join_path(cache_dir@, "font_scan.bin"@),
{
    join(cache_dir, "font_scan.bin")
}

/// Where the font catalog is kept.
pub fn catalog_bin(cache_dir: &str) -> (path: String)
    ensures
        path@ == join_path(cache_dir@, "catalog.bin"@),
{
    join(cache_dir, "catalog.bin")
}

/// Where the geometry cache is kept.
pub fn geo_cache_bin(cache_dir: &str) -> (path: String)
    ensures
        path@ == join_path(cache_dir@, "geo-cache.bin"@),
{
    join(cache_dir, "geo-cache.bin")
}

/// Where the glyph map is kept.
pub fn glyph_map_bin(cache_dir: &str) -> (path: String)
    ensures
        path@ == join_path(cache_dir@, "glyph-map.bin"@),
{
    join(cache_dir, "glyph-map.bin")
}

/// Where the LDA weights are kept.
pub fn lda_weights_bin(cache_dir: &str) -> (path: String)
    ensures
        path@ == join_path(cache_dir@, "lda-weights.bin"@),
{
    join(cache_dir, "lda-weights.bin")
}

/// Where the per-character Fisher weights are kept.
pub fn fisher_weights_bin(cache_dir: &str) -> (path: String)
    ensures
        path@ == join_path(cache_dir@, "fisher-weights.bin"@),
{
    join(cache_dir, "fisher-weights.bin")
}

/// Where the triplet weights are kept.
pub fn triplet_weights_bin(cache_dir: &str) -> (path: String)
    ensures
        path@ == join_path(cache_dir@, "triplet-weights.bin"@),
{
    join(cache_dir, "triplet-weights.bin")
}

/// Where the Mahalanobis weights are kept.
pub fn mahalanobis_weights_bin(cache_dir: &str) -> (path: String)
    ensures
        path@ == join_path(cache_dir@, "mahalanobis-weights.bin"@),
{
    join(cache_dir, "mahalanobis-weights.bin")
}

/// Where the multi-layer perceptron weights are kept.
pub fn mlp_weights_bin(cache_dir: &str) -> (path: String)
    ensures
        path@ == join_path(cache_dir@, "mlp-weights.bin"@),
{
    join(cache_dir, "mlp-weights.bin")
}

/// Where the per-font models are kept.
pub fn per_font_lda_dir(cache_dir: &str) -> (path: String)
    ensures
        path@ == join_path(cache_dir@, "per-font-lda"@),
{
    join(cache_dir, "per-font-lda")
}

/// Where the training data are kept.
pub fn training_dir(cache_dir: &str) -> (path: String)
    ensures
        path@ == join_path(cache_dir@, "training"@),
{
    join(cache_dir, "training")
}

/// Where the rendered characters are kept.
pub fn chars_dir(cache_dir: &str) -> (path: String)
    ensures
        path@ == join_path(cache_dir@, "chars"@),
{
    join(cache_dir, "chars")
}

} // verus!
