use vstd::prelude::*;

use crate::types::HdbscanError;

verus! {

/// The message of the first parameter rule that the settings break, checked in this order:
/// a positive dimension, `min_pts >= 1`, `min_cluster_size >= 2`, a compression rate in
/// `(0, 1]`, `m >= 1`, and a quantiser bit width, when given, of 2, 3 or 4.
pub open spec fn parameter_problem(
    dim: usize,
    min_pts: usize,
    min_cluster_size: usize,
    compression_rate_in_range: bool,
    m: usize,
    bit_width: Option<usize>,
) -> Option<Seq<char>> {
    if dim == 0 {
        Some("dim must be greater than 0"@)
    } else if min_pts == 0 {
        Some("min_pts must be greater than or equal to 1"@)
    } else if min_cluster_size < 2 {
        Some("min_cluster_size must be greater than or equal to 2"@)
    } else if !compression_rate_in_range {
        Some("compression_rate must be in the range (0.0, 1.0]"@)
    } else if m == 0 {
        Some("m must be greater than or equal to 1"@)
    } else if bit_width is Some && !(2 <= bit_width->0 <= 4) {
        Some("turbovec_bit_width must be 2, 3, or 4"@)
    } else {
        None
    }
}

/// Checks the index settings; `compression_rate_in_range` tells whether the compression rate
/// lies in `(0, 1]`.  Fails with `InvalidParameter` carrying the first rule broken.
pub fn validate_params(
    dim: usize,
    min_pts: usize,
    min_cluster_size: usize,
    compression_rate_in_range: bool,
    m: usize,
    turbovec_bit_width: Option<usize>,
) -> (r: Result<(), HdbscanError>)
    ensures
        r is Ok <==> parameter_problem(
            dim,
            min_pts,
            min_cluster_size,
            compression_rate_in_range,
            m,
            turbovec_bit_width,
        ) is None,
        r matches Err(e) ==> e matches HdbscanError::InvalidParameter(msg) && Some(msg@)
            == parameter_problem(
            dim,
            min_pts,
            min_cluster_size,
            compression_rate_in_range,
            m,
            turbovec_bit_width,
        ),
{
    if dim == 0 {
        return Err(HdbscanError::InvalidParameter("dim must be greater than 0".to_owned()));
    }
    if min_pts == 0 {
        return Err(
            HdbscanError::InvalidParameter(
                "min_pts must be greater than or equal to 1".to_owned(),
            ),
        );
    }
    if min_cluster_size < 2 {
        return Err(
            HdbscanError::InvalidParameter(
                "min_cluster_size must be greater than or equal to 2".to_owned(),
            ),
        );
    }
    if !compression_rate_in_range {
        return Err(
            HdbscanError::InvalidParameter(
                "compression_rate must be in the range (0.0, 1.0]".to_owned(),
            ),
        );
    }
    if m == 0 {
        return Err(
            HdbscanError::InvalidParameter("m must be greater than or equal to 1".to_owned()),
        );
    }
    if let Some(bit_width) = turbovec_bit_width {
        if !(2 <= bit_width && bit_width <= 4) {
            return Err(
                HdbscanError::InvalidParameter(
                    "turbovec_bit_width must be 2, 3, or 4".to_owned(),
                ),
            );
        }
    }
    Ok(())
}

/// The settings are accepted exactly when every rule holds: a positive dimension,
/// `min_pts >= 1`, `min_cluster_size >= 2`, a compression rate in range, `m >= 1`, and no bit
/// width or one of 2, 3 and 4.
pub proof fn lemma_settings_accepted_iff_valid(
    dim: usize,
    min_pts: usize,
    min_cluster_size: usize,
    compression_rate_in_range: bool,
    m: usize,
    bit_width: Option<usize>,
)
    ensures
        parameter_problem(dim, min_pts, min_cluster_size, compression_rate_in_range, m, bit_width)
            is None <==> (dim > 0 && min_pts >= 1 && min_cluster_size >= 2
            && compression_rate_in_range && m >= 1 && (bit_width == None::<usize> || bit_width
            == Some(2usize) || bit_width == Some(3usize) || bit_width == Some(4usize))),
{
}

} // verus!
