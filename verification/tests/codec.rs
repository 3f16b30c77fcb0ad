//! Coding vectors, and distances to what the codes stand for.

use vector_segment::arith::Op;
use vector_segment::bbq::{
    bbq_binary_dots_block, bbq_bytes_per_row, bbq_dequantize_row, bbq_distance, bbq_distance_dot,
    bbq_distance_l2, bbq_dot_distances_block16, bbq_l2_distances_from_binary_dots,
    binary_dot_query_bits, bit_at, compute_bbq_params, compute_centroid, gather_bbq_rows,
    popcount_row, quantize_residual_row, scalar_binary_dot_query_bits, BbqDotCtx, BbqL2Ctx,
};
use vector_segment::codebook::{
    codebook_for_dim, erf, gauss_cond_mean, norm_cdf, norm_pdf, quantile_positions, EMPTY_CELL,
    ERF_A1, ERF_A2, ERF_A3, ERF_A4, ERF_A5, ERF_P, HALF, HALF_BITS, MAX_ROUNDS, NEG_HALF, NEG_ONE,
    ONE, PI, ROOT_TWO, SETTLED, THREE, TOP_QUANTILE, TWO,
};
use vector_segment::metric::{
    dist_dot, dist_l2, distance_fn_for, distance_to_score, l2_normalize,
    normalize_flat_for_cosine,
};
use vector_segment::options::VectorDistance;
use vector_segment::rotation::{
    fwht_inplace, inverse_rotate_inplace, is_rotation_size, rotate_row, rotation_signs,
    rotation_signs_array,
};
use vector_segment::scoring::{
    dist_dot_packed, dist_dot_packed_batch, dist_l2_packed, estimated_ip, prepare_query,
    reconstruct_flat, reconstruct_row, unpack_to_rotated,
};
use vector_segment::turboquant::{
    codebook_centroids, encode_flat, encode_rotated_row, fit_tqplus, nibble, pack_nibbles,
    packed_bytes, padded_dim, quantile_sorted, quantize_scalar, Codebook, EncodedFlat, TqPlus,
    BITS, CALIBRATION_ROWS, FASTSCAN_N, N_LEVELS,
};
use vector_segment::wide::{abs as wide_abs, lt as wide_lt, neg as wide_neg, WideOp};

fn arith(op: Op, x: u32, y: u32) -> u32 {
    let a = f32::from_bits(x);
    let b = f32::from_bits(y);
    let r = match op {
        Op::Add => a + b,
        Op::Sub => a - b,
        Op::Mul => a * b,
        Op::Div => a / b,
        Op::Sqrt => a.sqrt(),
        Op::Int => x as f32,
    };
    if r.is_nan() {
        f32::NAN.to_bits()
    } else {
        r.to_bits()
    }
}

fn bits(row: &[f32]) -> Vec<u32> {
    row.iter().map(|x| x.to_bits()).collect()
}

fn floats(row: &[u32]) -> Vec<f32> {
    row.iter().map(|x| f32::from_bits(*x)).collect()
}

fn wide(op: WideOp, x: u64, y: u64) -> u64 {
    let a = f64::from_bits(x);
    let b = f64::from_bits(y);
    let r = match op {
        WideOp::Add => a + b,
        WideOp::Sub => a - b,
        WideOp::Mul => a * b,
        WideOp::Div => a / b,
        WideOp::Sqrt => a.sqrt(),
        WideOp::Exp => a.exp(),
        WideOp::Int => x as f64,
        WideOp::Round => return a.round() as u64,
        WideOp::Narrow => return u64::from((a as f32).to_bits()),
        WideOp::Widen => f64::from(f32::from_bits(x as u32)),
    };
    if r.is_nan() {
        f64::NAN.to_bits()
    } else {
        r.to_bits()
    }
}

fn encode(n: usize, dim: usize, flat: &[f32]) -> EncodedFlat {
    encode_flat(&arith, &wide, n, dim, &bits(flat))
}

fn codebook_for(padded: usize) -> Codebook {
    codebook_for_dim(&arith, &wide, padded)
}

// ---------------------------------------------------------------------------
// Sizes, signs and packing
// ---------------------------------------------------------------------------

#[test]
fn padded_dim_is_the_next_power_of_two() {
    assert_eq!(padded_dim(0), 4);
    assert_eq!(padded_dim(1), 4);
    assert_eq!(padded_dim(4), 4);
    assert_eq!(padded_dim(5), 8);
    assert_eq!(padded_dim(384), 512);
    assert_eq!(padded_dim(3072), 4096);
    assert_eq!(packed_bytes(4096), 2048);
    assert_eq!(packed_bytes(7), 3);
    assert_eq!((BITS, N_LEVELS, FASTSCAN_N, CALIBRATION_ROWS), (4, 16, 16, 1024));
}

#[test]
fn rotation_signs_are_const_tables() {
    let signs = |n: usize| floats(&rotation_signs(n));
    assert_eq!(signs(4), floats(&rotation_signs_array::<4>()));
    assert_eq!(signs(256), floats(&rotation_signs_array::<256>()));
    assert_eq!(signs(512), floats(&rotation_signs_array::<512>()));
    assert!(signs(256).iter().all(|&s| s == 1.0 || s == -1.0));
    assert_ne!(signs(256), &signs(512)[..256]);
}

#[test]
fn rotation_signs_follow_splitmix() {
    let mut state = 0x9E37_79B9_7F4A_7C15u64 ^ 8u64.wrapping_mul(0xD1B5_4A32_D192_ED03);
    let mut expected = Vec::new();
    for _ in 0..8 {
        state = state.wrapping_add(0x9E37_79B9_7F4A_7C15);
        let mut z = state;
        z = (z ^ (z >> 30)).wrapping_mul(0xBF58_476D_1CE4_E5B9);
        z = (z ^ (z >> 27)).wrapping_mul(0x94D0_49BB_1331_11EB);
        z ^= z >> 31;
        expected.push(if z & 1 == 0 { 1.0f32 } else { -1.0 });
    }
    assert_eq!(floats(&rotation_signs(8)), expected);
}

#[test]
fn rotations_exist_for_powers_of_two_up_to_8192() {
    for n in [4usize, 8, 16, 32, 64, 128, 256, 512, 1024, 2048, 4096, 8192] {
        assert!(is_rotation_size(n));
    }
    for n in [0usize, 1, 2, 3, 5, 12, 100, 8191, 16384] {
        assert!(!is_rotation_size(n));
    }
}

#[test]
fn pack_unpack_preserves_codes() {
    let codes: Vec<u8> = (0..16).map(|i| i as u8 % 16).collect();
    let mut packed = vec![0u8; 8];
    pack_nibbles(&codes, &mut packed);
    let mut got = Vec::new();
    for &b in &packed {
        got.push(b & 0x0f);
        got.push(b >> 4);
    }
    assert_eq!(got, codes);
    let read: Vec<u8> = (0..16).map(|k| nibble(&packed, k)).collect();
    assert_eq!(read, codes);
}

#[test]
fn packing_keeps_the_low_half_of_a_code() {
    let mut packed = vec![0u8; 2];
    pack_nibbles(&[0x1f, 0x23, 0x0a, 0xf5], &mut packed);
    assert_eq!(packed, [0x3f, 0x5a]);
}

#[test]
fn quantize_scalar_counts_leading_boundaries() {
    let edges = bits(&[-1.0, 0.0, 1.0]);
    let level = |x: f32| quantize_scalar(x.to_bits(), &edges);
    assert_eq!(level(-2.0), 0);
    assert_eq!(level(-1.0), 1);
    assert_eq!(level(-0.0), 2);
    assert_eq!(level(0.5), 2);
    assert_eq!(level(7.0), 3);
    assert_eq!(level(f32::NAN), 0);
    assert_eq!(quantize_scalar(1.0f32.to_bits(), &bits(&[f32::NAN, 0.0])), 0);
}

#[test]
fn codebook_table_is_filled_up_with_zeros() {
    let short = Codebook {
        boundaries: Vec::new(),
        centroids: bits(&[0.5, 0.25]),
    };
    let table = floats(&codebook_centroids(&short));
    assert_eq!(table[..3], [0.5, 0.25, 0.0]);
    assert_eq!(table.len(), 16);
}

// ---------------------------------------------------------------------------
// Codebooks and quantiles
// ---------------------------------------------------------------------------

fn plain_erf(x: f64) -> f64 {
    let sign = if x < 0.0 { -1.0 } else { 1.0 };
    let ax = x.abs();
    let t = 1.0 / (1.0 + 0.3275911 * ax);
    let y = 1.0
        - (((((1.061405429 * t + -1.453152027) * t) + 1.421413741) * t + -0.284496736) * t
            + 0.254829592)
            * t
            * (-ax * ax).exp();
    sign * y
}

fn plain_cdf(z: f64) -> f64 {
    0.5 * (1.0 + plain_erf(z / std::f64::consts::SQRT_2))
}

fn plain_pdf(z: f64) -> f64 {
    (-0.5 * z * z).exp() / (2.0 * std::f64::consts::PI).sqrt()
}

fn cond_mean(lo: f64, hi: f64, sigma: f64) -> f64 {
    let a = lo / sigma;
    let b = hi / sigma;
    let z = plain_cdf(b) - plain_cdf(a);
    if z < 1e-15 {
        return (lo + hi) * 0.5;
    }
    sigma * (plain_pdf(a) - plain_pdf(b)) / z
}

fn lloyd_max(padded: usize) -> (Vec<f32>, Vec<f32>) {
    let sigma = 1.0 / (padded as f64).sqrt();
    let spread = (3.0 * sigma).min(1.0);
    let mut centroids: Vec<f64> = (0..16)
        .map(|i| -spread + 2.0 * spread * i as f64 / 15.0)
        .collect();
    for _ in 0..80 {
        let mut edges = vec![-1.0];
        for i in 0..15 {
            edges.push((centroids[i] + centroids[i + 1]) * 0.5);
        }
        edges.push(1.0);
        let next: Vec<f64> = (0..16)
            .map(|i| cond_mean(edges[i], edges[i + 1], sigma))
            .collect();
        let change = next
            .iter()
            .zip(centroids.iter())
            .fold(0.0f64, |m, (a, b)| m.max((a - b).abs()));
        centroids = next;
        if change < 1e-8 {
            break;
        }
    }
    let levels: Vec<f32> = centroids.iter().map(|c| *c as f32).collect();
    let edges: Vec<f32> = (0..15).map(|i| (levels[i] + levels[i + 1]) * 0.5).collect();
    (edges, levels)
}

fn plain_quantiles(outer: u32, padded: usize, count: usize) -> (usize, usize) {
    let sigma = 1.0 / (padded as f64).sqrt();
    let p_hi = plain_cdf(f64::from(f32::from_bits(outer)) / sigma).clamp(0.5, 0.999);
    let p_lo = 1.0 - p_hi;
    let last = count.saturating_sub(1) as f64;
    ((p_lo * last).round() as usize, (p_hi * last).round() as usize)
}

#[test]
fn wide_constants_are_the_numbers_they_name() {
    assert_eq!(f64::from_bits(PI), std::f64::consts::PI);
    assert_eq!(f64::from_bits(ROOT_TWO), std::f64::consts::SQRT_2);
    assert_eq!(f64::from_bits(TOP_QUANTILE), 0.999);
    assert_eq!(f64::from_bits(SETTLED), 1e-8);
    assert_eq!(f64::from_bits(EMPTY_CELL), 1e-15);
    assert_eq!(f64::from_bits(ERF_P), 0.3275911);
    let a = [ERF_A1, ERF_A2, ERF_A3, ERF_A4, ERF_A5].map(f64::from_bits);
    let expected = [0.254829592, -0.284496736, 1.421413741, -1.453152027, 1.061405429];
    assert_eq!(a, expected);
    let small = [ONE, NEG_ONE, TWO, THREE, HALF, NEG_HALF].map(f64::from_bits);
    assert_eq!(small, [1.0, -1.0, 2.0, 3.0, 0.5, -0.5]);
    assert_eq!(f32::from_bits(HALF_BITS), 0.5);
    assert_eq!(MAX_ROUNDS, 80);
}

#[test]
fn wide_comparisons_are_those_of_the_numbers() {
    let samples = [0.0f64, -0.0, 1.5, -1.5, 1e-310, f64::MAX, f64::INFINITY, f64::NAN];
    for a in samples {
        assert_eq!(wide_abs(a.to_bits()), a.abs().to_bits());
        assert_eq!(wide_neg(a.to_bits()), (-a).to_bits());
        for b in samples {
            assert_eq!(wide_lt(a.to_bits(), b.to_bits()), a < b, "{a} < {b}");
        }
    }
}

#[test]
fn normal_distribution_is_that_of_plain_arithmetic() {
    let value = |f: fn(f64) -> f64, x: f64| f(x).to_bits();
    for x in [0.0f64, 0.3, -0.3, 1.7, -2.5, 6.0] {
        assert_eq!(erf(&wide, x.to_bits()), value(plain_erf, x));
        assert_eq!(norm_cdf(&wide, x.to_bits()), value(plain_cdf, x));
        assert_eq!(norm_pdf(&wide, x.to_bits()), value(plain_pdf, x));
    }
    assert!((f64::from_bits(norm_cdf(&wide, 1.96f64.to_bits())) - 0.975).abs() < 1e-4);
    let mean = |lo: f64, hi: f64| {
        let r = gauss_cond_mean(&wide, lo.to_bits(), hi.to_bits(), 0.1f64.to_bits());
        f64::from_bits(r)
    };
    assert_eq!(mean(-0.1, 0.2), cond_mean(-0.1, 0.2, 0.1));
    assert_eq!(mean(5.0, 7.0), 6.0);
}

#[test]
fn codebooks_are_those_of_plain_arithmetic() {
    for padded in [4usize, 32, 256, 8192] {
        let (edges, levels) = lloyd_max(padded);
        let book = codebook_for(padded);
        assert_eq!(floats(&book.centroids), levels);
        assert_eq!(floats(&book.boundaries), edges);
        assert_eq!((levels.len(), edges.len()), (16, 15));
        assert!(levels.windows(2).all(|l| l[0] < l[1]));
    }
}

#[test]
fn quantiles_are_those_of_plain_arithmetic() {
    for padded in [4usize, 256] {
        let outer = *codebook_for(padded).centroids.last().unwrap();
        for count in [0usize, 1, 2, 100, 1024] {
            let at = quantile_positions(&wide, outer, padded, count);
            assert_eq!(at, plain_quantiles(outer, padded, count));
        }
    }
    assert_eq!(quantile_positions(&wide, 0, 16, 11), (5, 5));
    let far = 9.0f32.to_bits();
    assert_eq!(quantile_positions(&wide, far, 16, 1001), (1, 999));
}

// ---------------------------------------------------------------------------
// Rotation
// ---------------------------------------------------------------------------

#[test]
fn fwht_is_self_inverse() {
    let orig = vec![0.5f32, -0.25, 0.125, 0.0625];
    let mut v = bits(&orig);
    fwht_inplace(&arith, &mut v);
    fwht_inplace(&arith, &mut v);
    for (a, b) in orig.iter().zip(floats(&v).iter()) {
        assert!((a - b).abs() < 1e-6, "{a} vs {b}");
    }
}

#[test]
fn fwht_of_four_sums_and_differences() {
    let mut v = bits(&[1.0, 2.0, 3.0, 4.0]);
    fwht_inplace(&arith, &mut v);
    assert_eq!(floats(&v), [5.0, -1.0, -2.0, 0.0]);
}

#[test]
fn rotating_back_gives_the_unit_row() {
    let signs = rotation_signs(8);
    let (mut rot, norm) = rotate_row(&arith, &bits(&[3.0, 0.0, 4.0]), 8, &signs);
    assert_eq!(f32::from_bits(norm), 5.0);
    inverse_rotate_inplace(&arith, &mut rot, &signs);
    let back = floats(&rot);
    let expected = [0.6f32, 0.0, 0.8, 0.0, 0.0, 0.0, 0.0, 0.0];
    for (a, b) in back.iter().zip(expected.iter()) {
        assert!((a - b).abs() < 1e-6);
    }
    let (zero, norm) = rotate_row(&arith, &bits(&[0.0, 0.0]), 4, &rotation_signs(4));
    assert_eq!(norm, 0);
    assert!(floats(&zero).iter().all(|x| *x == 0.0));
}

// ---------------------------------------------------------------------------
// 4-bit codes
// ---------------------------------------------------------------------------

#[test]
fn encoding_nothing_keeps_components_as_they_are() {
    let e = encode(0, 5, &[]);
    assert_eq!(e.padded_dim, 8);
    assert!(e.packed.is_empty() && e.renorm.is_empty());
    assert_eq!(floats(&e.tqplus.shift), [0.0; 8]);
    assert_eq!(floats(&e.tqplus.scale), [1.0; 8]);
}

#[test]
fn a_single_row_is_not_calibrated() {
    let e = encode(1, 3, &[0.0, 2.0, 0.0]);
    assert_eq!(e.padded_dim, 4);
    assert_eq!(e.packed.len(), 2);
    assert_eq!(e.renorm.len(), 1);
    assert_eq!(floats(&e.tqplus.shift), [0.0; 4]);
    assert_eq!(floats(&e.tqplus.scale), [1.0; 4]);
}

#[test]
fn calibration_maps_quantiles_to_the_outer_levels() {
    let codebook = Codebook {
        boundaries: Vec::new(),
        centroids: bits(&[-0.5, 2.0, 1.0]),
    };
    let rows: Vec<Vec<u32>> = [-1.0f32, 3.0, 1.0].iter().map(|x| bits(&[*x, 7.0])).collect();
    let t = fit_tqplus(&arith, &wide, &rows, 2, &codebook);
    assert_eq!(floats(&t.scale), [1.0, 1.0]);
    assert_eq!(floats(&t.shift), [-1.0, 0.0]);
    assert_eq!(quantile_sorted(&[], 3), 0);
    assert_eq!(quantile_sorted(&[5, 6], 9), 6);
}

#[test]
fn calibration_samples_rows_evenly() {
    let codebook = Codebook {
        boundaries: Vec::new(),
        centroids: bits(&[1.0]),
    };
    let rows: Vec<Vec<u32>> = (0..3000).map(|i| bits(&[i as f32])).collect();
    let (lo, hi) = quantile_positions(&wide, 1.0f32.to_bits(), 1, 1024);
    let t = fit_tqplus(&arith, &wide, &rows, 1, &codebook);
    assert_eq!(floats(&t.scale), [2.0 / (2 * hi - 2 * lo) as f32]);
}

#[test]
fn encode_decode_keeps_cosine_on_unit_256() {
    let dim = 256usize;
    let n = 32usize;
    let mut flat = vec![0.0f32; n * dim];
    for row in 0..n {
        let mut nsq = 0.0f32;
        for d in 0..dim {
            let x = ((row * 131 + d * 17) % 97) as f32 / 97.0 - 0.5;
            flat[row * dim + d] = x;
            nsq += x * x;
        }
        let inv = 1.0 / nsq.sqrt();
        for d in 0..dim {
            flat[row * dim + d] *= inv;
        }
    }
    let enc = encode(n, dim, &flat);
    let rec = floats(&reconstruct_flat(
        &arith,
        &enc.packed,
        n,
        dim,
        enc.padded_dim,
        &codebook_for(enc.padded_dim),
        &enc.tqplus,
        &enc.renorm,
    ));
    let mut min_cos = 1.0f32;
    for row in 0..n {
        let a = &flat[row * dim..row * dim + dim];
        let b = &rec[row * dim..row * dim + dim];
        let mut dot = 0.0f32;
        let mut nb = 0.0f32;
        for i in 0..dim {
            dot += a[i] * b[i];
            nb += b[i] * b[i];
        }
        let cos = dot / nb.sqrt();
        min_cos = min_cos.min(cos);
    }
    assert!(
        min_cos > 0.85,
        "4-bit TQ reconstruction cosine {min_cos} too low"
    );
}

#[test]
fn packed_search_ranks_identical_vector_first() {
    let dim = 32usize;
    let n = 8usize;
    let mut flat = vec![0.0f32; n * dim];
    for row in 0..n {
        flat[row * dim + row] = 1.0;
    }
    let enc = encode(n, dim, &flat);
    let cb = codebook_for(enc.padded_dim);
    let query = bits(&flat[3 * dim..4 * dim]);
    let prep = prepare_query(&arith, &query, dim, &enc.tqplus, &cb);
    let stride = packed_bytes(enc.padded_dim);
    let mut best = 0usize;
    let mut best_d = f32::INFINITY;
    for row in 0..n {
        let d = f32::from_bits(dist_dot_packed(
            &arith,
            &prep,
            &enc.packed[row * stride..row * stride + stride],
            enc.renorm[row],
        ));
        if d < best_d {
            best_d = d;
            best = row;
        }
    }
    assert_eq!(best, 3, "self should be nearest, dist={best_d}");
}

#[test]
fn lut_ip_matches_naive_centroid_dot() {
    let dim = 32usize;
    let n = 4usize;
    let mut flat = vec![0.0f32; n * dim];
    for row in 0..n {
        flat[row * dim + row] = 1.0;
    }
    let enc = encode(n, dim, &flat);
    let cb = codebook_for(enc.padded_dim);
    let query = bits(&flat[..dim]);
    let prep = prepare_query(&arith, &query, dim, &enc.tqplus, &cb);
    let stride = packed_bytes(enc.padded_dim);
    let padded = enc.padded_dim;
    let signs = rotation_signs(padded);
    let (rot, _) = rotate_row(&arith, &query, padded, &signs);
    let rot = floats(&rot);
    let scale = floats(&enc.tqplus.scale);
    let shift = floats(&enc.tqplus.shift);
    let centroids = floats(&cb.centroids);
    let renorm = floats(&enc.renorm);
    for row in 0..n {
        let packed = &enc.packed[row * stride..row * stride + stride];
        let mut inner = 0.0f32;
        for (byte_i, &byte) in packed.iter().enumerate() {
            let i0 = byte_i * 2;
            let s0 = scale[i0];
            let q0 = if s0 > 0.0 { rot[i0] / s0 } else { 0.0 };
            inner += q0 * centroids[(byte & 0x0f) as usize];
            inner -= rot[i0] * shift[i0];
            if i0 + 1 < padded {
                let s1 = scale[i0 + 1];
                let q1 = if s1 > 0.0 { rot[i0 + 1] / s1 } else { 0.0 };
                inner += q1 * centroids[(byte >> 4) as usize];
                inner -= rot[i0 + 1] * shift[i0 + 1];
            }
        }
        let naive = (1.0f32 - renorm[row] * inner).max(0.0);
        let got = f32::from_bits(dist_dot_packed(&arith, &prep, packed, enc.renorm[row]));
        assert!(
            (naive - got).abs() < 1e-5,
            "row {row}: naive={naive} lut={got}"
        );
    }
}

#[test]
fn fastscan_batch_matches_scalar_rows() {
    let dim = 32usize;
    let n = 16usize;
    let mut flat = vec![0.0f32; n * dim];
    for row in 0..n {
        flat[row * dim + (row % dim)] = 1.0;
    }
    let enc = encode(n, dim, &flat);
    let cb = codebook_for(enc.padded_dim);
    let query = bits(&flat[..dim]);
    let prep = prepare_query(&arith, &query, dim, &enc.tqplus, &cb);
    let stride = packed_bytes(enc.padded_dim);
    let ids: Vec<u32> = (0..n as u32).collect();
    let batch = floats(&dist_dot_packed_batch(
        &arith,
        &prep,
        &enc.packed,
        stride,
        &ids,
        &enc.renorm,
    ));
    for row in 0..n {
        let scalar = f32::from_bits(dist_dot_packed(
            &arith,
            &prep,
            &enc.packed[row * stride..row * stride + stride],
            enc.renorm[row],
        ));
        assert!(
            (scalar - batch[row]).abs() < 1e-5,
            "row {row}: scalar={scalar} batch={}",
            batch[row]
        );
    }
}

#[test]
fn euclidean_distance_goes_by_the_reconstructed_row() {
    let dim = 8usize;
    let flat = [1.0f32, 2.0, 3.0, 4.0, 5.0, 6.0, 7.0, 8.0];
    let enc = encode(1, dim, &flat);
    let cb = codebook_for(enc.padded_dim);
    let query = bits(&[0.0; 8]);
    let prep = prepare_query(&arith, &query, dim, &enc.tqplus, &cb);
    let rec = floats(&reconstruct_row(
        &arith,
        &enc.packed,
        dim,
        8,
        &cb,
        &enc.tqplus,
        enc.renorm[0],
    ));
    let d = f32::from_bits(dist_l2_packed(
        &arith,
        &prep,
        &enc.packed,
        dim,
        8,
        &cb,
        &enc.tqplus,
        enc.renorm[0],
    ));
    let exact = rec.iter().map(|x| x * x).sum::<f32>().sqrt();
    assert!((d - exact).abs() < 1e-4);
    let own = flat.iter().map(|x| x * x).sum::<f32>().sqrt();
    assert!((d - own).abs() < 0.2 * own);
}

fn wavy(dim: usize, seed: usize) -> Vec<f32> {
    (0..dim)
        .map(|i| ((i * 37 + seed * 11) % 23) as f32 / 23.0 - 0.4)
        .collect()
}

fn dot_of(a: &[f32], b: &[f32]) -> f32 {
    a.iter().zip(b.iter()).map(|(x, y)| x * y).sum()
}

#[test]
fn rotation_keeps_inner_products() {
    let (a, b) = (wavy(64, 1), wavy(64, 2));
    let (mut ta, mut tb) = (bits(&a), bits(&b));
    fwht_inplace(&arith, &mut ta);
    fwht_inplace(&arith, &mut tb);
    assert!((dot_of(&floats(&ta), &floats(&tb)) - dot_of(&a, &b)).abs() < 1e-4);
}

#[test]
fn scoring_agrees_with_the_reconstructed_row() {
    let dim = 20usize;
    let rows: Vec<f32> = (0..6).flat_map(|r| wavy(dim, r)).collect();
    let enc = encode(6, dim, &rows);
    let cb = codebook_for(enc.padded_dim);
    let query = wavy(dim, 9);
    let norm = dot_of(&query, &query).sqrt();
    let prep = prepare_query(&arith, &bits(&query), dim, &enc.tqplus, &cb);
    let stride = packed_bytes(enc.padded_dim);
    for i in 0..6 {
        let packed = &enc.packed[i * stride..(i + 1) * stride];
        let ip = estimated_ip(&arith, &prep, packed, enc.renorm[i]);
        let (p, t) = (enc.padded_dim, &enc.tqplus);
        let row = reconstruct_row(&arith, packed, dim, p, &cb, t, enc.renorm[i]);
        let exact = dot_of(&query, &floats(&row)) / norm;
        assert!((f32::from_bits(ip) - exact).abs() < 1e-4, "row {i}");
    }
}

#[test]
fn a_row_scores_its_own_length() {
    let dim = 20usize;
    let rows: Vec<f32> = (0..6).flat_map(|r| wavy(dim, r)).collect();
    let enc = encode(6, dim, &rows);
    let cb = codebook_for(enc.padded_dim);
    let stride = packed_bytes(enc.padded_dim);
    for i in 0..6 {
        let row = &rows[i * dim..(i + 1) * dim];
        let prep = prepare_query(&arith, &bits(row), dim, &enc.tqplus, &cb);
        let packed = &enc.packed[i * stride..(i + 1) * stride];
        let ip = f32::from_bits(estimated_ip(&arith, &prep, packed, enc.renorm[i]));
        assert!((ip - dot_of(row, row).sqrt()).abs() < 1e-4, "row {i}");
    }
    assert!(floats(&enc.tqplus.scale).iter().all(|s| *s > 0.0));
}

#[test]
fn rows_are_coded_one_by_one() {
    let dim = 5usize;
    let rows: Vec<f32> = (0..4).flat_map(|r| wavy(dim, r)).collect();
    let enc = encode(4, dim, &rows);
    let cb = codebook_for(8);
    let signs = rotation_signs(8);
    for i in 0..4 {
        let src = bits(&rows[i * dim..(i + 1) * dim]);
        let (rot, norm) = rotate_row(&arith, &src, 8, &signs);
        let (packed, renorm) = encode_rotated_row(&arith, &rot, norm, &cb, &enc.tqplus);
        assert_eq!(enc.packed[i * 4..(i + 1) * 4], packed[..]);
        assert_eq!(enc.renorm[i], renorm);
        for k in 0..8 {
            let moved = floats(&rot)[k] + floats(&enc.tqplus.shift)[k];
            let x = moved * floats(&enc.tqplus.scale)[k];
            assert_eq!(nibble(&packed, k), quantize_scalar(x.to_bits(), &cb.boundaries));
        }
    }
}

#[test]
fn missing_codes_decode_to_zero() {
    let cb = codebook_for(4);
    let t = TqPlus {
        shift: bits(&[0.0, 0.5, 0.5, 0.5]),
        scale: bits(&[2.0, 0.0, 1.0, 1.0]),
    };
    let rot = floats(&unpack_to_rotated(&arith, &[0x21], 4, &cb, &t));
    let first = f32::from_bits(cb.centroids[1]) / 2.0;
    assert_eq!(rot, [first, 0.0, 0.0, 0.0]);
}

// ---------------------------------------------------------------------------
// Distances between rows
// ---------------------------------------------------------------------------

#[test]
fn normalizing_scales_to_unit_length() {
    let mut v = bits(&[3.0, 4.0]);
    l2_normalize(&arith, &mut v);
    assert_eq!(floats(&v), [0.6, 0.8]);
    let mut zero = bits(&[0.0, 0.0]);
    l2_normalize(&arith, &mut zero);
    assert_eq!(floats(&zero), [0.0, 0.0]);
}

#[test]
fn only_cosine_fields_are_normalized() {
    let flat = [3.0f32, 4.0, 0.0, 2.0, 9.0];
    let mut cosine = bits(&flat);
    normalize_flat_for_cosine(&arith, &mut cosine, 2, VectorDistance::Cosine);
    assert_eq!(floats(&cosine), [0.6, 0.8, 0.0, 1.0, 9.0]);
    let mut dot = bits(&flat);
    normalize_flat_for_cosine(&arith, &mut dot, 2, VectorDistance::DotProduct);
    assert_eq!(floats(&dot), flat);
}

#[test]
fn distances_follow_the_metric() {
    let a = bits(&[1.0, 0.0]);
    let b = bits(&[0.25, 1.0]);
    assert_eq!(f32::from_bits(dist_l2(&arith, &a, &b)), 1.25);
    assert_eq!(f32::from_bits(dist_dot(&arith, &a, &b)), 0.75);
    let far = bits(&[5.0, 0.0]);
    assert_eq!(f32::from_bits(dist_dot(&arith, &a, &far)), 0.0);
    let d = |m| f32::from_bits(distance_fn_for(&arith, m, &a, &b));
    assert_eq!(d(VectorDistance::Euclidean), 1.25);
    assert_eq!(d(VectorDistance::Cosine), 0.75);
    assert_eq!(d(VectorDistance::DotProduct), 0.75);
    let score = f32::from_bits(distance_to_score(&arith, 1.0f32.to_bits()));
    assert_eq!(score, 0.5);
}

// ---------------------------------------------------------------------------
// 1-bit codes
// ---------------------------------------------------------------------------

#[test]
fn bbq_round_trip_levels() {
    let dim = 4usize;
    let flat = vec![1.0f32, 2.0, 3.0, 4.0, 5.0, 6.0, 7.0, 8.0];
    let num_docs = 2usize;
    let (centroid, bits_all, lowers, uppers) =
        compute_bbq_params(&arith, &bits(&flat), dim, num_docs);
    assert_eq!(centroid.len(), dim);
    let bpr = bbq_bytes_per_row(dim);
    let out = floats(&bbq_dequantize_row(
        &arith,
        &centroid,
        &bits_all[0..bpr],
        lowers[0],
        uppers[0],
    ));
    for d in 0..dim {
        let bit = (bits_all[d / 8] >> (d % 8)) & 1 != 0;
        let r = f32::from_bits(if bit { uppers[0] } else { lowers[0] });
        let expected = f32::from_bits(centroid[d]) + r;
        assert!(
            (out[d] - expected).abs() < 1e-5,
            "d={d} out={} exp={}",
            out[d],
            expected
        );
    }
}

#[test]
fn bbq_asymmetric_dot_matches_reconstruction_dot() {
    let dim = 32usize;
    let num_docs = 4usize;
    let flat: Vec<f32> = (0..num_docs * dim)
        .map(|i| ((i % 7) as f32) * 0.1 - 0.3)
        .collect();
    let (centroid, bits_all, lowers, uppers) =
        compute_bbq_params(&arith, &bits(&flat), dim, num_docs);
    let bpr = bbq_bytes_per_row(dim);
    let query: Vec<f32> = (0..dim).map(|i| ((i % 5) as f32) * 0.07).collect();
    let qb = bits(&query);
    let ctx = BbqDotCtx::new(&arith, &qb, &centroid);

    for row in 0..num_docs {
        let row_bits = &bits_all[row * bpr..(row + 1) * bpr];
        let recon = floats(&bbq_dequantize_row(
            &arith,
            &centroid,
            row_bits,
            lowers[row],
            uppers[row],
        ));
        let exact_dot: f32 = query.iter().zip(recon.iter()).map(|(a, b)| a * b).sum();
        let d_dot = f32::from_bits(bbq_distance_dot(
            &arith,
            &ctx,
            &qb,
            row_bits,
            lowers[row],
            uppers[row],
            dim,
        ));
        let lower = f32::from_bits(lowers[row]);
        let upper = f32::from_bits(uppers[row]);
        let bd = f32::from_bits(binary_dot_query_bits(&arith, &qb, row_bits, dim));
        let approx_sim = f32::from_bits(ctx.qc_dot)
            + lower * f32::from_bits(ctx.q_sum)
            + (upper - lower) * bd;
        assert!((approx_sim - exact_dot).abs() < 5e-4);
        let exact_dist = (1.0f32 - exact_dot).max(0.0f32);
        assert!((d_dot - exact_dist).abs() < 5e-4, "row {row}");
    }
}

#[test]
fn bbq_asymmetric_l2_matches_reconstruction() {
    let dim = 24usize;
    let num_docs = 3usize;
    let flat: Vec<f32> = (0..num_docs * dim)
        .map(|i| (i as f32) * 0.02 - 0.2)
        .collect();
    let (centroid, bits_all, lowers, uppers) =
        compute_bbq_params(&arith, &bits(&flat), dim, num_docs);
    let bpr = bbq_bytes_per_row(dim);
    let query: Vec<f32> = (0..dim).map(|i| (i as f32) * 0.03).collect();
    let l2_ctx = BbqL2Ctx::new(&arith, &bits(&query), &centroid);
    for row in 0..num_docs {
        let row_bits = &bits_all[row * bpr..(row + 1) * bpr];
        let recon = floats(&bbq_dequantize_row(
            &arith,
            &centroid,
            row_bits,
            lowers[row],
            uppers[row],
        ));
        let mut acc = 0.0f32;
        for d in 0..dim {
            let t = query[d] - recon[d];
            acc += t * t;
        }
        let exact_l2 = acc.sqrt();
        let d_l2 = f32::from_bits(bbq_distance_l2(
            &arith,
            &l2_ctx,
            row_bits,
            lowers[row],
            uppers[row],
            dim,
        ));
        assert!(
            (d_l2 - exact_l2).abs() < 5e-3,
            "row {row}: d_l2={d_l2} exact={exact_l2}"
        );
    }
}

#[test]
fn block_binary_dots_match_scalar() {
    let dim = 16usize;
    let num_docs = 5usize;
    let flat: Vec<f32> = (0..num_docs * dim).map(|i| (i as f32) * 0.01).collect();
    let (_centroid, bits_all, _, _) = compute_bbq_params(&arith, &bits(&flat), dim, num_docs);
    let bpr = bbq_bytes_per_row(dim);
    let query: Vec<f32> = (0..dim).map(|i| (i as f32) * 0.03).collect();
    let qb = bits(&query);
    let ids = [0u32, 1, 2, 3, 4];
    let mut gathered = vec![0u8; ids.len() * bpr];
    gather_bbq_rows(&bits_all, bpr, &ids, &mut gathered);
    let mut block_bd = vec![0u32; ids.len()];
    bbq_binary_dots_block(&arith, &qb, dim, bpr, &gathered, ids.len(), &mut block_bd);
    let block_bd = floats(&block_bd);
    for (i, &id) in ids.iter().enumerate() {
        let row = &bits_all[id as usize * bpr..(id as usize + 1) * bpr];
        let s = f32::from_bits(scalar_binary_dot_query_bits(&arith, &qb, row, dim));
        assert!((block_bd[i] - s).abs() < 1e-4, "i={i}");
    }
}

#[test]
fn rows_are_gathered_in_the_order_of_their_ids() {
    let rows = [1u8, 2, 3, 4, 5, 6];
    let mut out = vec![0u8; 6];
    gather_bbq_rows(&rows, 2, &[2, 0, 2], &mut out);
    assert_eq!(out, [5, 6, 1, 2, 5, 6]);
}

#[test]
fn bits_are_counted_up_to_the_dimension() {
    assert_eq!(bbq_bytes_per_row(0), 0);
    assert_eq!(bbq_bytes_per_row(8), 1);
    assert_eq!(bbq_bytes_per_row(9), 2);
    assert_eq!(popcount_row(&[0xff, 0xff], 11), 11);
    assert_eq!(popcount_row(&[0b1010_0001, 0b100], 10), 3);
    assert_eq!(popcount_row(&[], 0), 0);
    assert!(bit_at(&[0b100], 2));
    assert!(!bit_at(&[0b100], 1));
}

#[test]
fn residuals_split_at_the_median() {
    let (b, lower, upper) = quantize_residual_row(&arith, &bits(&[1.0, -3.0, 2.0, -1.0]));
    assert_eq!(b, [0b0101]);
    assert_eq!(f32::from_bits(lower), -2.0);
    assert_eq!(f32::from_bits(upper), 1.5);
}

#[test]
fn coded_rows_stand_for_their_means() {
    let residual = [0.5f32, -1.5, 2.5, -0.5, 1.0];
    let (b, lower, upper) = quantize_residual_row(&arith, &bits(&residual));
    let centroid = [10.0f32; 5];
    let row = bbq_dequantize_row(&arith, &bits(&centroid), &b, lower, upper);
    let high = 10.0 + (0.5 + 2.5 + 1.0) / 3.0f32;
    assert_eq!(floats(&row), [high, 9.0, high, 9.0, high]);
}

#[test]
fn equal_residuals_set_every_bit() {
    let (b, lower, upper) = quantize_residual_row(&arith, &bits(&[2.0; 9]));
    assert_eq!(b, [0xff, 0xff]);
    assert_eq!(f32::from_bits(lower), 2.0);
    assert_eq!(f32::from_bits(upper), 2.0);
}

#[test]
fn a_median_that_is_no_number_sets_no_bit() {
    let (b, lower, upper) = quantize_residual_row(&arith, &bits(&[1.0, f32::NAN]));
    assert_eq!(b, [0]);
    assert!(f32::from_bits(lower).is_nan() && f32::from_bits(upper).is_nan());
    let (none, l, u) = quantize_residual_row(&arith, &[]);
    assert!(none.is_empty());
    assert_eq!((l, u), (0, 0));
}

#[test]
fn centroid_is_the_mean_of_the_rows() {
    let c = compute_centroid(&arith, &bits(&[1.0, 2.0, 3.0, 6.0]), 2, 2);
    assert_eq!(floats(&c), [2.0, 4.0]);
    assert_eq!(floats(&compute_centroid(&arith, &[], 2, 0)), [0.0, 0.0]);
}

#[test]
fn block_distances_are_the_row_distances() {
    let dim = 9usize;
    let flat: Vec<f32> = (0..3 * dim).map(|i| ((i * 5) % 11) as f32 * 0.1).collect();
    let (centroid, bits_all, lowers, uppers) = compute_bbq_params(&arith, &bits(&flat), dim, 3);
    let bpr = bbq_bytes_per_row(dim);
    let q = bits(&(0..dim).map(|i| i as f32 * 0.05).collect::<Vec<f32>>());
    let dot_ctx = BbqDotCtx::new(&arith, &q, &centroid);
    let l2_ctx = BbqL2Ctx::new(&arith, &q, &centroid);
    let mut dots = vec![0u32; 3];
    bbq_binary_dots_block(&arith, &q, dim, bpr, &bits_all, 3, &mut dots);
    let mut by_dot = vec![7u32; 4];
    bbq_dot_distances_block16(&arith, &dot_ctx, &lowers, &uppers, &dots, 3, &mut by_dot);
    let mut centered = vec![0u32; 3];
    bbq_binary_dots_block(&arith, &l2_ctx.qc, dim, bpr, &bits_all, 3, &mut centered);
    let mut by_l2 = vec![7u32; 4];
    bbq_l2_distances_from_binary_dots(
        &arith, &l2_ctx, &lowers, &uppers, &bits_all, dim, bpr, 3, &centered, &mut by_l2,
    );
    for i in 0..3 {
        let row = &bits_all[i * bpr..(i + 1) * bpr];
        let one = |m| {
            bbq_distance(
                &arith, m, &q, &dot_ctx, &l2_ctx, row, lowers[i], uppers[i], dim,
            )
        };
        assert_eq!(one(VectorDistance::Cosine), by_dot[i]);
        assert_eq!(one(VectorDistance::DotProduct), by_dot[i]);
        assert_eq!(one(VectorDistance::Euclidean), by_l2[i]);
    }
    assert_eq!((by_dot[3], by_l2[3]), (7, 7));
}

#[test]
fn small_codebooks_decode_small_codes() {
    let cb = Codebook {
        boundaries: vec![],
        centroids: bits(&[1.0, 2.0, 3.0]),
    };
    let t = TqPlus {
        shift: bits(&[0.0, 0.5]),
        scale: bits(&[1.0, 2.0]),
    };
    let rot = floats(&unpack_to_rotated(&arith, &[0x21], 2, &cb, &t));
    assert_eq!(rot, [2.0, 1.0]);
}

#[test]
fn block_dots_stop_at_the_last_byte_of_a_row() {
    let q: Vec<f32> = (0..8).map(|k| (1u32 << k) as f32).collect();
    let mut dots = vec![9u32; 3];
    bbq_binary_dots_block(&arith, &bits(&q), 20, 1, &[0b1000_0101, 0xff], 2, &mut dots);
    assert_eq!(floats(&dots[..2]), [133.0, 255.0]);
    assert_eq!(dots[2], 9);
}

#[test]
fn dot_context_pairs_the_common_components() {
    let q = bits(&[1.0, 2.0, 4.0]);
    let longer = BbqDotCtx::new(&arith, &q, &bits(&[3.0, 5.0]));
    assert_eq!(f32::from_bits(longer.qc_dot), 13.0);
    assert_eq!(f32::from_bits(longer.q_sum), 7.0);
    let shorter = BbqDotCtx::new(&arith, &q[..1], &bits(&[3.0, 5.0]));
    assert_eq!(f32::from_bits(shorter.qc_dot), 3.0);
    assert_eq!(f32::from_bits(shorter.q_sum), 1.0);
}

#[test]
fn rotation_takes_more_signs_than_it_needs() {
    let signs = rotation_signs(8);
    let mut spare = signs.clone();
    spare.extend_from_slice(&[7, 7]);
    let row = bits(&[1.0, -2.0, 3.0, 0.5, 0.25, 8.0, -1.0, 2.0]);
    let exact = rotate_row(&arith, &row, 8, &signs);
    assert_eq!(rotate_row(&arith, &row, 8, &spare), exact);
    let mut back = exact.0.clone();
    inverse_rotate_inplace(&arith, &mut back, &spare);
    let mut same = exact.0;
    inverse_rotate_inplace(&arith, &mut same, &signs);
    assert_eq!(back, same);
}

#[test]
fn nearer_rows_score_no_lower() {
    let score = |d: f32| f32::from_bits(distance_to_score(&arith, d.to_bits()));
    assert_eq!(score(0.0), 1.0);
    assert_eq!(score(3.0), 0.25);
    let distances = [0.0, 1e-9, 0.5, 0.5000001, 1.0, 77.5, 3e30, f32::MAX];
    for pair in distances.windows(2) {
        assert!(score(pair[0]) >= score(pair[1]));
        assert!(score(pair[1]) > 0.0);
    }
}

#[test]
fn rows_of_twice_the_length_have_the_same_codes() {
    let (n, dim) = (40, 12);
    let flat: Vec<f32> = (0..n * dim)
        .map(|i| {
            if i / dim == 7 {
                0.0
            } else {
                ((i * 37 % 101) as f32 - 50.0) * 0.173
            }
        })
        .collect();
    let larger: Vec<f32> = flat.iter().map(|x| 2.0 * x).collect();
    let a = encode(n, dim, &flat);
    let b = encode(n, dim, &larger);
    assert_eq!(b.packed, a.packed);
    assert_eq!(b.tqplus.shift, a.tqplus.shift);
    assert_eq!(b.tqplus.scale, a.tqplus.scale);
    let lengths: Vec<f32> = floats(&a.renorm).iter().map(|x| 2.0 * x).collect();
    assert_eq!(floats(&b.renorm), lengths);
}

#[test]
fn rows_of_twice_the_length_have_the_same_codes_at_the_ends_of_the_range() {
    let (n, dim) = (12, 6);
    let flat: Vec<f32> = (0..n * dim)
        .map(|i| {
            let x = (i * 29 % 37) as f32 - 18.0;
            match (i / dim) % 3 {
                0 => x * 1.1e-10,
                1 => x * 5.5e13,
                _ => x * if i % 2 == 0 { 1.0e-10 } else { 5.0e13 },
            }
        })
        .collect();
    let larger: Vec<f32> = flat.iter().map(|x| 2.0 * x).collect();
    let a = encode(n, dim, &flat);
    let b = encode(n, dim, &larger);
    assert_eq!(b.packed, a.packed);
    assert_eq!(b.tqplus.shift, a.tqplus.shift);
    assert_eq!(b.tqplus.scale, a.tqplus.scale);
    let lengths: Vec<f32> = floats(&a.renorm).iter().map(|x| 2.0 * x).collect();
    assert_eq!(floats(&b.renorm), lengths);
}

#[test]
fn sign_tables_of_different_lengths_differ() {
    let lengths: Vec<usize> = (2..=13).map(|k| 1usize << k).collect();
    for (i, &short) in lengths.iter().enumerate() {
        for &long in &lengths[i + 1..] {
            let same = rotation_signs(short) == rotation_signs(long)[..short];
            assert_eq!(same, (short, long) == (4, 512), "{short} {long}");
        }
    }
}
