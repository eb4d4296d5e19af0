use pca_tree::encoder::OneHotEncoder;
use pca_tree::pca::{check_fit_dims, eigen_order_desc};
use pca_tree::tree::MstTree;

/// Order-preserving integer key for an f64, used to hand eigenvalues to the
/// verified ordering function.
fn order_key(v: f64) -> i64 {
    if v >= 0.0 {
        v.to_bits() as i64
    } else {
        -((-v).to_bits() as i64)
    }
}

/// Cyclic Jacobi eigendecomposition of a small symmetric matrix.
/// Returns the eigenvalues and the matrix whose column j is eigenvector j.
fn jacobi_eigh(mut a: Vec<Vec<f64>>) -> (Vec<f64>, Vec<Vec<f64>>) {
    let p = a.len();
    let mut v = vec![vec![0.0f64; p]; p];
    for i in 0..p {
        v[i][i] = 1.0;
    }
    for _sweep in 0..200 {
        let mut off = 0.0f64;
        for i in 0..p {
            for j in (i + 1)..p {
                off += a[i][j] * a[i][j];
            }
        }
        if off < 1e-24 {
            break;
        }
        for i in 0..p {
            for j in (i + 1)..p {
                if a[i][j].abs() < 1e-300 {
                    continue;
                }
                let phi = 0.5 * (2.0 * a[i][j]).atan2(a[i][i] - a[j][j]);
                let (c, s) = (phi.cos(), phi.sin());
                for k in 0..p {
                    let aik = a[i][k];
                    let ajk = a[j][k];
                    a[i][k] = c * aik + s * ajk;
                    a[j][k] = -s * aik + c * ajk;
                }
                for k in 0..p {
                    let aki = a[k][i];
                    let akj = a[k][j];
                    a[k][i] = c * aki + s * akj;
                    a[k][j] = -s * aki + c * akj;
                }
                for k in 0..p {
                    let vki = v[k][i];
                    let vkj = v[k][j];
                    v[k][i] = c * vki + s * vkj;
                    v[k][j] = -s * vki + c * vkj;
                }
            }
        }
    }
    let vals = (0..p).map(|i| a[i][i]).collect();
    (vals, v)
}

/// Center the rows, form the sample covariance, eigendecompose, order the
/// eigen indices with the verified stable descending sort, and project onto
/// the first k components.
fn pca_coords(x: &[Vec<f64>], k: usize) -> Vec<Vec<f64>> {
    let n = x.len();
    let p = x[0].len();
    check_fit_dims(n, p, k).expect("dimensions");
    let mut mean = vec![0.0f64; p];
    for row in x {
        for j in 0..p {
            mean[j] += row[j];
        }
    }
    for j in 0..p {
        mean[j] /= n as f64;
    }
    let centered: Vec<Vec<f64>> = x
        .iter()
        .map(|row| (0..p).map(|j| row[j] - mean[j]).collect())
        .collect();
    let mut cov = vec![vec![0.0f64; p]; p];
    for a in 0..p {
        for b in 0..p {
            let mut s = 0.0;
            for i in 0..n {
                s += centered[i][a] * centered[i][b];
            }
            cov[a][b] = s / (n as f64 - 1.0);
        }
    }
    let (vals, vecs) = jacobi_eigh(cov);
    let keys: Vec<i64> = vals.iter().map(|&v| order_key(v)).collect();
    let order = eigen_order_desc(&keys);
    let mut coords = vec![vec![0.0f64; k]; n];
    for i in 0..n {
        for j in 0..k {
            let col = order[j];
            let mut s = 0.0;
            for a in 0..p {
                s += centered[i][a] * vecs[a][col];
            }
            coords[i][j] = s;
        }
    }
    coords
}

fn micro(v: f64) -> i64 {
    (v * 1_000_000.0).round() as i64
}

fn distance_matrix(coords: &[Vec<f64>]) -> Vec<Vec<i64>> {
    let n = coords.len();
    let mut dist = vec![vec![0i64; n]; n];
    for i in 0..n {
        for j in 0..n {
            let mut s = 0.0;
            for a in 0..coords[i].len() {
                let d = coords[i][a] - coords[j][a];
                s += d * d;
            }
            dist[i][j] = micro(s.sqrt());
        }
    }
    dist
}

fn encode_relative_f64(seqs: &[&str]) -> Vec<Vec<f64>> {
    let encoder = OneHotEncoder::new();
    let bytes: Vec<Vec<u8>> = seqs.iter().map(|s| s.as_bytes().to_vec()).collect();
    let enc = encoder.encode_relative(&bytes).expect("encoding");
    enc.iter()
        .map(|row| row.iter().map(|&c| c as f64).collect())
        .collect()
}

#[test]
fn small_sequences_produce_tree() {
    let seqs = ["AAAA", "AAAT", "AATT", "TTTT"];
    let x = encode_relative_f64(&seqs);
    assert_eq!(x.len(), 4);
    assert_eq!(x[0].len(), 4);

    let coords = pca_coords(&x, 2);
    assert_eq!(coords.len(), 4);
    assert_eq!(coords[0].len(), 2);

    let dist = distance_matrix(&coords);
    let tree = MstTree::build(&dist).expect("tree");
    assert_eq!(tree.len(), 3);

    let mut seen = vec![false; 4];
    for (p, c, _) in &tree.edges {
        seen[*p] = true;
        seen[*c] = true;
    }
    assert!(seen.iter().all(|x| *x));

    let total = tree.total_length();
    assert!(total > 0);
}

#[test]
fn pca_coordinates_translation_invariant_up_to_sign() {
    let x: Vec<Vec<f64>> = vec![
        vec![1.0, 2.0, 0.5],
        vec![2.0, 1.0, 1.5],
        vec![3.0, 5.0, 2.5],
        vec![4.0, 4.0, 0.0],
        vec![0.0, 1.0, 3.0],
    ];
    let shifted: Vec<Vec<f64>> = x
        .iter()
        .map(|row| vec![row[0] + 10.0, row[1] - 3.0, row[2] + 100.0])
        .collect();
    let a = pca_coords(&x, 2);
    let b = pca_coords(&shifted, 2);
    for j in 0..2 {
        for i in 0..a.len() {
            assert!(
                (a[i][j].abs() - b[i][j].abs()).abs() < 1e-6,
                "column {j} row {i}: {} vs {}",
                a[i][j],
                b[i][j]
            );
        }
    }
}

#[test]
fn pca_first_column_has_largest_variance() {
    let x: Vec<Vec<f64>> = vec![
        vec![0.0, 0.1, 0.0],
        vec![10.0, 0.3, 0.2],
        vec![20.0, 0.2, 0.4],
        vec![30.0, 0.0, 0.1],
        vec![40.0, 0.4, 0.3],
    ];
    let coords = pca_coords(&x, 2);
    let n = coords.len() as f64;
    let mut var = [0.0f64; 2];
    for j in 0..2 {
        let mean: f64 = coords.iter().map(|r| r[j]).sum::<f64>() / n;
        var[j] = coords.iter().map(|r| (r[j] - mean) * (r[j] - mean)).sum::<f64>() / (n - 1.0);
    }
    assert!(var[0] >= var[1] - 1e-9, "{} < {}", var[0], var[1]);
}

#[test]
fn fit_dimension_validation() {
    assert!(check_fit_dims(2, 1, 1).is_ok());
    assert!(check_fit_dims(4, 3, 3).is_ok());
    assert!(check_fit_dims(1, 3, 1).is_err());
    assert!(check_fit_dims(0, 3, 1).is_err());
    assert!(check_fit_dims(4, 3, 0).is_err());
    assert!(check_fit_dims(4, 3, 4).is_err());
}

#[test]
fn eigen_order_is_stable_descending() {
    let vals: Vec<i64> = vec![5, 9, 9, 1, 9];
    let order = eigen_order_desc(&vals);
    assert_eq!(order, vec![1, 2, 4, 0, 3]);
}
