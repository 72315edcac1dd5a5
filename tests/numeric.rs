use einsum_bench::perm::{canonical_perms, permute_labels};
use strided_view::StridedArray;

fn chars(s: &str) -> Vec<char> {
    s.chars().collect()
}

fn filled(dims: &[usize], seed: f64) -> StridedArray<f64> {
    let mut a = StridedArray::<f64>::col_major(dims);
    for (k, x) in a.data_mut().iter_mut().enumerate() {
        *x = seed + (k as f64) * 0.25 - ((k * 7) % 5) as f64;
    }
    a
}

#[test]
fn canonical_copy_preserves_contraction() {
    let ia = chars("caxdb");
    let ib = chars("hcxdk");
    let ic = chars("abhkx");
    let a = filled(&vec![2; ia.len()], 1.0);
    let b = filled(&vec![2; ib.len()], -2.0);
    let c_dims = vec![2; ic.len()];

    let mut full = StridedArray::<f64>::col_major(&c_dims);
    strided_einsum2::einsum2_into_owned(
        full.view_mut(), a.clone(), b.clone(), &ic, &ia, &ib, 1.0, 0.0, false, false,
    )
    .unwrap();

    let (left, right) = canonical_perms(&ia, &ib, &ic).unwrap();
    let a_perm = a.clone().permuted(&left).unwrap();
    let b_perm = b.clone().permuted(&right).unwrap();
    let mut a_contig = StridedArray::<f64>::col_major(a_perm.dims());
    strided_perm::copy_into(&mut a_contig.view_mut(), &a_perm.view()).unwrap();
    let mut b_contig = StridedArray::<f64>::col_major(b_perm.dims());
    strided_perm::copy_into(&mut b_contig.view_mut(), &b_perm.view()).unwrap();
    let ia_canon = permute_labels(&ia, &left);
    let ib_canon = permute_labels(&ib, &right);

    let mut canon = StridedArray::<f64>::col_major(&c_dims);
    strided_einsum2::einsum2_into_owned(
        canon.view_mut(), a_contig, b_contig, &ic, &ia_canon, &ib_canon, 1.0, 0.0, false, false,
    )
    .unwrap();

    assert!(full.data().iter().any(|x| *x != 0.0));
    for (x, y) in full.data().iter().zip(canon.data().iter()) {
        assert!((x - y).abs() <= 1e-9 * (1.0 + x.abs()));
    }
}
