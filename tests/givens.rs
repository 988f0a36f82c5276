use blas_level1::givens::{promote, rotm_matrix, store_params, RotmFlag};

#[test]
fn flag_codes() {
    assert_eq!(RotmFlag::Full.code(), -1);
    assert_eq!(RotmFlag::OffDiagonal.code(), 0);
    assert_eq!(RotmFlag::Diagonal.code(), 1);
    assert_eq!(RotmFlag::Identity.code(), -2);
}

#[test]
fn rotm_matrix_reads_by_flag() {
    // Slots: [flag, h11, h21, h12, h22]
    let p = [9.0, 1.5, 2.5, 3.5, 4.5];
    assert_eq!(rotm_matrix(RotmFlag::Full, &p, 0.0, 1.0, -1.0), (1.5, 3.5, 2.5, 4.5));
    assert_eq!(rotm_matrix(RotmFlag::OffDiagonal, &p, 0.0, 1.0, -1.0), (1.0, 3.5, 2.5, 1.0));
    assert_eq!(rotm_matrix(RotmFlag::Diagonal, &p, 0.0, 1.0, -1.0), (1.5, 1.0, -1.0, 4.5));
    assert_eq!(rotm_matrix(RotmFlag::Identity, &p, 0.0, 1.0, -1.0), (1.0, 0.0, 0.0, 1.0));
}

#[test]
fn store_params_writes_only_stored_entries() {
    let h = (11.0, 12.0, 21.0, 22.0);
    let mut p = [7.0; 5];
    store_params(RotmFlag::Full, h, -1.0, &mut p);
    assert_eq!(p, [-1.0, 11.0, 21.0, 12.0, 22.0]);
    let mut p = [7.0; 5];
    store_params(RotmFlag::OffDiagonal, h, 0.0, &mut p);
    assert_eq!(p, [0.0, 7.0, 21.0, 12.0, 7.0]);
    let mut p = [7.0; 5];
    store_params(RotmFlag::Diagonal, h, 1.0, &mut p);
    assert_eq!(p, [1.0, 11.0, 7.0, 7.0, 22.0]);
    let mut p = [7.0; 5];
    store_params(RotmFlag::Identity, h, -2.0, &mut p);
    assert_eq!(p, [-2.0, 7.0, 7.0, 7.0, 7.0]);
}

#[test]
fn stored_params_read_back_matrix() {
    let h = (0.25, 1.0, -1.0, 4.0);
    let mut p = [0.0; 5];
    store_params(RotmFlag::Diagonal, h, 1.0, &mut p);
    assert_eq!(rotm_matrix(RotmFlag::Diagonal, &p, 0.0, 1.0, -1.0), h);
}

#[test]
fn promote_fills_implied_entries() {
    assert_eq!(
        promote(RotmFlag::OffDiagonal, (0.0, 2.0, 3.0, 0.0), 1.0, -1.0),
        (RotmFlag::Full, (1.0, 2.0, 3.0, 1.0))
    );
    assert_eq!(
        promote(RotmFlag::Diagonal, (2.0, 0.0, 0.0, 3.0), 1.0, -1.0),
        (RotmFlag::Full, (2.0, 1.0, -1.0, 3.0))
    );
    // A dense transform keeps its entries, also on a second rescaling step.
    assert_eq!(
        promote(RotmFlag::Full, (2.0, 0.5, -0.5, 3.0), 1.0, -1.0),
        (RotmFlag::Full, (2.0, 0.5, -0.5, 3.0))
    );
}
