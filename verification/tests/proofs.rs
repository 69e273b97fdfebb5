use circle_stark::completeness::generator_is_sound;
use circle_stark::error::StarkError;
use circle_stark::fft::{get_initial_domain_of_size, inv_fft, reorder_domain, Domain};
use circle_stark::field::{multiply, MODULUS};
use circle_stark::fri::{
    domains_equal, extend_trace, fold, fold_factor_of, fold_with_positions, is_rbo_low_degree,
    prove_low_degree, shrink_positions, verify_low_degree, Proof,
};
use circle_stark::precomputes::build_subdomain_table;
use circle_stark::utils::folded_reverse_bit_order;

/// The values of a function whose first `degree` coefficients are
/// `3^i xor 7` and whose other coefficients are zero.
fn low_degree_values(size: usize, degree: usize) -> Vec<u32> {
    let mut coeffs = Vec::new();
    let mut power: u32 = 1;
    for i in 0..size {
        coeffs.push(if i < degree { (power ^ 7) % MODULUS } else { 0 });
        power = multiply(power, 3);
    }
    inv_fft(&coeffs, None).unwrap()
}

fn text(bytes: &Vec<u8>) -> String {
    String::from_utf8(bytes.clone()).unwrap()
}

fn scalars(d: &Domain) -> Vec<u32> {
    match d {
        Domain::Scalars(s) => s.clone(),
        Domain::Points(_) => panic!("a domain of points"),
    }
}

#[test]
fn values_of_the_test_function() {
    let ev = low_degree_values(1024, 201);
    assert_eq!(&ev[..4], &[354513747, 1130153101, 1284845243, 1636081656]);
    assert_eq!(ev[1023], 2062091435);
}

#[test]
fn fold_of_sixteen_values() {
    let values: Vec<u32> = (1..17).collect();
    let domain = Domain::Points(folded_reverse_bit_order(
        &get_initial_domain_of_size(MODULUS, 16).unwrap(),
    ));
    let (folded, left) = fold(&folded_reverse_bit_order(&values), 5, &domain).unwrap();
    assert_eq!(folded, vec![1465743084, 619185218]);
    assert_eq!(scalars(&left), vec![32768, 2147450879]);
}

#[test]
fn fold_refuses_a_domain_of_another_size() {
    let domain = Domain::Scalars(vec![1, 2, 3, 4]);
    assert_eq!(fold(&vec![1; 8], 1, &domain).err(), Some(StarkError::InvalidLength));
}

#[test]
fn fold_refuses_a_zero_coordinate() {
    let domain = Domain::Scalars(vec![0, 2, 3, 4, 5, 6, 7, 8]);
    assert_eq!(fold(&vec![1; 8], 1, &domain).err(), Some(StarkError::DivisionByZero));
}

#[test]
fn fold_of_constant_values_keeps_the_constant() {
    let domain = Domain::Scalars(vec![3, 5, 7, 9, 11, 13, 15, 17]);
    let (folded, _) = fold(&vec![42; 8], 123456, &domain).unwrap();
    assert_eq!(folded, vec![42]);
}

#[test]
fn low_degree_values_pass_the_direct_check() {
    let points = get_initial_domain_of_size(MODULUS, 8).unwrap();
    let values = inv_fft(&vec![1, 2, 3, 4, 0, 0, 0, 0], None).unwrap();
    let domain = Domain::Points(folded_reverse_bit_order(&points));
    assert_eq!(is_rbo_low_degree(&folded_reverse_bit_order(&values), &domain), Ok(true));
}

#[test]
fn high_degree_values_fail_the_direct_check() {
    let points = get_initial_domain_of_size(MODULUS, 8).unwrap();
    let values = inv_fft(&vec![1, 2, 3, 4, 0, 0, 1, 0], None).unwrap();
    let domain = Domain::Points(folded_reverse_bit_order(&points));
    assert_eq!(is_rbo_low_degree(&folded_reverse_bit_order(&values), &domain), Ok(false));
}

#[test]
fn the_direct_check_refuses_other_lengths() {
    let points = get_initial_domain_of_size(MODULUS, 8).unwrap();
    let domain = Domain::Points(points);
    assert_eq!(is_rbo_low_degree(&vec![1, 2, 3, 4], &domain), Err(StarkError::InvalidLength));
    assert_eq!(
        is_rbo_low_degree(&vec![1, 2, 3, 4], &Domain::Scalars(vec![0, 2, 3, 4])),
        Err(StarkError::DivisionByZero)
    );
}

#[test]
fn extend_trace_of_eight_values() {
    let extended = extend_trace(MODULUS, &vec![1, 2, 3, 4, 5, 6, 7, 8]).unwrap();
    assert_eq!(
        extended,
        vec![
            969151507, 1863054515, 374750145, 1582676992, 426398384, 1746552986, 1087439245,
            1960422082, 187061574, 1060044411, 400930670, 1721085272, 564806664, 1772733511,
            284429141, 1178332149
        ]
    );
    assert_eq!(extend_trace(MODULUS, &vec![1, 2, 3]), Err(StarkError::InvalidLength));
    assert_eq!(extend_trace(MODULUS, &Vec::new()), Err(StarkError::InvalidLength));
}

#[test]
fn proof_for_1024_values() {
    let ev = low_degree_values(1024, 201);
    let proof = prove_low_degree(&ev, &b"abc".to_vec()).ok().unwrap();
    assert_eq!(proof.roots.len(), 1);
    assert_eq!(
        text(&proof.roots[0]),
        "7493aebc7c0097247f4d2340277e7ca47f4d7ba869b9d426b9dd98c7f1461e23"
    );
    assert_eq!(fold_factor_of(&proof.roots), 1650866482);
    assert_eq!(proof.final_values.len(), 128);
    assert_eq!(&proof.final_values[..4], &[1057953029, 1907131179, 1119113164, 304473873]);
    assert_eq!(&scalars(&proof.final_domain)[..3], &[13610297, 2133873350, 1064696601]);
    assert_eq!(proof.branches.len(), 1);
    assert_eq!(proof.branches[0].len(), 80);
    assert_eq!(proof.branches[0][0].len(), 7);
    assert_eq!(
        text(&proof.branches[0][0][0]),
        "9f3bd7b2a8ae42292394f51c87f64cb5be9a067d1fd814cf681199a698e28de9"
    );
    assert_eq!(
        text(&proof.branches[0][0][1]),
        "7b35d60fe29831d42b5aa8bbff48b722444031d75bc0d5e2d06bc5447fffe334"
    );
    assert_eq!(proof.leaf_values[0].len(), 80);
    assert_eq!(
        proof.leaf_values[0][0],
        vec![
            1181504895, 1607573198, 92642682, 1364646707, 602436079, 428436648, 672046832,
            419933787
        ]
    );
    assert_eq!(proof.extra_entropy, b"abc".to_vec());
    assert_eq!(verify_low_degree(&proof), Ok(true));
}

#[test]
fn prove_then_verify_256_values() {
    let proof = prove_low_degree(&low_degree_values(256, 128), &Vec::new()).ok().unwrap();
    assert_eq!(proof.roots.len(), 0);
    assert_eq!(proof.final_values.len(), 256);
    assert_eq!(verify_low_degree(&proof), Ok(true));
}

#[test]
fn prove_then_verify_4096_values() {
    let proof = prove_low_degree(&low_degree_values(4096, 2048), &vec![1, 2]).ok().unwrap();
    assert_eq!(proof.roots.len(), 1);
    assert_eq!(proof.final_values.len(), 512);
    assert_eq!(verify_low_degree(&proof), Ok(true));
}

#[test]
fn prove_then_verify_65536_values() {
    let proof = prove_low_degree(&low_degree_values(65536, 32768), &Vec::new()).ok().unwrap();
    assert_eq!(proof.roots.len(), 3);
    assert_eq!(proof.final_values.len(), 128);
    assert_eq!(verify_low_degree(&proof), Ok(true));
}

#[test]
fn prove_then_verify_small_sizes() {
    for log in 3..8 {
        let n = 1usize << log;
        let proof = prove_low_degree(&low_degree_values(n, n / 2), &Vec::new()).ok().unwrap();
        assert_eq!(proof.roots.len(), 0);
        assert_eq!(verify_low_degree(&proof), Ok(true));
    }
}

#[test]
fn prove_is_deterministic() {
    let ev = low_degree_values(1024, 100);
    let a = prove_low_degree(&ev, &vec![7]).ok().unwrap();
    let b = prove_low_degree(&ev, &vec![7]).ok().unwrap();
    assert_eq!(a.roots, b.roots);
    assert_eq!(a.branches, b.branches);
    assert_eq!(a.leaf_values, b.leaf_values);
    assert_eq!(a.final_values, b.final_values);
    assert!(domains_equal(&a.final_domain, &b.final_domain));
}

#[test]
fn extra_entropy_moves_the_queries() {
    let ev = low_degree_values(1024, 100);
    let a = prove_low_degree(&ev, &vec![7]).ok().unwrap();
    let b = prove_low_degree(&ev, &vec![8]).ok().unwrap();
    assert_eq!(a.roots, b.roots);
    assert_ne!(a.leaf_values, b.leaf_values);
    assert_eq!(verify_low_degree(&b), Ok(true));
}

#[test]
fn a_flipped_bit_in_the_evaluations_fails() {
    let mut ev = low_degree_values(1024, 201);
    ev[5] ^= 1;
    let proof = prove_low_degree(&ev, &Vec::new()).ok().unwrap();
    assert_eq!(verify_low_degree(&proof), Ok(false));
}

#[test]
fn values_of_too_high_a_degree_fail() {
    let proof = prove_low_degree(&low_degree_values(1024, 513), &Vec::new()).ok().unwrap();
    assert_eq!(verify_low_degree(&proof), Ok(false));
    let small = prove_low_degree(&low_degree_values(64, 33), &Vec::new()).ok().unwrap();
    assert_eq!(verify_low_degree(&small), Ok(false));
}

#[test]
fn a_changed_leaf_value_fails() {
    let mut proof = prove_low_degree(&low_degree_values(1024, 201), &Vec::new()).ok().unwrap();
    proof.leaf_values[0][3][2] ^= 1;
    assert_eq!(verify_low_degree(&proof), Ok(false));
}

#[test]
fn a_changed_branch_fails() {
    let mut proof = prove_low_degree(&low_degree_values(1024, 201), &Vec::new()).ok().unwrap();
    proof.branches[0][79][6][0] ^= 1;
    assert_eq!(verify_low_degree(&proof), Ok(false));
}

#[test]
fn a_changed_root_fails() {
    let mut proof = prove_low_degree(&low_degree_values(1024, 201), &Vec::new()).ok().unwrap();
    proof.roots[0][0] ^= 1;
    assert_eq!(verify_low_degree(&proof), Ok(false));
}

#[test]
fn a_changed_final_value_fails() {
    let mut proof = prove_low_degree(&low_degree_values(1024, 201), &Vec::new()).ok().unwrap();
    proof.final_values[17] ^= 1;
    assert_eq!(verify_low_degree(&proof), Ok(false));
}

#[test]
fn a_changed_final_domain_fails() {
    let mut proof = prove_low_degree(&low_degree_values(1024, 201), &Vec::new()).ok().unwrap();
    let mut d = scalars(&proof.final_domain);
    d[0] ^= 1;
    proof.final_domain = Domain::Scalars(d);
    assert_eq!(verify_low_degree(&proof), Ok(false));
}

#[test]
fn changed_entropy_fails() {
    let mut proof = prove_low_degree(&low_degree_values(1024, 201), &vec![1]).ok().unwrap();
    proof.extra_entropy = vec![2];
    assert_eq!(verify_low_degree(&proof), Ok(false));
}

fn sound_proof() -> Proof {
    prove_low_degree(&low_degree_values(1024, 201), &Vec::new()).ok().unwrap()
}

#[test]
fn malformed_proofs_are_refused() {
    let mut p = sound_proof();
    p.final_values.pop();
    assert_eq!(verify_low_degree(&p), Err(StarkError::MalformedProof));

    let mut p = sound_proof();
    p.final_values.clear();
    assert_eq!(verify_low_degree(&p), Err(StarkError::MalformedProof));

    let mut p = sound_proof();
    p.branches.pop();
    assert_eq!(verify_low_degree(&p), Err(StarkError::MalformedProof));

    let mut p = sound_proof();
    p.leaf_values.push(Vec::new());
    assert_eq!(verify_low_degree(&p), Err(StarkError::MalformedProof));

    let mut p = sound_proof();
    p.branches[0].pop();
    assert_eq!(verify_low_degree(&p), Err(StarkError::MalformedProof));

    let mut p = sound_proof();
    p.leaf_values[0][5].pop();
    assert_eq!(verify_low_degree(&p), Err(StarkError::MalformedProof));

    let mut p = sound_proof();
    p.roots.clear();
    assert_eq!(verify_low_degree(&p), Err(StarkError::MalformedProof));

    let mut p = sound_proof();
    for _ in 0..10 {
        p.roots.push(vec![0; 64]);
        p.branches.push(p.branches[0].clone());
        p.leaf_values.push(p.leaf_values[0].clone());
    }
    assert_eq!(verify_low_degree(&p), Err(StarkError::MalformedProof));
}

#[test]
fn prove_refuses_other_lengths() {
    assert_eq!(prove_low_degree(&vec![1; 100], &Vec::new()).err(), Some(StarkError::InvalidLength));
    assert_eq!(prove_low_degree(&Vec::new(), &Vec::new()).err(), Some(StarkError::InvalidLength));
    assert_eq!(prove_low_degree(&vec![1; 4], &Vec::new()).err(), Some(StarkError::InvalidLength));
}

#[test]
fn position_and_domain_helpers() {
    assert_eq!(shrink_positions(&vec![0, 7, 8, 1023]), vec![0, 0, 1, 127]);
    let d = Domain::Scalars(vec![1, 2, 3, 4]);
    assert_eq!(scalars(&reorder_domain(&d)), vec![1, 4, 3, 2]);
    assert!(domains_equal(&d, &Domain::Scalars(vec![1, 2, 3, 4])));
    assert!(!domains_equal(&d, &Domain::Scalars(vec![1, 2, 3, 5])));
    assert!(!domains_equal(&d, &Domain::Points(Vec::new())));
}

#[test]
fn the_generator_is_sound() {
    assert!(generator_is_sound());
}

#[test]
fn fold_with_positions_follows_the_fold_of_the_whole() {
    let table = build_subdomain_table(64).unwrap();
    let values: Vec<u32> = (0..64u32).map(|i| multiply(i + 3, 1234567)).collect();
    let domain = Domain::Points(folded_reverse_bit_order(
        &get_initial_domain_of_size(MODULUS, 64).unwrap(),
    ));
    let (first, left) = fold(&values, 77, &domain).unwrap();
    assert_eq!(first.len(), 8);
    for c in 0..8usize {
        let positions: Vec<u32> = (8 * c as u32..8 * c as u32 + 8).collect();
        let leaf = values[8 * c..8 * c + 8].to_vec();
        assert_eq!(
            fold_with_positions(&leaf, 64, &positions, 77, true, &table),
            Ok(vec![first[c]])
        );
    }
    let (second, _) = fold(&first, 5, &left).unwrap();
    let positions: Vec<u32> = (0..8).collect();
    assert_eq!(fold_with_positions(&first, 8, &positions, 5, false, &table), Ok(second));
}

#[test]
fn fold_with_positions_refuses_what_the_table_does_not_hold() {
    let table = build_subdomain_table(16).unwrap();
    let positions: Vec<u32> = (0..8).collect();
    let values = vec![1u32; 8];
    assert_eq!(
        fold_with_positions(&values, 32, &positions, 1, true, &table),
        Err(StarkError::InvalidLength)
    );
    assert_eq!(
        fold_with_positions(&values, 16, &positions, 1, false, &table),
        Err(StarkError::InvalidLength)
    );
    assert_eq!(
        fold_with_positions(&values, 0, &positions, 1, true, &table),
        Err(StarkError::InvalidLength)
    );
    assert_eq!(
        fold_with_positions(&values, 16, &vec![0, 1], 1, true, &table),
        Err(StarkError::InvalidLength)
    );
    assert!(fold_with_positions(&values, 16, &positions, 1, true, &table).is_ok());
}
