use circle_stark::circle::{scalar_multiply, CircleImpl, CirclePoint, G};
use circle_stark::error::StarkError;
use circle_stark::fft::{
    double_times, fft, fft_on, get_generator, get_initial_domain_of_size,
    get_single_domain_value, halve_domain, halve_single_domain_value, halve_single_scalar,
    inv_fft, inv_fft_on, is_tuple, Domain,
};
use circle_stark::field::{multiply, MODULUS};
use circle_stark::precomputes::{
    bit_order_tables, build_subdomain_table, fast_fft, generator_point, inverse_x, inverse_y,
};
use circle_stark::utils::{
    even_entries, folded_reverse_bit_order, index_range, is_power_of_two, odd_entries, rbo,
    rbo_index_to_original, reverse_bit_order, reverse_bits, reversed,
};

fn scalars(d: Domain) -> Vec<u32> {
    match d {
        Domain::Scalars(s) => s,
        Domain::Points(_) => panic!("a domain of points"),
    }
}

fn point(x: u32, y: u32) -> CirclePoint {
    CirclePoint { x, y }
}

#[test]
fn generator_is_found_at_two() {
    assert_eq!(get_generator(MODULUS), Ok(G()));
}

#[test]
fn no_generator_in_an_empty_scan() {
    assert_eq!(get_generator(2), Err(StarkError::NoGeneratorFound));
    assert_eq!(get_generator(0), Err(StarkError::NoGeneratorFound));
}

#[test]
fn initial_domain_of_eight_points() {
    let d = get_initial_domain_of_size(MODULUS, 8).unwrap();
    assert_eq!(
        d,
        vec![
            point(590768354, 1168891274),
            point(1168891274, 590768354),
            point(978592373, 590768354),
            point(1556715293, 1168891274),
            point(1556715293, 978592373),
            point(978592373, 1556715293),
            point(1168891274, 1556715293),
            point(590768354, 978592373),
        ]
    );
}

#[test]
fn initial_domain_holds_odd_multiples() {
    let d = get_initial_domain_of_size(MODULUS, 16).unwrap();
    let g = double_times(G(), 26);
    for i in 0..16 {
        assert_eq!(d[i], scalar_multiply(g, 2 * i as u32 + 1));
        assert_eq!(get_single_domain_value(MODULUS, 16, i), Ok(d[i]));
    }
}

#[test]
fn initial_domain_refuses_sizes_without_room() {
    assert_eq!(get_initial_domain_of_size(MODULUS, 0), Err(StarkError::InvalidLength));
    assert_eq!(
        get_initial_domain_of_size(MODULUS, (1 << 30) + 1),
        Err(StarkError::InvalidLength)
    );
    assert_eq!(
        get_initial_domain_of_size(MODULUS, MODULUS as usize),
        Err(StarkError::InvalidLength)
    );
    assert_eq!(get_initial_domain_of_size(2, 1), Err(StarkError::NoGeneratorFound));
    assert_eq!(get_initial_domain_of_size(MODULUS, 1).unwrap().len(), 1);
}

#[test]
fn single_domain_value_of_position_three() {
    assert_eq!(get_single_domain_value(MODULUS, 8, 3), Ok(point(1556715293, 1168891274)));
    assert_eq!(get_single_domain_value(MODULUS, 8, 8), Err(StarkError::InvalidLength));
    assert_eq!(get_single_domain_value(MODULUS, 0, 0), Err(StarkError::InvalidLength));
}

#[test]
fn halve_domain_of_points_and_of_scalars() {
    let d = Domain::Points(get_initial_domain_of_size(MODULUS, 8).unwrap());
    assert!(is_tuple(&d));
    let h = halve_domain(&d, false);
    assert!(!is_tuple(&h));
    let first = scalars(h);
    assert_eq!(first, vec![590768354, 1168891274, 978592373, 1556715293]);
    let second = scalars(halve_domain(&Domain::Scalars(first.clone()), false));
    assert_eq!(second, vec![32768, 2147450879]);
    let kept = scalars(halve_domain(&Domain::Scalars(first), true));
    assert_eq!(kept.len(), 4);
    assert_eq!(kept[0], 32768);
    assert_eq!(scalars(halve_domain(&d, true)).len(), 8);
}

#[test]
fn halving_a_point_and_a_scalar() {
    assert_eq!(halve_single_domain_value(&point(5, 9)), 5);
    assert_eq!(halve_single_scalar(590768354), 32768);
    assert_eq!(halve_single_scalar(0), MODULUS - 1);
    assert_eq!(halve_single_scalar(1), 1);
}

#[test]
fn the_halved_domain_is_the_doubled_first_half() {
    let d = get_initial_domain_of_size(MODULUS, 16).unwrap();
    let h = scalars(halve_domain(&Domain::Points(d.clone()), false));
    let below = scalars(halve_domain(&Domain::Scalars(h), false));
    for i in 0..4 {
        assert_eq!(below[i], d[i].double().x);
    }
}

#[test]
fn fft_of_eight_values() {
    let d = Domain::Points(get_initial_domain_of_size(MODULUS, 8).unwrap());
    let c = fft(&vec![1, 2, 3, 4, 5, 6, 7, 8], Some(&d)).unwrap();
    assert_eq!(c, vec![1073741828, 1931893878, 0, 2147352575, 0, 165008033, 0, 2147483645]);
    assert_eq!(fft(&vec![1, 2, 3, 4, 5, 6, 7, 8], None), Ok(c));
}

#[test]
fn inv_fft_undoes_fft() {
    for log in 0..8 {
        let n = 1usize << log;
        let values: Vec<u32> = (0..n as u32).map(|i| multiply(i + 3, 1234567)).collect();
        let c = fft(&values, None).unwrap();
        assert_eq!(inv_fft(&c, None), Ok(values.clone()));
        let d = Domain::Points(get_initial_domain_of_size(MODULUS, n).unwrap());
        assert_eq!(inv_fft_on(&fft_on(&values, &d).unwrap(), &d), Ok(values));
    }
}

#[test]
fn fft_undoes_inv_fft() {
    for log in 0..8 {
        let n = 1usize << log;
        let coeffs: Vec<u32> = (0..n as u32).map(|i| multiply(i + 11, 7654321)).collect();
        let v = inv_fft(&coeffs, None).unwrap();
        assert_eq!(fft(&v, None), Ok(coeffs));
    }
}

#[test]
fn inv_fft_undoes_fft_on_scalars() {
    let points = Domain::Points(get_initial_domain_of_size(MODULUS, 16).unwrap());
    let d = halve_domain(&points, false);
    let values: Vec<u32> = vec![5, 4, 3, 2, 1, 0, 2147483646, 99];
    let c = fft(&values, Some(&d)).unwrap();
    assert_ne!(c, values);
    assert_eq!(inv_fft(&c, Some(&d)), Ok(values));
}

#[test]
fn fft_of_a_single_value_is_the_value() {
    let d = Domain::Points(get_initial_domain_of_size(MODULUS, 1).unwrap());
    assert_eq!(fft(&vec![42], Some(&d)), Ok(vec![42]));
    assert_eq!(inv_fft(&vec![42], Some(&d)), Ok(vec![42]));
    assert_eq!(fft(&vec![42], None), Ok(vec![42]));
}

#[test]
fn constant_values_have_one_coefficient() {
    let c = fft(&vec![7; 16], None).unwrap();
    assert_eq!(c[0], 7);
    assert!(c[1..].iter().all(|&x| x == 0));
}

#[test]
fn the_second_coordinate_has_coefficient_one_at_place_one() {
    let d = get_initial_domain_of_size(MODULUS, 8).unwrap();
    let ys: Vec<u32> = d.iter().map(|p| p.y).collect();
    let xs: Vec<u32> = d.iter().map(|p| p.x).collect();
    assert_eq!(fft(&ys, None), Ok(vec![0, 1, 0, 0, 0, 0, 0, 0]));
    assert_eq!(fft(&xs, None), Ok(vec![0, 0, 1, 0, 0, 0, 0, 0]));
    let xy: Vec<u32> = d.iter().map(|p| multiply(p.x, p.y)).collect();
    assert_eq!(fft(&xy, None), Ok(vec![0, 0, 0, 1, 0, 0, 0, 0]));
    let next: Vec<u32> = d.iter().map(|p| p.double().x).collect();
    assert_eq!(fft(&next, None), Ok(vec![0, 0, 0, 0, 1, 0, 0, 0]));
}

#[test]
fn transforms_refuse_other_lengths() {
    let d = Domain::Points(get_initial_domain_of_size(MODULUS, 8).unwrap());
    assert_eq!(fft(&vec![1, 2, 3], None), Err(StarkError::InvalidLength));
    assert_eq!(fft(&Vec::new(), None), Err(StarkError::InvalidLength));
    assert_eq!(fft(&vec![1, 2, 3, 4], Some(&d)), Err(StarkError::InvalidLength));
    assert_eq!(inv_fft(&vec![1, 2, 3, 4, 5, 6], None), Err(StarkError::InvalidLength));
    assert_eq!(inv_fft(&vec![1, 2], Some(&d)), Err(StarkError::InvalidLength));
    assert_eq!(inv_fft(&Vec::new(), Some(&d)), Err(StarkError::InvalidLength));
}

#[test]
fn fft_refuses_a_zero_coordinate() {
    let d = Domain::Scalars(vec![5, 0, 7, 9]);
    assert_eq!(fft(&vec![1, 2, 3, 4], Some(&d)), Err(StarkError::DivisionByZero));
    let e = Domain::Points(vec![point(1, 0), point(1, 0)]);
    assert_eq!(fft(&vec![1, 2], Some(&e)), Err(StarkError::DivisionByZero));
    assert!(inv_fft(&vec![1, 2, 3, 4], Some(&d)).is_ok());
}

#[test]
fn reverse_bit_order_of_sixteen() {
    assert_eq!(
        reverse_bit_order(16),
        vec![0, 8, 4, 12, 2, 10, 6, 14, 1, 9, 5, 13, 3, 11, 7, 15]
    );
    assert_eq!(reverse_bit_order(1), vec![0]);
    assert_eq!(reverse_bit_order(0), Vec::<u32>::new());
    assert_eq!(rbo(&index_range(16)), reverse_bit_order(16));
}

#[test]
fn reverse_bit_order_twice_is_the_identity() {
    for log in 0..10 {
        let n = 1u32 << log;
        let table = reverse_bit_order(n);
        assert_eq!(rbo(&table), index_range(n));
        for i in 0..n as usize {
            assert_eq!(table[table[i] as usize], i as u32);
            assert_eq!(table[i] as usize, reverse_bits(n as usize, i));
        }
    }
}

#[test]
fn folded_reverse_bit_order_of_sixteen() {
    assert_eq!(
        folded_reverse_bit_order(&index_range(16)),
        vec![0, 15, 8, 7, 4, 11, 12, 3, 2, 13, 10, 5, 6, 9, 14, 1]
    );
}

#[test]
fn folded_reverse_bit_order_twice_is_the_identity() {
    for log in 0..10 {
        let n = 1u32 << log;
        let once = folded_reverse_bit_order(&index_range(n));
        assert_eq!(folded_reverse_bit_order(&once), index_range(n));
    }
}

#[test]
fn rbo_index_to_original_follows_the_folded_order() {
    assert_eq!(rbo_index_to_original(1, 0), 0);
    for log in 1..10 {
        let n = 1usize << log;
        let table = folded_reverse_bit_order(&index_range(n as u32));
        for i in 0..n {
            assert_eq!(rbo_index_to_original(n, i), table[i] as usize);
        }
    }
}

#[test]
fn entry_helpers() {
    assert_eq!(even_entries(&vec![1, 2, 3, 4, 5]), vec![1, 3, 5]);
    assert_eq!(odd_entries(&vec![1, 2, 3, 4, 5]), vec![2, 4]);
    assert_eq!(reversed(&vec![1, 2, 3]), vec![3, 2, 1]);
    assert_eq!(rbo(&vec![7]), vec![7]);
    assert_eq!(rbo(&Vec::<u32>::new()), Vec::<u32>::new());
    assert!(is_power_of_two(1) && is_power_of_two(64) && !is_power_of_two(0));
    assert!(!is_power_of_two(12));
}

#[test]
fn bit_order_tables_for_eight() {
    let (rbos, folded) = bit_order_tables(8).unwrap();
    assert_eq!(rbos, vec![0, 0, 0, 1, 0, 2, 1, 3, 0, 0, 0, 0, 0, 0, 0, 0]);
    assert_eq!(folded, vec![0, 0, 0, 1, 0, 3, 2, 1, 0, 0, 0, 0, 0, 0, 0, 0]);
    assert_eq!(bit_order_tables(6), Err(StarkError::InvalidLength));
    assert_eq!(bit_order_tables(0), Err(StarkError::InvalidLength));
}

#[test]
fn subdomain_table_holds_the_domains() {
    let table = build_subdomain_table(16).unwrap();
    assert_eq!(table.len(), 32);
    assert_eq!(table[0], point(1, 0));
    for log in 0..5 {
        let k = 1usize << log;
        let d = get_initial_domain_of_size(MODULUS, k).unwrap();
        assert_eq!(&table[k..2 * k], &d[..]);
    }
}

#[test]
fn subdomain_table_nests() {
    let table = build_subdomain_table(64).unwrap();
    let mut k = 1;
    while k < 64 {
        for j in 0..k {
            assert_eq!(table[2 * k + j].double(), table[k + j]);
        }
        k *= 2;
    }
}

#[test]
fn subdomain_table_refuses_other_sizes() {
    assert_eq!(build_subdomain_table(0), Err(StarkError::InvalidLength));
    assert_eq!(build_subdomain_table(24), Err(StarkError::InvalidLength));
    assert_eq!(build_subdomain_table(1).unwrap(), vec![point(1, 0), point(MODULUS - 1, 0)]);
}

#[test]
fn generator_point_has_order_two_to_the_25() {
    let g = generator_point(G());
    assert_eq!(g, double_times(G(), 6));
    assert_eq!(double_times(g, 24), point(MODULUS - 1, 0));
}

#[test]
fn inverse_tables() {
    let table = build_subdomain_table(16).unwrap();
    let upper: Vec<CirclePoint> = table[4..].to_vec();
    let invx = inverse_x(&upper).unwrap();
    let invy = inverse_y(&upper).unwrap();
    for i in 0..upper.len() {
        assert_eq!(multiply(invx[i], upper[i].x), 1);
        assert_eq!(multiply(invy[i], upper[i].y), 1);
    }
    assert_eq!(inverse_y(&table), Err(StarkError::DivisionByZero));
    assert_eq!(inverse_x(&table), Err(StarkError::DivisionByZero));
    assert_eq!(inverse_x(&Vec::new()), Ok(Vec::new()));
}

#[test]
fn fast_fft_is_fft_on_the_domain_of_the_table() {
    let table = build_subdomain_table(64).unwrap();
    for log in 0..7 {
        let n = 1usize << log;
        let values: Vec<u32> = (0..n as u32).map(|i| multiply(i + 5, 99991)).collect();
        assert_eq!(fast_fft(&values, true, &table), fft(&values, None));
    }
    assert_eq!(
        fast_fft(&vec![1, 2, 3, 4, 5, 6, 7, 8], true, &table),
        Ok(vec![1073741828, 1931893878, 0, 2147352575, 0, 165008033, 0, 2147483645])
    );
}

#[test]
fn fast_fft_below_the_top_level() {
    let table = build_subdomain_table(64).unwrap();
    for log in 0..6 {
        let n = 1usize << log;
        let values: Vec<u32> = (0..n as u32).map(|i| multiply(i + 5, 99991)).collect();
        let points = Domain::Points(get_initial_domain_of_size(MODULUS, 2 * n).unwrap());
        let below = halve_domain(&points, false);
        assert_eq!(fast_fft(&values, false, &table), fft(&values, Some(&below)));
    }
}

#[test]
fn fast_fft_refuses_what_the_table_does_not_hold() {
    let table = build_subdomain_table(8).unwrap();
    assert_eq!(fast_fft(&vec![1; 16], true, &table), Err(StarkError::InvalidLength));
    assert_eq!(fast_fft(&vec![1; 8], false, &table), Err(StarkError::InvalidLength));
    assert_eq!(fast_fft(&vec![1; 3], true, &table), Err(StarkError::InvalidLength));
    assert_eq!(fast_fft(&Vec::new(), true, &table), Err(StarkError::InvalidLength));
    assert!(fast_fft(&vec![1; 8], true, &table).is_ok());
    assert!(fast_fft(&vec![1; 4], false, &table).is_ok());
    assert_eq!(fast_fft(&vec![1, 2], true, &Vec::new()), Err(StarkError::InvalidLength));
}
