use circle_stark::circle::{scalar_multiply, CircleImpl, CirclePoint, G, Z};
use circle_stark::error::StarkError;
use circle_stark::field::{
    addition, div, inverse, multiply, scalar_division, sqrt, subtract, HALF, MODULUS,
};
use circle_stark::utils::log2;

#[test]
fn addition_wraps_at_the_modulus() {
    assert_eq!(addition(MODULUS - 1, 5), 4);
    assert_eq!(addition(3, 4), 7);
    assert_eq!(addition(u32::MAX, u32::MAX), 2);
}

#[test]
fn subtract_wraps_below_zero() {
    assert_eq!(subtract(3, 5), MODULUS - 2);
    assert_eq!(subtract(5, 3), 2);
    assert_eq!(subtract(0, MODULUS), 0);
}

#[test]
fn multiply_reduces_the_product() {
    assert_eq!(multiply(123456789, 987654321), 2137109934);
    assert_eq!(multiply(2, HALF), 1);
    assert_eq!(multiply(MODULUS, 17), 0);
}

#[test]
fn inverse_of_three() {
    assert_eq!(inverse(3), Ok(1431655765));
    assert_eq!(multiply(3, 1431655765), 1);
}

#[test]
fn inverse_of_two_is_half() {
    assert_eq!(inverse(2), Ok(HALF));
}

#[test]
fn inverse_of_zero_is_refused() {
    assert_eq!(inverse(0), Err(StarkError::DivisionByZero));
    assert_eq!(inverse(MODULUS), Err(StarkError::DivisionByZero));
}

#[test]
fn inverse_is_not_the_identity_map() {
    assert_ne!(inverse(5), Ok(5));
    assert_eq!(multiply(5, inverse(5).unwrap()), 1);
}

#[test]
fn div_multiplies_by_the_inverse() {
    assert_eq!(div(10, 5), Ok(2));
    assert_eq!(div(1, 2), Ok(HALF));
    assert_eq!(div(7, 0), Err(StarkError::DivisionByZero));
}

#[test]
fn scalar_division_by_two_halves() {
    assert_eq!(scalar_division(10, 2), Ok(5));
    assert_eq!(scalar_division(1, 2), Ok(HALF));
    assert_eq!(scalar_division(1, 0), Err(StarkError::DivisionByZero));
}

#[test]
fn sqrt_of_minus_three() {
    let root = sqrt(MODULUS - 3).unwrap();
    assert_eq!(root, 1268011823);
    assert_eq!(multiply(root, root), MODULUS - 3);
}

#[test]
fn sqrt_of_zero_is_zero() {
    assert_eq!(sqrt(0), Ok(0));
}

#[test]
fn sqrt_of_a_non_square_is_refused() {
    // -1 is no square, since the modulus is 3 modulo 4
    assert_eq!(sqrt(MODULUS - 1), Err(StarkError::NoSquareRoot));
}

#[test]
fn sqrt_is_not_the_identity_map() {
    let root = sqrt(4).unwrap();
    assert_ne!(root, 4);
    assert_eq!(multiply(root, root), 4);
}

#[test]
fn log2_is_the_integer_logarithm() {
    assert_eq!(log2(0), 0);
    assert_eq!(log2(1), 0);
    assert_eq!(log2(2), 1);
    assert_eq!(log2(3), 1);
    assert_eq!(log2(128), 7);
    assert_eq!(log2(MODULUS), 30);
    assert_eq!(log2(u32::MAX), 31);
}

#[test]
fn generator_lies_on_the_circle() {
    let g = G();
    assert_eq!(addition(multiply(g.x, g.x), multiply(g.y, g.y)), 1);
}

#[test]
fn double_of_the_generator() {
    let d = G().double();
    assert_eq!(d, CirclePoint { x: 2147483640, y: 777079998 });
    assert_eq!(addition(multiply(d.x, d.x), multiply(d.y, d.y)), 1);
}

#[test]
fn double_stays_on_the_circle() {
    let mut p = G();
    for _ in 0..40 {
        p = p.double();
        assert_eq!(addition(multiply(p.x, p.x), multiply(p.y, p.y)), 1);
    }
}

#[test]
fn scalar_multiply_by_two_is_double() {
    let g = G();
    assert_eq!(scalar_multiply(g, 2), g.double());
    let p = scalar_multiply(g, 12345);
    assert_eq!(scalar_multiply(p, 2), p.double());
}

#[test]
fn scalar_multiply_by_zero_is_the_identity() {
    assert_eq!(scalar_multiply(G(), 0), Z());
    assert_eq!(Z(), CirclePoint { x: 1, y: 0 });
}

#[test]
fn scalar_multiply_by_one_is_the_point() {
    assert_eq!(scalar_multiply(G(), 1), G());
}

#[test]
fn scalar_multiply_by_five() {
    assert_eq!(scalar_multiply(G(), 5), CirclePoint { x: 873982426, y: 362 });
}

#[test]
fn add_of_generator_and_its_double() {
    let g = G();
    assert_eq!(g.add(g.double()), CirclePoint { x: 307175478, y: 2147483621 });
    assert_eq!(g.add(g.double()), scalar_multiply(g, 3));
}

#[test]
fn add_with_the_identity_changes_nothing() {
    assert_eq!(G().add(Z()), G());
}

#[test]
fn generator_has_order_two_to_the_31() {
    let mut p = G();
    for _ in 0..30 {
        p = p.double();
    }
    assert_eq!(p, CirclePoint { x: MODULUS - 1, y: 0 });
    assert_eq!(p.double(), Z());
}

#[test]
fn new_reduces_its_coordinates() {
    assert_eq!(CirclePoint::new(MODULUS + 3, MODULUS), CirclePoint { x: 3, y: 0 });
    assert_eq!(CirclePoint::new_with_field_elements(7, 9), CirclePoint { x: 7, y: 9 });
    assert_eq!(CirclePoint::new(7, 9).get_x(), 7);
    assert_eq!(CirclePoint::new(7, 9).get_y(), 9);
}

#[test]
fn zero_and_zeroes() {
    assert_eq!(CirclePoint::zero(), CirclePoint { x: 0, y: 0 });
    assert_eq!(CirclePoint::zeroes(3), vec![Z(), Z(), Z()]);
    assert_eq!(CirclePoint::zeroes(0), vec![]);
}

#[test]
fn inverse_of_the_coordinates() {
    let g = G();
    assert_eq!(g.inverse_y(), Ok(HALF));
    assert_eq!(multiply(g.inverse_x().unwrap(), g.x), 1);
    assert_eq!(Z().inverse_y(), Err(StarkError::DivisionByZero));
}
