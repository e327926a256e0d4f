use num_bigint::BigInt;
use ternary_spatial::database::all_directions;
use ternary_spatial::direction::Direction48;
use ternary_spatial::spine::{HexPoint, TensorSpine};

fn triple(d: &Direction48) -> (BigInt, BigInt, BigInt) {
    (
        BigInt::from_signed_bytes_le(d.a.signed_bytes_le()),
        BigInt::from_signed_bytes_le(d.b.signed_bytes_le()),
        BigInt::from_signed_bytes_le(d.c.signed_bytes_le()),
    )
}

#[test]
fn test_tensor_spine_num_directions() {
    let n = TensorSpine::num_directions();
    assert!(n >= 100, "expected ≥100 directions, got {}", n);
}

#[test]
fn spine_origin_compose_and_rotate() {
    let spine = TensorSpine::origin();
    assert_eq!(spine.position, HexPoint::origin());
    assert!(spine.direction.eq_normalized(&Direction48::identity()));

    let dirs = all_directions();
    let rotated = spine.compose_rotation(&dirs[1]);
    assert_eq!(rotated.position, HexPoint::origin());
    assert!(rotated.direction.is_valid());
    assert_eq!(triple(&rotated.direction), triple(&dirs[1]));

    let turned = spine.rotate(3);
    assert_eq!(triple(&turned.direction), triple(&dirs[3]));
    let wrapped = spine.rotate((dirs.len() + 5) as u32);
    assert_eq!(triple(&wrapped.direction), triple(&dirs[5]));

    let chained = spine.compose_rotation(&dirs[5]).set_position(4, -2).rotate(3);
    assert!(chained.direction.is_valid());
    assert_eq!(chained.position, HexPoint::new(4, -2));
    assert_eq!(rotated.state_hash(), rotated.state_hash());
}

#[test]
fn spine_state_hash_text() {
    let spine = TensorSpine::new(Direction48::new(-3, 4, 5), HexPoint::new(12, -7));
    assert_eq!(spine.state_hash(), "TS(d=-3/4@5|p=(12,-7))");
    assert_eq!(TensorSpine::origin().state_hash(), "TS(d=1/0@1|p=(0,0))");
    let moved = spine.set_position(-100, 200);
    assert_eq!(moved.state_hash(), "TS(d=-3/4@5|p=(-100,200))");
}

#[test]
fn test_tensor_spine_integration() {
    // Create spine at origin
    let spine = TensorSpine::origin();
    assert_eq!(spine.position, HexPoint::origin());
    assert_eq!(spine.direction, Direction48::identity());

    // Compose a rotation
    let dirs = all_directions();
    let rotated = spine.compose_rotation(&dirs[1]);
    assert_eq!(rotated.position, HexPoint::origin());
    assert!(rotated.direction.is_valid());

    // Chain: compose + rotate
    let dir = &dirs[5];
    let chained = spine.compose_rotation(dir).rotate(3);
    assert!(chained.direction.is_valid(), "Chained operations should preserve direction validity");

    // State hash should be deterministic
    assert_eq!(rotated.state_hash(), rotated.state_hash(), "state_hash should be deterministic");
}

#[test]
fn rotate_with_a_built_database_matches_rotate() {
    let dirs = all_directions();
    let spine = TensorSpine::new(Direction48::new(3, 4, 5), HexPoint::new(1, 2));
    for index in [0u32, 7, 200, 1000] {
        let a = spine.rotate(index);
        let b = spine.rotate_with(&dirs, index);
        assert_eq!(triple(&a.direction), triple(&b.direction));
        assert_eq!(b.position, HexPoint::new(1, 2));
    }
    let small = vec![Direction48::new(0, 1, 1)];
    let turned = spine.rotate_with(&small, 9);
    assert_eq!(triple(&turned.direction), (BigInt::from(-4), BigInt::from(3), BigInt::from(5)));
}

#[test]
fn directions_clone_keeps_components() {
    let d = Direction48::new(-20, 21, 29);
    let e = d.clone();
    assert_eq!(triple(&d), triple(&e));
}

#[test]
fn spine_clone_keeps_direction_and_position() {
    let spine = TensorSpine::new(Direction48::new(8, 15, 17), HexPoint::new(-2, 7));
    let copy = spine.clone();
    assert_eq!(triple(&copy.direction), triple(&spine.direction));
    assert_eq!(copy.position, spine.position);
    assert_eq!(copy.state_hash(), spine.state_hash());
}
