use flowfield::dirs::{
    u8_to_vector, vector_to_u8, FlowVec, DOWN, DOWN_LEFT, DOWN_RIGHT, IMPASSABLE, LEFT, RIGHT,
    TARGET, UP, UP_LEFT, UP_RIGHT,
};

fn vec2(x: i32, y: i32) -> FlowVec {
    FlowVec { x, y }
}

#[test]
fn round_trip_eight_directions() {
    for code in [UP, UP_RIGHT, RIGHT, DOWN_RIGHT, DOWN, DOWN_LEFT, LEFT, UP_LEFT] {
        let v = u8_to_vector(code).expect("real direction decodes");
        assert_eq!(vector_to_u8(v), Some(code));
    }
}

#[test]
fn decoded_directions_match_compass() {
    assert_eq!(u8_to_vector(UP), Some(vec2(0, 1)));
    assert_eq!(u8_to_vector(UP_RIGHT), Some(vec2(1, 1)));
    assert_eq!(u8_to_vector(RIGHT), Some(vec2(1, 0)));
    assert_eq!(u8_to_vector(DOWN_RIGHT), Some(vec2(1, -1)));
    assert_eq!(u8_to_vector(DOWN), Some(vec2(0, -1)));
    assert_eq!(u8_to_vector(DOWN_LEFT), Some(vec2(-1, -1)));
    assert_eq!(u8_to_vector(LEFT), Some(vec2(-1, 0)));
    assert_eq!(u8_to_vector(UP_LEFT), Some(vec2(-1, 1)));
}

#[test]
fn sentinels_decode_to_zero() {
    assert_eq!(u8_to_vector(TARGET), Some(vec2(0, 0)));
    assert_eq!(u8_to_vector(IMPASSABLE), Some(vec2(0, 0)));
}

#[test]
fn bytes_past_the_codes_are_rejected() {
    assert_eq!(u8_to_vector(10), None);
    assert_eq!(u8_to_vector(100), None);
    assert_eq!(u8_to_vector(u8::MAX), None);
}

#[test]
fn zero_vector_encodes_to_target() {
    assert_eq!(vector_to_u8(vec2(0, 0)), Some(TARGET));
}

#[test]
fn non_unit_vectors_are_rejected() {
    assert_eq!(vector_to_u8(vec2(2, 0)), None);
    assert_eq!(vector_to_u8(vec2(-1, 2)), None);
}
