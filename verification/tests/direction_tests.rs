use falling_sand::direction::{CornerDirection, Direction, EightDirection};
use falling_sand::vector::{I16Vec2, UVec2};

#[test]
fn axis_offsets() {
    assert_eq!(Direction::NegX.i16vec2(), I16Vec2::new(-1, 0));
    assert_eq!(Direction::PosX.i16vec2(), I16Vec2::new(1, 0));
    assert_eq!(Direction::NegY.i16vec2(), I16Vec2::new(0, -1));
    assert_eq!(Direction::PosY.i16vec2(), I16Vec2::new(0, 1));
}

#[test]
fn corner_offsets() {
    assert_eq!(CornerDirection::NegXNegY.i16vec2(), I16Vec2::new(-1, -1));
    assert_eq!(CornerDirection::PosXNegY.i16vec2(), I16Vec2::new(1, -1));
    assert_eq!(CornerDirection::NegXPosY.i16vec2(), I16Vec2::new(-1, 1));
    assert_eq!(CornerDirection::PosXPosY.i16vec2(), I16Vec2::new(1, 1));
}

#[test]
fn eight_direction_offsets_follow_their_parts() {
    let axes = [Direction::NegX, Direction::PosX, Direction::NegY, Direction::PosY];
    let corners = [
        CornerDirection::NegXNegY,
        CornerDirection::PosXNegY,
        CornerDirection::NegXPosY,
        CornerDirection::PosXPosY,
    ];
    for d in axes {
        assert_eq!(EightDirection::from(d).i16vec2(), d.i16vec2());
        assert!(matches!(EightDirection::from(d), EightDirection::Axis(_)));
    }
    for c in corners {
        assert_eq!(EightDirection::from(c).i16vec2(), c.i16vec2());
        assert!(matches!(EightDirection::from(c), EightDirection::Corner(_)));
    }
}

#[test]
fn eight_directions_reach_eight_distinct_neighbours() {
    let all = [
        EightDirection::Axis(Direction::NegX),
        EightDirection::Axis(Direction::PosX),
        EightDirection::Axis(Direction::NegY),
        EightDirection::Axis(Direction::PosY),
        EightDirection::Corner(CornerDirection::NegXNegY),
        EightDirection::Corner(CornerDirection::PosXNegY),
        EightDirection::Corner(CornerDirection::NegXPosY),
        EightDirection::Corner(CornerDirection::PosXPosY),
    ];
    let offsets: Vec<I16Vec2> = all.iter().map(|d| d.i16vec2()).collect();
    for (i, a) in offsets.iter().enumerate() {
        assert!(a.x != 0 || a.y != 0);
        assert!(a.x.abs() <= 1 && a.y.abs() <= 1);
        for b in offsets.iter().skip(i + 1) {
            assert_ne!(a, b);
        }
    }
}

#[test]
fn cast_u16_wraps_negative_components() {
    let v = I16Vec2::new(-1, 7).cast_u16();
    assert_eq!((v.x, v.y), (65535u16, 7u16));
    let w = I16Vec2::new(i16::MIN, 0).cast_u16();
    assert_eq!((w.x, w.y), (32768u16, 0u16));
}

#[test]
fn try_cast_u16_refuses_negative_components() {
    let some: Option<UVec2<u16>> = I16Vec2::new(3, 4).try_cast_u16();
    let v = some.unwrap();
    assert_eq!((v.x, v.y), (3u16, 4u16));
    assert!(I16Vec2::new(-1, 4).try_cast_u16().is_none());
    assert!(I16Vec2::new(3, -4).try_cast_u16().is_none());
}
