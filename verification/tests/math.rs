use hexmod_yog::math::{HexAngle, HexCoord, HexDir, HexPattern, PatternStatus};

const DIRS: [HexDir; 6] = [
    HexDir::NorthEast,
    HexDir::East,
    HexDir::SouthEast,
    HexDir::SouthWest,
    HexDir::West,
    HexDir::NorthWest,
];

#[test]
fn dir_ordinals_roundtrip() {
    for (i, d) in DIRS.iter().enumerate() {
        assert_eq!(d.ordinal() as usize, i);
        assert_eq!(HexDir::from_ordinal(d.ordinal()), *d);
    }
    assert_eq!(HexDir::from_ordinal(7), HexDir::East);
    assert_eq!(HexDir::from_ordinal(255), HexDir::SouthWest);
    assert_eq!(HexAngle::from_ordinal(11), HexAngle::ThreeHundred);
    assert_eq!(HexAngle::OneEighty.ordinal(), 3);
}

#[test]
fn rotation_and_angle_are_inverse() {
    assert_eq!(HexDir::West.rotated_by(HexAngle::OneTwenty), HexDir::NorthEast);
    assert_eq!(HexDir::NorthEast.rotated_by(HexAngle::Zero), HexDir::NorthEast);
    assert_eq!(HexDir::NorthEast.angle_from(HexDir::NorthWest), HexAngle::Sixty);
    assert_eq!(HexDir::NorthWest.angle_from(HexDir::NorthEast), HexAngle::ThreeHundred);
    for a in DIRS {
        for b in DIRS {
            assert_eq!(b.rotated_by(a.angle_from(b)), a);
        }
        for k in 0..6u8 {
            let ang = HexAngle::from_ordinal(k);
            assert_eq!(a.rotated_by(ang).angle_from(a), ang);
        }
    }
}

#[test]
fn deltas_and_neighbors() {
    assert_eq!(HexDir::NorthEast.as_delta(), HexCoord(1, -1));
    assert_eq!(HexDir::SouthWest.as_delta(), HexCoord(-1, 1));
    let c = HexCoord::new(3, -2);
    let n = c.neighbors();
    assert_eq!(n, [HexCoord(4, -3), HexCoord(4, -2), HexCoord(3, -1), HexCoord(2, -1), HexCoord(2, -2), HexCoord(3, -3)]);
    assert_eq!(c.add(HexCoord(1, 1)).sub(HexCoord(1, 1)), c);
    assert_eq!(HexCoord::default(), HexCoord(0, 0));
}

#[test]
fn dir_names() {
    assert_eq!(HexDir::from_string("NORTH_EAST"), Some(HexDir::NorthEast));
    assert_eq!(HexDir::from_string("sw"), Some(HexDir::SouthWest));
    assert_eq!(HexDir::from_string("West"), Some(HexDir::West));
    assert_eq!(HexDir::from_string("north_west"), Some(HexDir::NorthWest));
    assert_eq!(HexDir::from_string("up"), None);
    assert_eq!(HexDir::from_string(""), None);
    assert_eq!(HexDir::from_upper_name("se"), None);
    assert_eq!(HexDir::from_upper_name("SE"), Some(HexDir::SouthEast));
    assert_eq!(HexDir::SouthEast.display_string(), "SOUTH_EAST");
    assert_eq!(HexDir::East.display_string(), "EAST");
}

#[test]
fn pattern_lists() {
    let p = HexPattern::from_list(vec![HexDir::East, HexDir::West, HexDir::NorthEast]);
    assert_eq!(p.start, HexDir::East);
    assert_eq!(p.steps, vec![HexDir::West, HexDir::NorthEast]);
    assert_eq!(p.all_dirs(), vec![HexDir::East, HexDir::West, HexDir::NorthEast]);
    let empty = HexPattern::from_list(vec![]);
    assert_eq!(empty, HexPattern::new(HexDir::NorthEast, vec![]));
    assert_eq!(HexPattern::from_list(p.all_dirs()), p);
    // East then back west returns to the first vertex before the end.
    assert!(!p.is_valid());
    assert!(empty.is_valid());
    assert_eq!(p.clone(), p);
}

#[test]
fn pattern_serialization() {
    let p = HexPattern::new(HexDir::East, vec![HexDir::NorthEast, HexDir::West, HexDir::SouthWest]);
    assert_eq!(p.serialized_form(), "BAED");
    assert_eq!(HexPattern::from_serialized("BAED"), Some(p.clone()));
    assert_eq!(HexPattern::from_serialized(&p.serialized_form()), Some(p));
    assert_eq!(
        HexPattern::from_serialized("Fx-AZ"),
        Some(HexPattern::new(HexDir::NorthWest, vec![HexDir::NorthEast]))
    );
    assert_eq!(HexPattern::from_serialized(""), None);
    assert_eq!(HexPattern::from_serialized("xAB"), None);
    assert_eq!(HexPattern::from_serialized("a"), None);
    assert_eq!(HexPattern::from_serialized("F"), Some(HexPattern::new(HexDir::NorthWest, vec![])));
}

#[test]
fn pattern_centroid() {
    // Vertices after each segment: (1,0), (2,0), (3,-1): sum (6,-1), mean (2, 0).
    let p = HexPattern::new(HexDir::East, vec![HexDir::East, HexDir::NorthEast]);
    assert_eq!(p.centroid(), HexCoord(2, 0));
    // Vertices (-1,0), (-2,0): sum (-3, 0), mean rounds toward zero to (-1, 0).
    let q = HexPattern::new(HexDir::West, vec![HexDir::West]);
    assert_eq!(q.centroid(), HexCoord(-1, 0));
    // Vertices (0,-1), (1,-2), (2,-2), (1,-1): sum (4,-6), mean (1,-1).
    let r = HexPattern::new(HexDir::NorthWest, vec![HexDir::NorthEast, HexDir::East, HexDir::SouthWest]);
    assert_eq!(r.centroid(), HexCoord(1, -1));
    let single = HexPattern::new(HexDir::SouthWest, vec![]);
    assert_eq!(single.centroid(), HexCoord(-1, 1));
}

#[test]
fn pattern_status_values() {
    assert_ne!(PatternStatus::Open, PatternStatus::Closed);
    assert_eq!(PatternStatus::Invalid, PatternStatus::Invalid);
    assert_ne!(PatternStatus::Incomplete, PatternStatus::Invalid);
}

#[test]
fn pattern_validity() {
    // Out, back and out again: vertices repeat.
    let back = HexPattern::new(HexDir::NorthEast, vec![HexDir::SouthWest, HexDir::NorthEast]);
    assert!(!back.is_valid());
    // A closed triangle ends where it starts: valid.
    let triangle = HexPattern::new(HexDir::NorthEast, vec![HexDir::SouthEast, HexDir::West]);
    assert!(triangle.is_valid());
    // A closed triangle walked on past its start repeats a vertex.
    let past = HexPattern::new(
        HexDir::NorthEast,
        vec![HexDir::SouthEast, HexDir::West, HexDir::NorthEast],
    );
    assert!(!past.is_valid());
    // A straight line never repeats.
    let line = HexPattern::new(HexDir::East, vec![HexDir::East, HexDir::East]);
    assert!(line.is_valid());
}
