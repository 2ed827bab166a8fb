use tile_automata::visuals::geom::build_profiles::{LayerProfileIndex, WallProfileIndex};
use tile_automata::visuals::geom::geom::{get_rect_profiles, GeometryStorageVerticalKey, GeometryStorageWallKey, ObjectProfile};
use tile_automata::visuals::geom::handles::{GeometryHandle, GeometryHandleSet};
use tile_automata::visuals::geom::orientations::GeomOrientation;
use tile_automata::visuals::geom::socket::{SocketProfile, SocketProfileCreationError};
use tile_automata::visuals::geom::transformation::GeomTransformation;
use tile_automata::visuals::geom::vertical::{VerticalProfile, VerticalProfileParseError};
use tile_automata::visuals::geom::walls::WallProfile;

#[test]
fn orientation_index_in_sequence() {
    let standard = GeomOrientation::Standard { rotations: 1 };
    assert_eq!(standard.get_index_in_sequence(3, 4, false), 0);
    let flipped = GeomOrientation::Flipped { rotations: 0 };
    assert_eq!(flipped.get_index_in_sequence(0, 4, false), 2);
    assert_eq!(flipped.get_index_in_sequence(0, 4, true), 3);
    assert!(flipped.is_reversed());
    assert!(!standard.is_reversed());
}

#[test]
fn orientation_bits_round_trip() {
    let o = GeomOrientation::Flipped { rotations: 2 };
    let bits = o.to_bits() | GeomOrientation::Standard { rotations: 1 }.to_bits();
    assert_eq!(
        GeomOrientation::from_bits(bits, 4),
        vec![GeomOrientation::Standard { rotations: 1 }, GeomOrientation::Flipped { rotations: 2 }]
    );
    assert_eq!(GeomOrientation::Standard { rotations: 3 }.to_bits(), 0x8);
}

#[test]
fn orientation_inverse_and_compose() {
    let o = GeomOrientation::Standard { rotations: 1 };
    let inv = o.inverse(4);
    assert_eq!(inv, GeomOrientation::Standard { rotations: 3 });
    assert_eq!(o.compose(inv, 4), GeomOrientation::Standard { rotations: 0 });
    let f = GeomOrientation::Flipped { rotations: 3 };
    assert_eq!(f.compose(GeomOrientation::Standard { rotations: 2 }, 4), GeomOrientation::Flipped { rotations: 1 });
}

#[test]
fn handle_text() {
    let h = GeometryHandle { index: 12, orientation: GeomOrientation::Flipped { rotations: 3 } };
    assert_eq!(GeometryHandle::pretty_string(Some(h)), "[12@r3]");
    assert_eq!(GeometryHandle::pretty_string(None), "[null]");
}

#[test]
fn handle_set_data_string_and_handles() {
    let mut set = GeometryHandleSet::new(4);
    set.insert(GeometryHandle { index: 1, orientation: GeomOrientation::Standard { rotations: 1 } });
    set.insert(GeometryHandle { index: 1, orientation: GeomOrientation::Flipped { rotations: 0 } });
    assert_eq!(
        set.handles(),
        vec![
            GeometryHandle { index: 1, orientation: GeomOrientation::Standard { rotations: 1 } },
            GeometryHandle { index: 1, orientation: GeomOrientation::Flipped { rotations: 0 } },
        ]
    );
    assert!(!set.data_string().is_empty());
    assert!(!set.empty());
    assert!(GeometryHandleSet::new(4).empty());
}

#[test]
fn wall_profiles() {
    assert_eq!(WallProfile::Ramp.reverse(), WallProfile::Pmar);
    assert_eq!(WallProfile::Llaw.reverse().reverse(), WallProfile::Llaw);
    assert_eq!(WallProfile::Empty.compatible_below(), 0x13);
    assert_eq!(WallProfile::Top.compatible_above(), 0x11);
    assert_eq!(WallProfile::Wall.compatible_across(), WallProfile::Llaw.to_bits());
    assert_eq!(WallProfile::Bottom.label(), "bottom");
    assert_eq!(WallProfile::Bottom.to_bits(), 0x11);
    assert_eq!(WallProfile::from_bits(0x10), vec![WallProfile::Bottom, WallProfile::Top]);
    assert_eq!(WallProfile::from_bits(0x08), vec![WallProfile::Wall, WallProfile::Wall]);
    assert_eq!(WallProfile::from_bits(0), vec![]);
}

#[test]
fn vertical_profiles() {
    let parsed = VerticalProfile::parse_from("fse".to_string()).unwrap();
    assert_eq!(parsed, vec![VerticalProfile::Full, VerticalProfile::Stackable, VerticalProfile::Empty]);
    assert_eq!(VerticalProfile::parse_from("fx".to_string()), Err(VerticalProfileParseError::InvalidVerticalPattern));
    assert_eq!(VerticalProfile::label_string(&parsed), "fse");
    let indicator = VerticalProfile::compute_indicator(&parsed, GeomOrientation::Standard { rotations: 0 });
    assert_eq!(indicator, 3 | (2 << 2) | (1 << 4));
    assert_eq!(VerticalProfile::from_bits(indicator), parsed);
    assert_eq!(VerticalProfile::create_label_string(indicator), "fse");
    let turned = VerticalProfile::compute_indicator(&parsed, GeomOrientation::Standard { rotations: 1 });
    assert_eq!(turned, 2 | (1 << 2) | (3 << 4));
    assert_eq!(VerticalProfile::Stackable.value(), 2);
    assert_eq!(VerticalProfile::from_bits(0b0100), vec![VerticalProfile::Empty]);
}

#[test]
fn socket_profiles() {
    let walls = vec![WallProfile::Bottom, WallProfile::Ramp, WallProfile::Top, WallProfile::Pmar];
    let socket = SocketProfile::new("ffss".to_string(), walls.clone(), "eeff".to_string()).unwrap();
    assert_eq!(socket.get_side_count(), 4);
    assert_eq!(socket.get_resource_location(), "rect/ffss_bottom_ramp_top_pmar_eeff.obj");
    assert_eq!(socket.get_wall(0, GeomOrientation::Standard { rotations: 1 }), WallProfile::Ramp);
    let socket = socket.with_transforms(vec![GeomOrientation::Standard { rotations: 0 }, GeomOrientation::Flipped { rotations: 0 }]);
    let pairs = socket.get_wall_profile_rotation_pairs_for_index(1);
    assert_eq!(pairs[0], (WallProfile::Ramp, GeomOrientation::Standard { rotations: 0 }));
    assert_eq!(pairs[1], (WallProfile::Ramp.reverse(), GeomOrientation::Flipped { rotations: 0 }));
    let triples = socket.get_vertical_indicator_transform_triples();
    assert_eq!(triples.len(), 2);
    assert_eq!(triples[0].0, 3 | (3 << 2) | (2 << 4) | (2 << 6));
    assert_eq!(
        SocketProfile::new("ffs".to_string(), walls.clone(), "eef".to_string()).err(),
        Some(SocketProfileCreationError::MimatchedCount)
    );
    assert_eq!(
        SocketProfile::new("ffsq".to_string(), walls, "eeff".to_string()).err(),
        Some(SocketProfileCreationError::InvalidVerticalPattern)
    );
}

#[test]
fn transformations() {
    assert_eq!(GeomTransformation::Standard { rotations: 2 }.get_index_in_sequence(3, 4), 1);
    assert_eq!(GeomTransformation::Flipped { rotations: 2 }.get_index_in_sequence(3, 4), 2);
    assert!(GeomTransformation::Flipped { rotations: 0 }.is_reversed());
}

#[test]
fn profile_indices() {
    let w = WallProfileIndex::new(5);
    assert_eq!(w.index(), 5);
    assert_eq!(w.to_bits(), 0x20);
    assert_eq!(WallProfileIndex::from_bits(0x21), vec![WallProfileIndex::new(0), WallProfileIndex::new(5)]);
    assert_eq!(WallProfileIndex::from_bits(1u128 << 127), vec![WallProfileIndex::new(127)]);
    assert_eq!(WallProfileIndex::new(300).index(), 44);
    assert_eq!(LayerProfileIndex::from_bits(LayerProfileIndex::new(3).to_bits()), vec![LayerProfileIndex::new(3)]);
}

#[test]
fn rect_profiles() {
    let profiles = get_rect_profiles();
    assert_eq!(profiles.len(), 25);
    assert_eq!(profiles[0].get_resource_location(), "rect/ffff_bottom_bottom_bottom_bottom_eeee.obj");
    assert_eq!(profiles[4].get_resource_location(), "rect/fffs_bottom_bottom_wall_pmar_2_eeef.obj");
    assert_eq!(profiles[3].transforms.len(), 8);
    assert_eq!(profiles[15].transforms.len(), 2);
    assert!(ObjectProfile::new("ffxf".to_string(), vec!["a"], "eeee".to_string()).is_err());
    let keys = (GeometryStorageVerticalKey::new(4, 1, 2), GeometryStorageWallKey::new(4, 1, WallProfileIndex::new(2)));
    assert_eq!(keys.0.top_profile, 2);
    assert_eq!(keys.1.profile, WallProfileIndex::new(2));
}

#[test]
fn wall_masks_read_back_in_order() {
    for bits in [0u128, 1, 0b1011_0010, 1u128 << 127 | 5, u128::MAX] {
        let walls = WallProfileIndex::from_bits(bits);
        assert!(walls.windows(2).all(|w| w[0].index() < w[1].index()));
        let back = walls.iter().fold(0u128, |acc, w| acc | w.to_bits());
        assert_eq!(back, bits);
    }
    assert_eq!(WallProfileIndex::from_bits(0).len(), 0);
}

#[test]
fn vertical_indicator_reads_back() {
    let seq = vec![VerticalProfile::Full, VerticalProfile::Empty, VerticalProfile::Stackable, VerticalProfile::Full];
    let x = VerticalProfile::compute_indicator(&seq, GeomOrientation::Standard { rotations: 0 });
    assert_eq!(VerticalProfile::from_bits(x), seq);
    assert!(VerticalProfile::from_bits(0).is_empty());
}
