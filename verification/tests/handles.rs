use tile_automata::visuals::geom::handles::{GeometryHandle, GeometryHandleSet, GeometryHandleSetEntry};
use tile_automata::visuals::geom::orientations::GeomOrientation;
#[test]
fn insert() {
    let mut set = GeometryHandleSet::new(5);
    set.insert(GeometryHandle {
        index: 2,
        orientation: GeomOrientation::Standard { rotations: 2 },
    });

    assert_eq!(
        set.entries(), &vec![GeometryHandleSetEntry {
            index: 2,
            orientations: 0x4
        }]
    );
    assert_eq!(set.length(), 1);

    set.insert(GeometryHandle {
        index: 2,
        orientation: GeomOrientation::Standard { rotations: 0 },
    });

    set.insert(GeometryHandle {
        index: 0,
        orientation: GeomOrientation::Standard { rotations: 2 },
    });

    assert_eq!(
        set.entries(), &vec![
            GeometryHandleSetEntry {
                index: 0,
                orientations: 0x4
            },
            GeometryHandleSetEntry {
                index: 2,
                orientations: 0x5
            }
        ]
    );
    assert_eq!(set.length(), 3);

    set.insert(GeometryHandle {
        index: 1,
        orientation: GeomOrientation::Standard { rotations: 1 },
    });

    assert_eq!(
        set.entries(), &vec![
            GeometryHandleSetEntry {
                index: 0,
                orientations: 0x4
            },
            GeometryHandleSetEntry {
                index: 1,
                orientations: 0x2
            },
            GeometryHandleSetEntry {
                index: 2,
                orientations: 0x5
            }
        ]
    );
    assert_eq!(set.length(), 4);

    set.insert(GeometryHandle {
        index: 3,
        orientation: GeomOrientation::Standard { rotations: 1 },
    });

    assert_eq!(
        set.entries(), &vec![
            GeometryHandleSetEntry {
                index: 0,
                orientations: 0x4
            },
            GeometryHandleSetEntry {
                index: 1,
                orientations: 0x2
            },
            GeometryHandleSetEntry {
                index: 2,
                orientations: 0x5
            },
            GeometryHandleSetEntry {
                index: 3,
                orientations: 0x2
            }
        ]
    );
    assert_eq!(set.length(), 5);
}

#[test]
fn contains() {
    let mut set = GeometryHandleSet::new(5);
    set.insert(GeometryHandle {
        index: 2,
        orientation: GeomOrientation::Standard { rotations: 2 },
    });
    set.insert(GeometryHandle {
        index: 2,
        orientation: GeomOrientation::Standard { rotations: 0 },
    });
    set.insert(GeometryHandle {
        index: 1,
        orientation: GeomOrientation::Standard { rotations: 1 },
    });
    set.insert(GeometryHandle {
        index: 3,
        orientation: GeomOrientation::Standard { rotations: 1 },
    });

    assert!(set.contains(GeometryHandle {
        index: 2,
        orientation: GeomOrientation::Standard { rotations: 2 },
    }));
    assert!(set.contains(GeometryHandle {
        index: 3,
        orientation: GeomOrientation::Standard { rotations: 1 },
    }));
    assert!(!set.contains(GeometryHandle {
        index: 3,
        orientation: GeomOrientation::Standard { rotations: 2 },
    }));
    assert!(!set.contains(GeometryHandle {
        index: 4,
        orientation: GeomOrientation::Standard { rotations: 2 },
    }));
    assert!(!set.contains(GeometryHandle {
        index: 0,
        orientation: GeomOrientation::Standard { rotations: 2 },
    }));
}

#[test]
fn union_disjoint() {
    let mut set0 = GeometryHandleSet::new(3);
    let mut set1 = GeometryHandleSet::new(5);

    set0.insert(GeometryHandle {
        index: 1,
        orientation: GeomOrientation::Standard { rotations: 1 },
    });
    set0.insert(GeometryHandle {
        index: 1,
        orientation: GeomOrientation::Standard { rotations: 2 },
    });
    set0.insert(GeometryHandle {
        index: 2,
        orientation: GeomOrientation::Standard { rotations: 2 },
    });

    set1.insert(GeometryHandle {
        index: 3,
        orientation: GeomOrientation::Standard { rotations: 1 },
    });

    let union = GeometryHandleSet::union(&[&set0, &set1]);
    assert_eq!(
        union.entries(), &vec![
            GeometryHandleSetEntry {
                index: 1,
                orientations: 0x6
            },
            GeometryHandleSetEntry {
                index: 2,
                orientations: 0x4
            },
            GeometryHandleSetEntry {
                index: 3,
                orientations: 0x2
            },
        ]
    );
    assert_eq!(union.get_max_rotations(), 5);
    assert_eq!(union.length(), 4);
}

#[test]
fn union_alternating_index() {
    let mut set0 = GeometryHandleSet::new(5);
    let mut set1 = GeometryHandleSet::new(5);
    let mut set2 = GeometryHandleSet::new(5);

    set0.insert(GeometryHandle {
        index: 2,
        orientation: GeomOrientation::Standard { rotations: 2 },
    });
    set0.insert(GeometryHandle {
        index: 5,
        orientation: GeomOrientation::Standard { rotations: 2 },
    });

    set1.insert(GeometryHandle {
        index: 1,
        orientation: GeomOrientation::Standard { rotations: 1 },
    });
    set1.insert(GeometryHandle {
        index: 4,
        orientation: GeomOrientation::Standard { rotations: 1 },
    });

    set2.insert(GeometryHandle {
        index: 3,
        orientation: GeomOrientation::Standard { rotations: 2 },
    });

    let union = GeometryHandleSet::union(&[&set0, &set1, &set2]);
    assert_eq!(
        union.entries(), &vec![
            GeometryHandleSetEntry {
                index: 1,
                orientations: 0x2
            },
            GeometryHandleSetEntry {
                index: 2,
                orientations: 0x4
            },
            GeometryHandleSetEntry {
                index: 3,
                orientations: 0x4
            },
            GeometryHandleSetEntry {
                index: 4,
                orientations: 0x2
            },
            GeometryHandleSetEntry {
                index: 5,
                orientations: 0x4
            },
        ]
    );
    assert_eq!(union.length(), 5);
}

#[test]
fn union_multiple_at_index() {
    let mut set0 = GeometryHandleSet::new(5);
    let mut set1 = GeometryHandleSet::new(5);
    let mut set2 = GeometryHandleSet::new(5);

    set0.insert(GeometryHandle {
        index: 1,
        orientation: GeomOrientation::Standard { rotations: 2 },
    });
    set0.insert(GeometryHandle {
        index: 2,
        orientation: GeomOrientation::Standard { rotations: 2 },
    });

    set1.insert(GeometryHandle {
        index: 1,
        orientation: GeomOrientation::Standard { rotations: 1 },
    });
    set1.insert(GeometryHandle {
        index: 1,
        orientation: GeomOrientation::Standard { rotations: 2 },
    });

    set2.insert(GeometryHandle {
        index: 1,
        orientation: GeomOrientation::Standard { rotations: 0 },
    });

    let union = GeometryHandleSet::union(&[&set0, &set1, &set2]);
    assert_eq!(
        union.entries(), &vec![
            GeometryHandleSetEntry {
                index: 1,
                orientations: 0x7
            },
            GeometryHandleSetEntry {
                index: 2,
                orientations: 0x4
            },
        ]
    );
    assert_eq!(union.length(), 4);
}

#[test]
fn union_single() {
    let mut set = GeometryHandleSet::new(5);
    set.insert(GeometryHandle {
        index: 0,
        orientation: GeomOrientation::Flipped { rotations: 1 },
    });
    let union = GeometryHandleSet::union(&[&set]);
    assert_eq!(union.entries(), set.entries());
    assert_eq!(union.get_max_rotations(), set.get_max_rotations());
    assert_eq!(union.length(), 1);
}

#[test]
fn union_empty() {
    let empty = GeometryHandleSet::union(&[]);
    assert_eq!(empty.entries(), &Vec::<GeometryHandleSetEntry>::new());
    assert_eq!(empty.get_max_rotations(), 0);
    assert_eq!(empty.length(), 0);
}

#[test]
fn intersection() {
    let mut set0 = GeometryHandleSet::new(3);
    let mut set1 = GeometryHandleSet::new(5);

    set0.insert(GeometryHandle {
        index: 1,
        orientation: GeomOrientation::Standard { rotations: 1 },
    });
    set0.insert(GeometryHandle {
        index: 1,
        orientation: GeomOrientation::Standard { rotations: 2 },
    });
    set0.insert(GeometryHandle {
        index: 2,
        orientation: GeomOrientation::Standard { rotations: 2 },
    });
    set0.insert(GeometryHandle {
        index: 2,
        orientation: GeomOrientation::Standard { rotations: 0 },
    });

    set1.insert(GeometryHandle {
        index: 1,
        orientation: GeomOrientation::Standard { rotations: 1 },
    });
    set1.insert(GeometryHandle {
        index: 1,
        orientation: GeomOrientation::Standard { rotations: 2 },
    });
    set1.insert(GeometryHandle {
        index: 2,
        orientation: GeomOrientation::Standard { rotations: 1 },
    });
    set1.insert(GeometryHandle {
        index: 2,
        orientation: GeomOrientation::Standard { rotations: 0 },
    });

    let intersection = GeometryHandleSet::intersection(&[&set0, &set1]);
    assert_eq!(
        intersection.entries(), &vec![
            GeometryHandleSetEntry {
                index: 1,
                orientations: 0x6
            },
            GeometryHandleSetEntry {
                index: 2,
                orientations: 0x1
            },
        ]
    );
    assert_eq!(intersection.get_max_rotations(), 5);
    assert_eq!(intersection.length(), 3);
}

#[test]
fn intersection_disjoint() {
    let mut set0 = GeometryHandleSet::new(3);
    let mut set1 = GeometryHandleSet::new(5);

    set0.insert(GeometryHandle {
        index: 1,
        orientation: GeomOrientation::Standard { rotations: 1 },
    });
    set0.insert(GeometryHandle {
        index: 1,
        orientation: GeomOrientation::Standard { rotations: 2 },
    });
    set0.insert(GeometryHandle {
        index: 2,
        orientation: GeomOrientation::Standard { rotations: 2 },
    });

    set1.insert(GeometryHandle {
        index: 3,
        orientation: GeomOrientation::Standard { rotations: 1 },
    });

    let intersection = GeometryHandleSet::intersection(&[&set0, &set1]);
    assert_eq!(intersection.entries(), &Vec::<GeometryHandleSetEntry>::new());
    assert_eq!(intersection.get_max_rotations(), 5);
    assert_eq!(intersection.length(), 0);
}

#[test]
fn intersection_alternating_index() {
    let mut set0 = GeometryHandleSet::new(5);
    let mut set1 = GeometryHandleSet::new(5);
    let mut set2 = GeometryHandleSet::new(5);

    set0.insert(GeometryHandle {
        index: 2,
        orientation: GeomOrientation::Standard { rotations: 2 },
    });
    set0.insert(GeometryHandle {
        index: 3,
        orientation: GeomOrientation::Standard { rotations: 1 },
    });
    set0.insert(GeometryHandle {
        index: 5,
        orientation: GeomOrientation::Standard { rotations: 2 },
    });

    set1.insert(GeometryHandle {
        index: 1,
        orientation: GeomOrientation::Standard { rotations: 1 },
    });
    set1.insert(GeometryHandle {
        index: 3,
        orientation: GeomOrientation::Standard { rotations: 1 },
    });

    set2.insert(GeometryHandle {
        index: 3,
        orientation: GeomOrientation::Standard { rotations: 1 },
    });
    set2.insert(GeometryHandle {
        index: 4,
        orientation: GeomOrientation::Standard { rotations: 1 },
    });

    let intersection = GeometryHandleSet::intersection(&[&set0, &set1, &set2]);
    assert_eq!(
        intersection.entries(), &vec![GeometryHandleSetEntry {
            index: 3,
            orientations: 0x2
        },]
    );
    assert_eq!(intersection.length(), 1);
}

#[test]
fn intersection_multiple_at_index() {
    let mut set0 = GeometryHandleSet::new(5);
    let mut set1 = GeometryHandleSet::new(5);
    let mut set2 = GeometryHandleSet::new(5);

    set0.insert(GeometryHandle {
        index: 1,
        orientation: GeomOrientation::Standard { rotations: 2 },
    });
    set0.insert(GeometryHandle {
        index: 2,
        orientation: GeomOrientation::Standard { rotations: 2 },
    });

    set1.insert(GeometryHandle {
        index: 1,
        orientation: GeomOrientation::Standard { rotations: 1 },
    });
    set1.insert(GeometryHandle {
        index: 1,
        orientation: GeomOrientation::Standard { rotations: 2 },
    });

    set2.insert(GeometryHandle {
        index: 1,
        orientation: GeomOrientation::Standard { rotations: 2 },
    });

    let intersection = GeometryHandleSet::intersection(&[&set0, &set1, &set2]);
    assert_eq!(
        intersection.entries(), &vec![GeometryHandleSetEntry {
            index: 1,
            orientations: 0x4
        },]
    );
    assert_eq!(intersection.length(), 1);
}

#[test]
fn intersection_single() {
    let mut set = GeometryHandleSet::new(5);
    set.insert(GeometryHandle {
        index: 0,
        orientation: GeomOrientation::Flipped { rotations: 1 },
    });
    let union = GeometryHandleSet::intersection(&[&set]);
    assert_eq!(union.entries(), set.entries());
    assert_eq!(union.get_max_rotations(), set.get_max_rotations());
    assert_eq!(union.length(), 1);
}

#[test]
fn intersection_empty() {
    let empty = GeometryHandleSet::intersection(&[]);
    assert_eq!(empty.entries(), &Vec::<GeometryHandleSetEntry>::new());
    assert_eq!(empty.get_max_rotations(), 0);
    assert_eq!(empty.length(), 0);
}

#[test]
fn iterator_walks_handles_in_order() {
    let mut set = GeometryHandleSet::new(5);
    set.insert(GeometryHandle { index: 2, orientation: GeomOrientation::Standard { rotations: 2 } });
    set.insert(GeometryHandle { index: 0, orientation: GeomOrientation::Standard { rotations: 1 } });
    let mut it = set.iter();
    assert_eq!(it.next(), Some(GeometryHandle { index: 0, orientation: GeomOrientation::Standard { rotations: 1 } }));
    assert_eq!(it.next(), Some(GeometryHandle { index: 2, orientation: GeomOrientation::Standard { rotations: 2 } }));
    assert_eq!(it.next(), None);
    assert_eq!(it.next(), None);
}

#[test]
fn empty_set_prints_and_walks_with_any_limit() {
    let set = GeometryHandleSet::new(1000);
    assert!(set.empty());
    assert_eq!(set.length(), 0);
    assert_eq!(set.get_max_rotations(), 1000);
    assert_eq!(set.data_string(), "");
    let mut it = set.iter();
    assert_eq!(it.next(), None);
}

#[test]
fn insert_twice_changes_nothing_and_keeps_others() {
    let mut set = GeometryHandleSet::new(5);
    let a = GeometryHandle { index: 2, orientation: GeomOrientation::Standard { rotations: 2 } };
    let b = GeometryHandle { index: 2, orientation: GeomOrientation::Flipped { rotations: 2 } };
    set.insert(a);
    assert!(set.contains(a));
    assert!(!set.contains(b));
    set.insert(a);
    assert_eq!(set.length(), 1);
    assert_eq!(set.get_max_rotations(), 5);
    assert_eq!(set.iter().next(), Some(a));
}

#[test]
fn union_and_intersection_membership() {
    let a = GeometryHandle { index: 1, orientation: GeomOrientation::Standard { rotations: 1 } };
    let b = GeometryHandle { index: 3, orientation: GeomOrientation::Flipped { rotations: 0 } };
    let mut s0 = GeometryHandleSet::new(4);
    let mut s1 = GeometryHandleSet::new(4);
    s0.insert(a);
    s0.insert(b);
    s1.insert(b);
    let u = GeometryHandleSet::union(&[&s0, &s1]);
    assert!(u.contains(a) && u.contains(b));
    let i = GeometryHandleSet::intersection(&[&s0, &s1]);
    assert!(!i.contains(a) && i.contains(b));
    assert_eq!(i.length(), 1);
}
