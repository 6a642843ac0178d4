use simplicity::arrow::Arrow;
use simplicity::graph::Edge;

#[test]
fn contrapositive() {
    for a in (0..32).map(Arrow) {
        for b in (0..32).map(Arrow) {
            if let Some(c) = a.join(b) {
                assert!(
                    b.join(Arrow(c.0 ^ 31).converse().unwrap())
                        .unwrap_or(Arrow(31))
                        .converse()
                        .unwrap()
                        .merge(a)
                        == Arrow(0),
                    "{a:?} {b:?} {c:?}"
                );
            }
        }
    }
}

#[test]
fn from_bits_keeps_the_bits() {
    assert_eq!(Arrow::from_bits(0b01001), Arrow(0b01001));
    assert_eq!(Arrow::from_bits(0).0, 0);
    assert_eq!(Arrow::from_bits(255).0, 255);
}

#[test]
fn converse_reverses_the_five_bits() {
    let cases: [(u8, u8); 13] = [
        (0, 0),
        (1, 16),
        (2, 8),
        (4, 4),
        (8, 2),
        (16, 1),
        (31, 31),
        (9, 18),
        (17, 17),
        (18, 9),
        (32, 0),
        (255, 31),
        (0b01001, 0b10010),
    ];
    for (x, y) in cases {
        assert_eq!(Arrow(x).converse(), Some(Arrow(y)));
    }
}

#[test]
fn converse_is_an_involution_on_masks() {
    for x in 0..32u8 {
        let back = Arrow(x).converse().unwrap().converse().unwrap();
        assert_eq!(back, Arrow(x));
    }
}

#[test]
fn merge_is_intersection() {
    assert_eq!(Arrow(0b01001).merge(Arrow(0b00011)), Arrow(0b00001));
    assert_eq!(Arrow(0b11111).merge(Arrow(0b00100)), Arrow(0b00100));
    assert_eq!(Arrow(0b10000).merge(Arrow(0b00001)), Arrow(0));
    for x in 0..32u8 {
        for y in 0..32u8 {
            let m = Arrow(x).merge(Arrow(y));
            assert_eq!(m.0, x & y);
            assert!(m.0.count_ones() <= x.count_ones());
        }
    }
}

#[test]
fn join_of_atomic_relations() {
    // rows: the left operand from much-after up to much-before
    let atoms: [u8; 5] = [1, 2, 4, 8, 16];
    let table: [[Option<u8>; 5]; 5] = [
        [Some(0b00010), Some(0b00010), Some(0b00111), Some(0b11000), Some(0b00000)],
        [Some(0b00010), Some(0b00010), Some(0b00111), Some(0b11011), Some(0b00011)],
        [Some(0b00100), Some(0b00100), None, Some(0b11100), Some(0b11100)],
        [Some(0b11100), None, Some(0b00100), Some(0b01000), Some(0b01000)],
        [Some(0b00100), Some(0b00111), Some(0b00100), Some(0b01000), Some(0b01000)],
    ];
    for i in 0..5 {
        for j in 0..5 {
            let got = Arrow(atoms[i]).join(Arrow(atoms[j]));
            assert_eq!(got, table[i][j].map(Arrow), "{} {}", atoms[i], atoms[j]);
        }
    }
}

#[test]
fn join_of_sets() {
    let cases: [(u8, u8, Option<u8>); 12] = [
        (3, 5, Some(7)),
        (9, 17, Some(30)),
        (17, 9, Some(30)),
        (4, 16, Some(28)),
        (1, 9, Some(26)),
        (9, 1, Some(30)),
        (4, 1, Some(4)),
        (12, 3, None),
        (31, 31, None),
        (255, 255, None),
        (32, 1, Some(0)),
        (33, 1, Some(2)),
    ];
    for (a, b, c) in cases {
        assert_eq!(Arrow(a).join(Arrow(b)), c.map(Arrow), "{a} {b}");
    }
}

#[test]
fn join_with_a_contradiction_is_nothing() {
    for x in 0..=255u8 {
        assert_eq!(Arrow(0).join(Arrow(x)), None);
        assert_eq!(Arrow(x).join(Arrow(0)), None);
    }
}

#[test]
fn join_never_hands_out_the_full_set() {
    for a in 0..=255u8 {
        for b in 0..=255u8 {
            if let Some(c) = Arrow(a).join(Arrow(b)) {
                assert!(c.0 < 31);
            }
        }
    }
}

#[test]
fn join_is_the_union_over_atomic_pairs() {
    for a in 1..32u8 {
        for b in 1..32u8 {
            let mut union: u8 = 0;
            for i in 0..5 {
                for j in 0..5 {
                    if a & (1 << i) != 0 && b & (1 << j) != 0 {
                        union |= Arrow(1 << i).join(Arrow(1 << j)).map_or(31, |c| c.0);
                    }
                }
            }
            let expected = if union == 31 { None } else { Some(Arrow(union)) };
            assert_eq!(Arrow(a).join(Arrow(b)), expected, "{a} {b}");
        }
    }
}

#[test]
fn join_turns_round_with_its_operands() {
    for a in 0..32u8 {
        for b in 0..32u8 {
            let forward = Arrow(a).join(Arrow(b)).map(|c| c.converse().unwrap());
            let backward = Arrow(b).converse().unwrap().join(Arrow(a).converse().unwrap());
            assert_eq!(forward, backward, "{a} {b}");
        }
    }
}

#[test]
fn round_trip_of_atomic_relations() {
    // a relation outside the composition of two atomic relations cannot be
    // walked back to the first of them
    for i in 0..5 {
        for j in 0..5 {
            let alpha = Arrow(1 << i);
            let beta = Arrow(1 << j);
            if let Some(c) = alpha.join(beta) {
                for k in 0..5 {
                    let gamma = Arrow(1 << k);
                    if c.0 & gamma.0 == 0 {
                        let back = beta
                            .join(gamma.converse().unwrap())
                            .unwrap_or(Arrow(31))
                            .converse()
                            .unwrap();
                        assert_eq!(back.merge(alpha), Arrow(0));
                    }
                }
            }
        }
    }
}

#[test]
fn round_trip_holds_on_every_byte() {
    for a in 0..=255u8 {
        for b in 0..=255u8 {
            if let Some(c) = Arrow(a).join(Arrow(b)) {
                let back = Arrow(b)
                    .join(Arrow(c.0 ^ 31).converse().unwrap())
                    .unwrap_or(Arrow(31))
                    .converse()
                    .unwrap();
                assert_eq!(back.merge(Arrow(a)), Arrow(0));
            }
        }
    }
}

#[test]
fn text_marks_each_relation() {
    assert_eq!(Arrow(0b11111).to_text(), "<<*>>");
    assert_eq!(Arrow(0).to_text(), "-----");
    assert_eq!(Arrow(0b01001).to_text(), "-<-->");
    assert_eq!(Arrow(0b10010).to_text(), "<-->-");
    assert_eq!(Arrow(0b00100).to_text(), "--*--");
    assert_eq!(Arrow(0b11100000).to_text(), "-----");
}
