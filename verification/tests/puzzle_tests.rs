use cuboid::builder::{Key, TurnBuilder};
use cuboid::geometry::{Coord, Cut};
use cuboid::layout::Layout2d;
use cuboid::position::{Piece, Position, Sticker};
use cuboid::puzzle::Puzzle;
use cuboid::side::{Axis, Side};
use cuboid::turn::{LayerMask, PuzzleTurn, SideTurn, Turn, TurnError};
use itertools::Itertools;

fn shape_of(ns: &[i16]) -> Vec<Cut> {
    ns.iter().map(|&n| Cut(n)).collect()
}

#[test]
fn test_inverse() {
    assert_eq!(
        Turn::Side(SideTurn {
            layers: LayerMask::new(),
            side: Side::new(0),
            from: Axis::new(1),
            to: Axis::new(2),
        })
        .inverse(),
        Turn::Side(SideTurn {
            layers: LayerMask::new(),
            side: Side::new(0),
            from: Axis::new(2),
            to: Axis::new(1)
        })
    );
    assert_eq!(
        Turn::Puzzle(PuzzleTurn {
            from: Axis::new(0),
            to: Axis::new(1),
        })
        .inverse(),
        Turn::Puzzle(PuzzleTurn {
            from: Axis::new(1),
            to: Axis::new(0),
        })
    );
}

#[test]
fn test_is_solved() {
    for dim in 1..=4 {
        for shape in (1..=dim)
            .map(|_| (1i16..=4).map(Cut))
            .multi_cartesian_product()
        {
            assert!(Puzzle::new(&shape).is_solved());
        }
    }
}

#[test]
fn test_turn_side_333_single() {
    let mut puzzle = Puzzle::new(&shape_of(&[3, 3, 3]));
    assert!(puzzle.is_solved());
    let turn = Turn::Side(SideTurn {
        layers: LayerMask::new(),
        side: Side::new(0),
        from: Axis::new(1),
        to: Axis::new(2),
    });
    puzzle.turn(&turn).unwrap();
    assert!(!puzzle.is_solved());
    puzzle.turn(&turn.inverse()).unwrap();
    assert!(puzzle.is_solved());
}

#[test]
fn test_turn_side_333_single_negative() {
    let mut puzzle = Puzzle::new(&shape_of(&[3, 3, 3]));
    assert!(puzzle.is_solved());
    let turn = Turn::Side(SideTurn {
        layers: LayerMask::new(),
        side: Side::new(-1),
        from: Axis::new(1),
        to: Axis::new(2),
    });
    puzzle.turn(&turn).unwrap();
    assert!(!puzzle.is_solved());
    puzzle.turn(&turn.inverse()).unwrap();
    assert!(puzzle.is_solved());
}

#[test]
fn test_turn_side_333() {
    let puzzle = Puzzle::new(&shape_of(&[3, 3, 3]));
    let mut new_puzzle = puzzle.clone();
    for side in -3i16..3 {
        for from in 0i16..3 {
            if side == from || !side == from {
                continue;
            }
            for to in 0i16..3 {
                if side == to || !side == to || from == to {
                    continue;
                }
                let turn = Turn::Side(SideTurn {
                    layers: LayerMask::new(),
                    side: Side::new(side),
                    from: Axis::new(from),
                    to: Axis::new(to),
                });
                new_puzzle.turn(&turn).unwrap();
                assert!(!new_puzzle.is_solved());
                new_puzzle.turn(&turn.inverse()).unwrap();
                assert!(new_puzzle.is_solved());
                assert_eq!(new_puzzle, puzzle);
            }
        }
    }
}

#[test]
fn test_turn_puzzle_333() {
    let puzzle = Puzzle::new(&shape_of(&[3, 3, 3]));
    let mut new_puzzle = puzzle.clone();
    for from in 0i16..3 {
        for to in 0i16..3 {
            if from == to {
                continue;
            }
            let turn = Turn::Puzzle(PuzzleTurn {
                from: Axis::new(from),
                to: Axis::new(to),
            });
            new_puzzle.turn(&turn).unwrap();
            assert!(new_puzzle.is_solved());
            new_puzzle.turn(&turn.inverse()).unwrap();
            assert!(new_puzzle.is_solved());
            assert_eq!(new_puzzle, puzzle);
        }
    }
}

#[test]
fn test_turn_side() {
    for dim in 1i16..=4 {
        for shape in (1..=dim)
            .map(|_| (2i16..=4).map(Cut))
            .multi_cartesian_product()
        {
            let puzzle = Puzzle::new(&shape);
            let mut new_puzzle = puzzle.clone();
            for side in -dim..dim {
                for from in 0..dim {
                    if side == from || !side == from {
                        continue;
                    }
                    for to in 0..dim {
                        if side == to || !side == to || from == to {
                            continue;
                        }
                        let turn = Turn::Side(SideTurn {
                            layers: LayerMask::new(),
                            side: Side::new(side),
                            from: Axis::new(from),
                            to: Axis::new(to),
                        });
                        new_puzzle.turn(&turn).unwrap();
                        assert!(!new_puzzle.is_solved());
                        new_puzzle.turn(&turn.inverse()).unwrap();
                        assert!(new_puzzle.is_solved());
                        assert_eq!(new_puzzle, puzzle);
                    }
                }
            }
        }
    }
}

#[test]
fn test_turn_puzzle() {
    for dim in 1i16..=4 {
        for shape in (1..=dim)
            .map(|_| (2i16..=4).map(Cut))
            .multi_cartesian_product()
        {
            println!("shape: {shape:?}");
            let puzzle = Puzzle::new(&shape);
            let mut new_puzzle = puzzle.clone();
            for from in 0..dim {
                for to in 0..dim {
                    if from == to {
                        continue;
                    }
                    // A whole-puzzle quarter turn is defined only between
                    // axes of equal layer counts; other pairs are outside
                    // turn_puzzle's precondition.
                    if shape[from as usize] != shape[to as usize] {
                        continue;
                    }
                    let turn = Turn::Puzzle(PuzzleTurn {
                        from: Axis::new(from),
                        to: Axis::new(to),
                    });
                    println!("from: {from:?}, to: {to:?}");
                    new_puzzle.turn(&turn).unwrap();
                    assert!(new_puzzle.is_solved());
                    new_puzzle.turn(&turn.inverse()).unwrap();
                    assert!(new_puzzle.is_solved());
                    assert_eq!(new_puzzle, puzzle);
                }
            }
        }
    }
}

#[test]
fn test_layout_mapping_inverse() {
    for dim in 1i16..=4 {
        for shape in (1..=dim)
            .map(|_| (2i16..=4).map(Cut))
            .multi_cartesian_product()
        {
            let layout = Layout2d::new(&shape);
            assert_eq!(layout.mapping.len(), layout.inverse.len());
            for (pos, xy) in &layout.mapping {
                assert_eq!(layout.pos_of(xy.0, xy.1), Some(pos));
            }
            for (xy, pos) in &layout.inverse {
                assert_eq!(layout.get(pos), Some(*xy));
            }
        }
    }
}

#[test]
fn test_sticker_side() {
    let shape = shape_of(&[3, 3, 3]);
    let sticker = Sticker::new(&shape, vec![Coord(3), Coord(0), Coord(0)]);
    assert_eq!(sticker.side(&shape), Side::new(0));
    let sticker = Sticker::new(&shape, vec![Coord(-3), Coord(0), Coord(0)]);
    assert_eq!(sticker.side(&shape), Side::new(-1));
}

#[test]
fn test_piece_side() {
    let shape = shape_of(&[3, 3, 3]);
    let piece = Piece::new(&shape, vec![Coord(2), Coord(0), Coord(0)]);
    assert_eq!(piece.sides(&shape), vec![Side::new(0)]);
    let piece = Piece::new(&shape, vec![Coord(-2), Coord(0), Coord(0)]);
    assert_eq!(piece.sides(&shape), vec![Side::new(-1)]);
    let piece = Piece::new(&shape, vec![Coord(2), Coord(2), Coord(0)]);
    assert_eq!(piece.sides(&shape), vec![Side::new(0), Side::new(1)]);
    let piece = Piece::new(&shape, vec![Coord(-2), Coord(2), Coord(0)]);
    assert_eq!(piece.sides(&shape), vec![Side::new(-1), Side::new(1)]);
}

#[test]
fn test_classification_examples() {
    let shape = shape_of(&[3, 3, 3]);
    let sticker = Position(vec![Coord(3), Coord(0), Coord(0)]);
    assert!(sticker.is_sticker(&shape));
    assert!(!sticker.is_piece(&shape));
    let piece = Position(vec![Coord(2), Coord(0), Coord(0)]);
    assert!(!piece.is_sticker(&shape));
    assert!(piece.is_piece(&shape));
    let internal = Position(vec![Coord(0), Coord(0), Coord(0)]);
    assert!(!internal.is_sticker(&shape));
    assert!(!internal.is_piece(&shape));
    // A corner-overlap tuple is rejected outright.
    assert!(Position::try_new(&shape, vec![Coord(3), Coord(3), Coord(0)]).is_none());
    assert!(Sticker::try_new(&shape, vec![Coord(2), Coord(0), Coord(0)]).is_none());
    assert!(Piece::try_new(&shape, vec![Coord(3), Coord(0), Coord(0)]).is_none());
}

#[test]
fn test_undefined_plane() {
    let mut puzzle = Puzzle::new(&shape_of(&[3, 3, 3]));
    let before = puzzle.clone();
    // The grip's own axis as `from`.
    let r = puzzle.turn_side(&SideTurn {
        layers: LayerMask::new(),
        side: Side::new(0),
        from: Axis::new(0),
        to: Axis::new(1),
    });
    assert_eq!(r, Err(TurnError::UndefinedPlane));
    assert_eq!(puzzle, before);
    // The grip's opposite side as `from`.
    let r = puzzle.turn_side(&SideTurn {
        layers: LayerMask::new(),
        side: Side::new(-1),
        from: Axis::new(0),
        to: Axis::new(1),
    });
    assert_eq!(r, Err(TurnError::UndefinedPlane));
    assert_eq!(puzzle, before);
    // A degenerate rotation pair.
    let r = puzzle.turn_side(&SideTurn {
        layers: LayerMask::new(),
        side: Side::new(0),
        from: Axis::new(1),
        to: Axis::new(1),
    });
    assert_eq!(r, Err(TurnError::UndefinedPlane));
    assert_eq!(puzzle, before);
    let r = puzzle.turn_puzzle(&PuzzleTurn {
        from: Axis::new(2),
        to: Axis::new(2),
    });
    assert_eq!(r, Err(TurnError::UndefinedPlane));
    assert_eq!(puzzle, before);
}

#[test]
fn test_scramble_preserves_stickers() {
    let mut puzzle = Puzzle::new(&shape_of(&[3, 3, 3]));
    let keys_before: Vec<Position> = (0..puzzle.sticker_count())
        .map(|i| puzzle.sticker_at(i).0.clone())
        .collect();
    puzzle.scramble();
    let keys_after: Vec<Position> = (0..puzzle.sticker_count())
        .map(|i| puzzle.sticker_at(i).0.clone())
        .collect();
    assert_eq!(keys_before, keys_after);
}

#[test]
fn test_sticker_counts() {
    // One face per side, each face a product of the other axes' internal
    // layer counts: 6 * 9 for the cube, 2*(3*4 + 2*4 + 2*3) for 2x3x4.
    assert_eq!(Puzzle::new(&shape_of(&[3, 3, 3])).sticker_count(), 54);
    assert_eq!(Puzzle::new(&shape_of(&[2, 3, 4])).sticker_count(), 52);
    assert_eq!(Puzzle::new(&shape_of(&[2])).sticker_count(), 2);
}

#[test]
fn test_cuboid_side_turn_is_half_turn() {
    // Unequal rotation axes fall back to a 180-degree flip, which is its
    // own inverse: applying the same turn twice restores the puzzle.
    let mut puzzle = Puzzle::new(&shape_of(&[2, 3, 4]));
    let before = puzzle.clone();
    let turn = SideTurn {
        layers: LayerMask::new(),
        side: Side::new(0),
        from: Axis::new(1),
        to: Axis::new(2),
    };
    puzzle.turn_side(&turn).unwrap();
    assert!(!puzzle.is_solved());
    puzzle.turn_side(&turn).unwrap();
    assert!(puzzle.is_solved());
    assert_eq!(puzzle, before);
}

#[test]
fn test_cut_coords() {
    let coords: Vec<i16> = Cut(3).coords().into_iter().map(|c| c.0).collect();
    assert_eq!(coords, vec![-3, -2, 0, 2, 3]);
    let coords: Vec<i16> = Cut(4).coords().into_iter().map(|c| c.0).collect();
    assert_eq!(coords, vec![-4, -3, -1, 1, 3, 4]);
    let coords: Vec<i16> = Cut(1).coords().into_iter().map(|c| c.0).collect();
    assert_eq!(coords, vec![-1, 0, 1]);
}

#[test]
fn test_side_basics() {
    assert_eq!(Side::new(0).not(), Side::new(-1));
    assert_eq!(Side::new(-1).not(), Side::new(0));
    assert_eq!(Side::new(-3).axis(), Axis::new(2));
    assert!(Side::new(2).is_positive());
    assert!(!Side::new(-2).is_positive());
    assert_eq!(Side::new(0).name(), 'R');
    assert_eq!(Side::new(-1).name(), 'L');
    assert_eq!(Side::new(0).color(), (255, 0, 0));
    assert_eq!(Side::new(0).side_key(), 'f');
    assert_eq!(Side::new(-1).side_key(), 's');
    assert_eq!(Axis::new(0).axis_key(), 'k');
    assert_eq!(Side::try_from_key(3, 'f'), Some(Side::new(0)));
    assert_eq!(Side::try_from_key(3, 'd'), Some(Side::new(-2)));
    assert_eq!(Side::try_from_key(3, 't'), None);
    assert_eq!(Axis::try_from_key(3, 'l'), Some(Axis::new(2)));
    assert_eq!(Axis::try_from_key(3, 'i'), None);
}

#[test]
fn test_layout_dimensions() {
    let layout = Layout2d::new(&shape_of(&[3]));
    assert_eq!((layout.width, layout.height), (5, 1));
    let layout = Layout2d::new(&shape_of(&[3, 3]));
    assert_eq!((layout.width, layout.height), (5, 5));
    // A third axis fans five 5x5 slices out with one-cell gaps.
    let layout = Layout2d::new(&shape_of(&[3, 3, 3]));
    assert_eq!((layout.width, layout.height), (29, 5));
}

#[test]
fn test_turn_builder_side_turn() {
    let shape = shape_of(&[3, 3, 3]);
    let mut builder = TurnBuilder::new(&shape);
    assert_eq!(builder.update(Key::Letter('f')), None);
    assert_eq!(builder.update(Key::Letter('j')), None);
    let turn = builder.update(Key::Letter('l'));
    assert_eq!(
        turn,
        Some(Turn::Side(SideTurn {
            layers: LayerMask::new(),
            side: Side::new(0),
            from: Axis::new(1),
            to: Axis::new(2),
        }))
    );
    // The grip is retained for a chained turn on the same face.
    assert_eq!(builder.update(Key::Letter('l')), None);
    let turn = builder.update(Key::Letter('j'));
    assert_eq!(
        turn,
        Some(Turn::Side(SideTurn {
            layers: LayerMask::new(),
            side: Side::new(0),
            from: Axis::new(2),
            to: Axis::new(1),
        }))
    );
}

#[test]
fn test_turn_builder_puzzle_turn() {
    let shape = shape_of(&[3, 3, 3]);
    let mut builder = TurnBuilder::new(&shape);
    assert_eq!(builder.update(Key::Whole), None);
    assert_eq!(builder.update(Key::Letter('k')), None);
    let turn = builder.update(Key::Letter('j'));
    assert_eq!(
        turn,
        Some(Turn::Puzzle(PuzzleTurn {
            from: Axis::new(0),
            to: Axis::new(1),
        }))
    );
    // A grip key drops back into side-turn building.
    assert_eq!(builder.update(Key::Letter('w')), None);
    assert_eq!(builder.update(Key::Letter('k')), None);
    let turn = builder.update(Key::Letter('j'));
    assert_eq!(
        turn,
        Some(Turn::Side(SideTurn {
            layers: LayerMask::new(),
            side: Side::new(-3),
            from: Axis::new(0),
            to: Axis::new(1),
        }))
    );
}

#[test]
fn test_turn_builder_layers_and_reset() {
    let shape = shape_of(&[3, 3, 3]);
    let mut builder = TurnBuilder::new(&shape);
    assert_eq!(builder.update(Key::Digit(2)), None);
    assert_eq!(builder.update(Key::Letter('f')), None);
    assert_eq!(builder.update(Key::Letter('j')), None);
    let turn = builder.update(Key::Letter('l'));
    let mut expected_layers = LayerMask::new();
    expected_layers.0[1] = true;
    assert_eq!(
        turn,
        Some(Turn::Side(SideTurn {
            layers: expected_layers,
            side: Side::new(0),
            from: Axis::new(1),
            to: Axis::new(2),
        }))
    );
    // Reset clears everything back to the default mask and empty slots.
    assert_eq!(builder.update(Key::Reset), None);
    assert_eq!(builder.update(Key::Letter('j')), None);
    assert_eq!(builder.update(Key::Letter('l')), None);
}

#[test]
fn test_sticker_to_piece() {
    let shape = shape_of(&[3, 3, 3]);
    let sticker = Sticker::new(&shape, vec![Coord(3), Coord(0), Coord(0)]);
    let piece = sticker.piece(&shape);
    assert_eq!(piece, Piece::new(&shape, vec![Coord(2), Coord(0), Coord(0)]));
    let sticker = Sticker::new(&shape, vec![Coord(0), Coord(-3), Coord(2)]);
    let piece = sticker.piece(&shape);
    assert_eq!(piece, Piece::new(&shape, vec![Coord(0), Coord(-2), Coord(2)]));
}

#[test]
fn test_layout_hit_testing() {
    let shape = shape_of(&[3, 3, 3]);
    let layout = Layout2d::new(&shape);
    // The gap column between the first two slices holds no cell.
    assert_eq!(layout.pos_of(5, 0), None);
    assert_eq!(layout.pos_of(layout.width, 0), None);
    // An invalid corner-overlap tuple is mapped nowhere.
    let corner = Position(vec![Coord(3), Coord(3), Coord(0)]);
    assert_eq!(layout.get(&corner), None);
    // A valid position is mapped, and maps back.
    let center = Position(vec![Coord(0), Coord(0), Coord(0)]);
    let (x, y) = layout.get(&center).unwrap();
    assert_eq!(layout.pos_of(x, y), Some(&center));
}

#[test]
fn test_coord_neg() {
    assert_eq!(Coord(3).neg(), Coord(-3));
    assert_eq!(Coord(0).neg(), Coord(0));
}

#[test]
fn test_scramble_permutes_sides() {
    let mut puzzle = Puzzle::new(&shape_of(&[3, 3, 3]));
    let mut before: Vec<i16> = (0..puzzle.sticker_count())
        .map(|i| puzzle.color_at(i).0)
        .collect();
    puzzle.scramble();
    let mut after: Vec<i16> = (0..puzzle.sticker_count())
        .map(|i| puzzle.color_at(i).0)
        .collect();
    before.sort();
    after.sort();
    assert_eq!(before, after);
}

#[test]
fn test_scramble_two_axes_is_inert() {
    // With fewer than three axes no grip/from/to combination forms a
    // plane, so every sampled turn is discarded.
    let mut puzzle = Puzzle::new(&shape_of(&[3, 4]));
    let before = puzzle.clone();
    puzzle.scramble();
    assert_eq!(puzzle, before);
    let mut line = Puzzle::new(&shape_of(&[4]));
    let before = line.clone();
    line.scramble();
    assert_eq!(line, before);
}
