use hexcore::hex::{CubeLinedraw, FracCube, HexAxial, HexCube, HexOffset, ScreenPos};

#[test]
fn new_and_zero() {
    let c = HexCube::new(1, -3, 2);
    assert_eq!(c, HexCube { x: 1, y: -3, z: 2 });
    assert_eq!(HexCube::zero(), HexCube { x: 0, y: 0, z: 0 });
    assert_eq!(HexCube::default(), HexCube::zero());
}

#[test]
fn add_sub_scale_preserve_zero_sum() {
    let a = HexCube::new(1, -1, 0);
    let b = HexCube::new(2, 1, -3);
    let s = a.cube_add(b);
    assert_eq!(s, HexCube { x: 3, y: 0, z: -3 });
    assert_eq!(s.x + s.y + s.z, 0);
    let d = a.cube_sub(b);
    assert_eq!(d, HexCube { x: -1, y: -2, z: 3 });
    assert_eq!(d.x + d.y + d.z, 0);
    let m = b.cube_scale(-2);
    assert_eq!(m, HexCube { x: -4, y: -2, z: 6 });
    assert_eq!(m.x + m.y + m.z, 0);
}

#[test]
fn axial_round_trip() {
    let cubes = [
        HexCube::new(0, 0, 0),
        HexCube::new(3, -5, 2),
        HexCube::new(-4, 1, 3),
    ];
    for c in cubes {
        let a = c.to_axial();
        assert_eq!(a, HexAxial { q: c.x, r: c.z });
        assert_eq!(HexCube::from_axial(a), c);
        assert_eq!(HexCube::from_axial(a).to_axial(), a);
    }
}

#[test]
fn offset_round_trip_examples() {
    // odd rows shift: the cell of column 2, row 3 has x = 2 - 1 = 1
    let o = HexOffset { col: 2, row: 3 };
    let c = HexCube::from_odd_r(o);
    assert_eq!(c, HexCube { x: 1, y: -4, z: 3 });
    assert_eq!(c.to_odd_r(), o);
    // negative rows round the half-row down
    let o2 = HexOffset { col: 0, row: -3 };
    let c2 = HexCube::from_odd_r(o2);
    assert_eq!(c2, HexCube { x: 2, y: 1, z: -3 });
    assert_eq!(c2.to_odd_r(), o2);
}

#[test]
fn offset_round_trip_grid_11x11() {
    // an 11-by-11 field of offset addresses survives the trip through cube
    // coordinates exactly
    for row in 0..11 {
        for col in 0..11 {
            let c = HexCube::from_odd_r(HexOffset { col, row });
            assert_eq!(c.x + c.y + c.z, 0);
            let back = c.to_odd_r();
            assert_eq!(back, HexOffset { col, row });
        }
    }
}

#[test]
fn distance_halves_the_whole_sum() {
    let a = HexCube::new(0, 0, 0);
    let b = HexCube::new(2, -2, 0);
    // the halving applies to the full Manhattan sum (4 / 2), not only to
    // the last delta (which would give 4)
    assert_eq!(HexCube::distance_between(&a, &b), 2);
    assert_eq!(a.distance(&b), 2);
    assert_eq!(HexCube::distance_between(&a, &a), 0);
    let c = HexCube::new(3, -1, -2);
    assert_eq!(HexCube::distance_between(&a, &c), 3);
    assert_eq!(HexCube::distance_between(&c, &a), 3);
}

#[test]
fn line_draw_endpoints() {
    let a = HexCube::new(0, 0, 0);
    // a line from a cell to itself has no cells
    assert_eq!(HexCube::linedraw_between(&a, &a).len(), 0);
    // a line of distance n has exactly n cells and starts at the source
    let b = HexCube::new(3, -3, 0);
    let line = HexCube::linedraw_between(&a, &b);
    assert_eq!(line.len(), 3);
    assert_eq!(line[0], a);
    assert_eq!(
        line,
        vec![
            HexCube::new(0, 0, 0),
            HexCube::new(1, -1, 0),
            HexCube::new(2, -2, 0),
        ]
    );
}

#[test]
fn line_draw_rounds_to_valid_cells() {
    let a = HexCube::new(0, 0, 0);
    let b = HexCube::new(2, -1, -1);
    let line = HexCube::linedraw_between(&a, &b);
    assert_eq!(line.len(), 2);
    assert_eq!(line[0], a);
    // the midpoint (1, -1/2, -1/2) rounds y away from zero and recomputes z
    assert_eq!(line[1], HexCube::new(1, -1, 0));
    for c in &line {
        assert_eq!(c.x + c.y + c.z, 0);
    }
}

#[test]
fn linedraw_walker_matches_batch() {
    let a = HexCube::new(-1, -1, 2);
    let b = HexCube::new(2, -2, 0);
    let line = HexCube::linedraw_between(&a, &b);
    let mut walker = CubeLinedraw::new(a, b);
    let mut walked = Vec::new();
    while let Some(c) = walker.next() {
        walked.push(c);
    }
    assert_eq!(walked, line);
    assert_eq!(walker.next(), None);
}

#[test]
fn rounding_corrects_the_largest_error() {
    // x error (1/2) strictly exceeds y and z errors (1/4 each):
    // x is recomputed from the rounded y and z
    let f = FracCube { xn: 2, yn: -1, zn: -1, den: 4 };
    assert_eq!(HexCube::round(f), HexCube::new(0, 0, 0));
}

#[test]
fn rounding_tie_corrects_z() {
    // y and z errors are equal (1/2 each, x exact): z is the corrected axis
    let f = FracCube { xn: 0, yn: 2, zn: 2, den: 4 };
    assert_eq!(HexCube::round(f), HexCube::new(0, 1, -1));
}

#[test]
fn rounding_halves_away_from_zero() {
    // 3/2 rounds to 2 and -3/2 to -2; the tie-break then recomputes z
    let f = FracCube { xn: 3, yn: -3, zn: 0, den: 2 };
    assert_eq!(HexCube::round(f), HexCube::new(2, -2, 0));
}

#[test]
fn screen_positions_in_quarter_cells() {
    // even row: no shift
    assert_eq!(
        HexCube::new(1, -1, 0).to_odd_r_screen(),
        ScreenPos { x: 4, y: 0 }
    );
    // odd row: half-cell shift right, three-quarter row pitch
    assert_eq!(
        HexCube::new(0, -1, 1).to_odd_r_screen(),
        ScreenPos { x: 2, y: 3 }
    );
}

#[test]
fn screen_round_trip_at_cell_centers() {
    for row in -3..4 {
        for col in -3..4 {
            let c = HexCube::from_odd_r(HexOffset { col, row });
            let p = c.to_odd_r_screen();
            assert_eq!(HexCube::from_odd_r_screen(p.x, p.y, 4), c);
        }
    }
}

#[test]
fn screen_picking_inside_a_cell() {
    // a point strictly inside the footprint of the origin cell maps to it
    let c = HexCube::from_odd_r_screen(3, 1, 10);
    assert_eq!(c, HexCube::new(0, 0, 0));
    // a point three quarters of a row up, shifted right, lands on row 1
    let c2 = HexCube::from_odd_r_screen(5, 8, 10);
    assert_eq!(c2, HexCube::new(0, -1, 1));
}

#[test]
fn axial_screen_placement() {
    let a = HexAxial { q: 1, r: 1 };
    let p = a.to_odd_r();
    // the row count is folded into the column before the odd-row shift
    assert_eq!(p, ScreenPos { x: 6, y: 3 });
    let even = HexAxial { q: 2, r: 0 };
    assert_eq!(even.to_odd_r(), ScreenPos { x: 8, y: 0 });
}

#[test]
fn axial_from_offset() {
    let a = HexAxial::from_odd_r(HexOffset { col: 2, row: 3 });
    assert_eq!(a, HexAxial { q: 1, r: 3 });
    assert_eq!(HexAxial::default(), HexAxial { q: 0, r: 0 });
}
