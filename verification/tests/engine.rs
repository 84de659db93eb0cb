use sheetcore::cell::{Operation, OperationValue};
use sheetcore::coord::Coord;
use sheetcore::gridmap::GridMap;
use sheetcore::table::Table;
use sheetcore::ui::Selected;
use sheetcore::updater::CellUpdater;
use sheetcore::value::CellValue;

fn num(v: f64) -> CellValue {
    CellValue::Num(v.to_bits())
}

fn lit(v: f64) -> Operation {
    Operation::Literal(OperationValue::Value(num(v)))
}

fn cr(x: u32, y: u32) -> Coord {
    Coord::new(x, y)
}

fn refer(x: u32, y: u32) -> OperationValue {
    OperationValue::Cell(cr(x, y))
}

#[test]
fn test_remove_duplicates() {
    let mut c = CellUpdater {
        to_update: vec![
            cr(1, 1),
            cr(4, 4),
            cr(2, 2),
            cr(4, 4),
            cr(3, 3),
            cr(4, 4),
            cr(5, 5),
        ],
    };
    c.remove_duplicates();

    assert_eq!(
        c.to_update,
        vec![cr(1, 1), cr(2, 2), cr(3, 3), cr(4, 4), cr(5, 5)]
    )
}

#[test]
fn ops_cellvalue_num_num() {
    assert_eq!(num(2.).add(num(3.)), num(5.));
    assert_eq!(num(2.).sub(num(3.)), num(-1.));
    assert_eq!(num(2.).mul(num(3.)), num(6.));
    assert_eq!(num(2.).div(num(3.)), num(2. / 3.));
}

#[test]
fn ops_cellvalue_num_unity() {
    assert_eq!(num(2.).add(CellValue::Unity), num(2.));
    assert_eq!(num(2.).sub(CellValue::Unity), num(2.));
    assert_eq!(num(2.).mul(CellValue::Unity), num(2.));
    assert_eq!(num(2.).div(CellValue::Unity), num(2.));
}

#[test]
fn ops_cellvalue_unity_num() {
    assert_eq!(CellValue::Unity.add(num(3.)), num(3.));
    assert_eq!(CellValue::Unity.sub(num(3.)), num(-3.));
    assert_eq!(CellValue::Unity.mul(num(3.)), num(3.));
    assert_eq!(CellValue::Unity.div(num(3.)), num(1. / 3.));
}

#[test]
fn ops_cellvalue_unity_unity() {
    assert_eq!(CellValue::Unity.add(CellValue::Unity), CellValue::Unity);
    assert_eq!(CellValue::Unity.sub(CellValue::Unity), CellValue::Unity);
    assert_eq!(CellValue::Unity.mul(CellValue::Unity), CellValue::Unity);
    assert_eq!(CellValue::Unity.div(CellValue::Unity), CellValue::Unity);
}

#[test]
fn cmp_cellvalue() {
    assert!(num(2.) == num(2.));
    assert!(num(2.) != num(3.));
    assert!(CellValue::Unity != num(2.));
    assert!(num(2.) != CellValue::Unity);
    assert!(CellValue::Unity == CellValue::Unity);
}

#[test]
fn chain_propagates_on_edit() {
    let mut t = Table::new();
    assert!(t.insert(cr(1, 1), lit(1.0)).is_ok());
    assert!(t.insert(cr(1, 2), lit(2.0)).is_ok());
    assert!(t
        .insert(cr(2, 1), Operation::Add(refer(1, 1), refer(1, 2)))
        .is_ok());
    assert_eq!(t.get_value_of_cell(cr(2, 1)), num(3.0));

    assert!(t.insert(cr(1, 1), lit(5.0)).is_ok());
    assert_eq!(t.get_value_of_cell(cr(2, 1)), num(7.0));
}

#[test]
fn diamond_sees_fresh_values() {
    let mut t = Table::new();
    assert!(t.insert(cr(1, 1), lit(1.0)).is_ok());
    assert!(t
        .insert(
            cr(2, 1),
            Operation::Add(refer(1, 1), OperationValue::Value(num(1.0)))
        )
        .is_ok());
    assert!(t
        .insert(
            cr(2, 2),
            Operation::Add(refer(1, 1), OperationValue::Value(num(2.0)))
        )
        .is_ok());
    assert!(t
        .insert(cr(3, 1), Operation::Add(refer(2, 1), refer(2, 2)))
        .is_ok());
    assert_eq!(t.get_value_of_cell(cr(3, 1)), num(5.0));

    assert!(t.insert(cr(1, 1), lit(10.0)).is_ok());
    assert_eq!(t.get_value_of_cell(cr(2, 1)), num(11.0));
    assert_eq!(t.get_value_of_cell(cr(2, 2)), num(12.0));
    assert_eq!(t.get_value_of_cell(cr(3, 1)), num(23.0));
}

#[test]
fn cycle_is_rejected_without_change() {
    let mut t = Table::new();
    assert!(t.insert(cr(1, 1), lit(4.0)).is_ok());
    assert!(t
        .insert(
            cr(2, 2),
            Operation::Add(refer(1, 1), OperationValue::Value(num(1.0)))
        )
        .is_ok());
    assert_eq!(t.get_value_of_cell(cr(2, 2)), num(5.0));

    let res = t.insert(
        cr(1, 1),
        Operation::Add(refer(2, 2), OperationValue::Value(num(1.0))),
    );
    assert!(res.is_err());
    assert_eq!(t.get_value_of_cell(cr(1, 1)), num(4.0));
    assert_eq!(t.get_value_of_cell(cr(2, 2)), num(5.0));

    // the old formula still drives recomputation
    assert!(t.insert(cr(1, 1), lit(7.0)).is_ok());
    assert_eq!(t.get_value_of_cell(cr(2, 2)), num(8.0));
}

#[test]
fn self_reference_is_rejected() {
    let mut t = Table::new();
    let res = t.insert(
        cr(1, 1),
        Operation::Add(refer(1, 1), OperationValue::Value(num(1.0))),
    );
    assert!(res.is_err());
    assert_eq!(t.get_value_of_cell(cr(1, 1)), CellValue::Unity);
}

#[test]
fn unset_reference_reads_unity_and_updates_later() {
    let mut t = Table::new();
    assert!(t
        .insert(cr(2, 1), Operation::Add(refer(1, 1), refer(1, 2)))
        .is_ok());
    // both operands were auto-vivified as empty cells
    assert_eq!(t.get_value_of_cell(cr(2, 1)), CellValue::Unity);
    assert_eq!(t.get_value_of_cell(cr(1, 1)), CellValue::Unity);

    // defining a referenced cell recomputes its existing dependents
    assert!(t.insert(cr(1, 1), lit(3.0)).is_ok());
    assert_eq!(t.get_value_of_cell(cr(2, 1)), num(3.0));
    assert!(t.insert(cr(1, 2), lit(1.5)).is_ok());
    assert_eq!(t.get_value_of_cell(cr(2, 1)), num(4.5));
}

#[test]
fn repeating_an_edit_changes_nothing() {
    let mut t = Table::new();
    assert!(t.insert(cr(1, 1), lit(2.0)).is_ok());
    assert!(t
        .insert(cr(2, 1), Operation::Mul(refer(1, 1), refer(1, 1)))
        .is_ok());
    let before = t.iter();

    assert!(t
        .insert(cr(2, 1), Operation::Mul(refer(1, 1), refer(1, 1)))
        .is_ok());
    let after = t.iter();

    assert_eq!(before.len(), after.len());
    for (c, v) in before {
        assert!(after.iter().any(|&(c2, v2)| c2 == c && v2 == v));
    }
    assert_eq!(t.get_value_of_cell(cr(2, 1)), num(4.0));
}

#[test]
fn sub_mul_div_through_table() {
    let mut t = Table::new();
    assert!(t.insert(cr(1, 1), lit(10.0)).is_ok());
    assert!(t
        .insert(
            cr(2, 1),
            Operation::Sub(refer(1, 1), OperationValue::Value(num(4.0)))
        )
        .is_ok());
    assert!(t
        .insert(
            cr(3, 1),
            Operation::Div(refer(1, 1), OperationValue::Value(num(4.0)))
        )
        .is_ok());
    assert!(t
        .insert(cr(4, 1), Operation::Mul(refer(2, 1), refer(3, 1)))
        .is_ok());
    assert_eq!(t.get_value_of_cell(cr(2, 1)), num(6.0));
    assert_eq!(t.get_value_of_cell(cr(3, 1)), num(2.5));
    assert_eq!(t.get_value_of_cell(cr(4, 1)), num(15.0));
}

#[test]
fn division_by_zero_flows_as_infinity() {
    let mut t = Table::new();
    assert!(t.insert(cr(1, 1), lit(1.0)).is_ok());
    assert!(t.insert(cr(1, 2), lit(0.0)).is_ok());
    assert!(t
        .insert(cr(2, 1), Operation::Div(refer(1, 1), refer(1, 2)))
        .is_ok());
    assert_eq!(t.get_value_of_cell(cr(2, 1)), num(f64::INFINITY));
}

#[test]
fn clear_cell_resets_and_propagates() {
    let mut t = Table::new();
    assert!(t.insert(cr(1, 1), lit(3.0)).is_ok());
    assert!(t
        .insert(
            cr(2, 1),
            Operation::Add(refer(1, 1), OperationValue::Value(num(1.0)))
        )
        .is_ok());
    assert_eq!(t.get_value_of_cell(cr(2, 1)), num(4.0));

    assert!(t.clear_cell(cr(1, 1)).is_ok());
    assert_eq!(t.get_value_of_cell(cr(1, 1)), CellValue::Unity);
    // Unity + Num(1.0) is Num(1.0)
    assert_eq!(t.get_value_of_cell(cr(2, 1)), num(1.0));
}

#[test]
fn iter_snapshots_present_cells() {
    let mut t = Table::new();
    assert!(t.insert(cr(1, 1), lit(1.0)).is_ok());
    assert!(t.insert(cr(5, 9), lit(2.0)).is_ok());
    let snap = t.iter();
    assert_eq!(snap.len(), 2);
    assert!(snap.iter().any(|&(c, v)| c == cr(1, 1) && v == num(1.0)));
    assert!(snap.iter().any(|&(c, v)| c == cr(5, 9) && v == num(2.0)));
}

#[test]
fn unity_identity_laws_concrete() {
    let v = num(4.0);
    assert_eq!(CellValue::Unity.add(v), v);
    assert_eq!(v.add(CellValue::Unity), v);
    assert_eq!(CellValue::Unity.mul(v), v);
    assert_eq!(v.mul(CellValue::Unity), v);
    assert_eq!(v.sub(CellValue::Unity), v);
    assert_eq!(CellValue::Unity.sub(v), num(-4.0));
    assert_eq!(v.div(CellValue::Unity), v);
    assert_eq!(CellValue::Unity.div(v), num(0.25));
}

#[test]
fn gather_collects_all_dependents() {
    let mut rev: GridMap<Vec<Coord>> = GridMap::new();
    rev.insert(cr(1, 1), vec![cr(2, 1), cr(2, 2)]);
    rev.insert(cr(2, 1), vec![cr(3, 1)]);

    let mut u = CellUpdater { to_update: vec![] };
    u.gather_cells_to_update(cr(1, 1), &rev);
    assert_eq!(u.to_update[0], cr(1, 1));
    for c in [cr(1, 1), cr(2, 1), cr(2, 2), cr(3, 1)] {
        assert!(u.to_update.contains(&c));
    }
    assert!(!u.to_update.contains(&cr(4, 4)));
}

#[test]
fn selected_moves_and_saturates() {
    let mut s = Selected::new(0, 0);
    s.up();
    s.left();
    assert!(s.is_selected(0, 0));
    s.down();
    s.right();
    assert!(s.is_selected(1, 1));
    assert!(!s.is_selected(1, 2));
    s.up();
    assert!(s.is_selected(1, 0));
}

#[test]
fn a1_notation_prints_columns_bijectively() {
    assert_eq!(Coord::new(1, 1).convert_11_to_A1(), Some(vec!['A', '1']));
    assert_eq!(Coord::new(26, 9).convert_11_to_A1(), Some(vec!['Z', '9']));
    assert_eq!(
        Coord::new(27, 12).convert_11_to_A1(),
        Some(vec!['A', 'A', '1', '2'])
    );
    assert_eq!(Coord::new(0, 5).convert_11_to_A1(), None);
}

#[test]
fn a1_notation_parses_canonical_forms_only() {
    assert_eq!(
        Coord::convert_A1_to_11(&vec!['A', '1']),
        Some(Coord::new(1, 1))
    );
    assert_eq!(
        Coord::convert_A1_to_11(&vec!['A', 'B', '3']),
        Some(Coord::new(28, 3))
    );
    // a leading zero is not the canonical notation of any coordinate
    assert_eq!(Coord::convert_A1_to_11(&vec!['A', '0', '1']), None);
    // a notation needs both letters and digits
    assert_eq!(Coord::convert_A1_to_11(&vec!['A']), None);
    assert_eq!(Coord::convert_A1_to_11(&vec!['7']), None);
}

#[test]
fn a1_round_trip_from_coordinate() {
    for (x, y) in [(1u32, 0u32), (5, 42), (26, 26), (27, 1), (703, 9)] {
        let c = Coord::new(x, y);
        let s = c.convert_11_to_A1().unwrap();
        assert_eq!(Coord::convert_A1_to_11(&s), Some(c));
    }
}

#[test]
fn event_carries_its_input() {
    let e = sheetcore::ui::Event::Input(7u32);
    match e {
        sheetcore::ui::Event::Input(v) => assert_eq!(v, 7),
        sheetcore::ui::Event::Tick => panic!("a tick was not sent"),
    }
}

#[test]
fn ieee_equality_on_numbers() {
    // a NaN equals nothing, not even itself
    let nan = num(f64::NAN);
    assert!(nan != nan);
    assert!(nan != num(1.0));
    assert!(nan != CellValue::Unity);
    // the two zeros are equal although their bit patterns differ
    assert!(num(0.0) == num(-0.0));
    // ordinary numbers compare by value
    assert!(num(2.0) == num(2.0));
    assert!(num(2.0) != num(3.0));
}

#[test]
fn nan_flows_through_and_spoils_equality() {
    let mut t = Table::new();
    assert!(t.insert(cr(1, 1), lit(0.0)).is_ok());
    assert!(t
        .insert(cr(2, 1), Operation::Div(refer(1, 1), refer(1, 1)))
        .is_ok());
    let v = t.get_value_of_cell(cr(2, 1));
    // 0/0 is a NaN, and a NaN never equals itself
    assert!(v != v);
}

#[test]
fn gather_appends_after_existing_entries() {
    let mut rev: GridMap<Vec<Coord>> = GridMap::new();
    rev.insert(cr(1, 1), vec![cr(2, 1)]);

    let mut u = CellUpdater {
        to_update: vec![cr(9, 9)],
    };
    u.gather_cells_to_update(cr(1, 1), &rev);
    assert_eq!(u.to_update[0], cr(9, 9));
    assert_eq!(u.to_update[1], cr(1, 1));
    assert!(u.to_update.contains(&cr(2, 1)));
    assert!(!u.to_update.contains(&cr(4, 4)));
}
