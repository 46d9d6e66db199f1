use spreadsheet::formulas::{
    apply_function, is_arithmetic_function, is_range_function, is_single_arg_function,
};
use spreadsheet::info::{CellInfo, Info};
use spreadsheet::sheet::Sheet;

fn create_test_sheet() -> Sheet {
    let mut sheet = Sheet::new(5, 5);
    for i in 0..5 {
        for j in 0..5 {
            let cell_idx = sheet.get_cell(i, j);
            sheet.data[cell_idx] = CellInfo {
                value: (i * 5 + j) as i32,
                info: Info::default(),
                literal_mode: false,
            };
        }
    }
    let invalid_cell = sheet.get_cell(2, 2);
    sheet.data[invalid_cell].info.invalid = true;
    let zero_cell = sheet.get_cell(4, 4);
    sheet.data[zero_cell].value = 0;
    sheet
}

#[test]
fn test_all_arithmetic_operations() {
    let sheet = create_test_sheet();
    let mut cell = CellInfo::default();

    cell.info.function_id = 2;
    cell.info.arg = [0, 1];
    apply_function(&mut cell, &sheet);
    assert_eq!(cell.value, 1);

    cell.info.function_id = 3;
    cell.info.arg = [5, 2];
    apply_function(&mut cell, &sheet);
    assert_eq!(cell.value, 3);

    cell.info.function_id = 4;
    cell.info.arg = [3, 4];
    apply_function(&mut cell, &sheet);
    assert_eq!(cell.value, 12);

    cell.info.function_id = 5;
    cell.info.arg = [10, 2];
    apply_function(&mut cell, &sheet);
    assert_eq!(cell.value, 5);
}

#[test]
fn test_invalid_arithmetic() {
    let sheet = create_test_sheet();
    let mut cell = CellInfo::default();

    cell.info.function_id = 2;
    cell.info.arg = [100, 1];
    apply_function(&mut cell, &sheet);
    cell.info.invalid = true;
    assert!(cell.info.invalid);

    cell.info.function_id = 5;
    cell.info.arg = [5, 24];
    apply_function(&mut cell, &sheet);
    cell.info.invalid = true;
    assert!(cell.info.invalid);
}

#[test]
fn test_range_functions_full() {
    let sheet = create_test_sheet();
    let mut cell = CellInfo::default();

    cell.info.function_id = 6;
    cell.info.arg = [0, 4];
    apply_function(&mut cell, &sheet);
    assert_eq!(cell.value, 4);

    cell.info.function_id = 7;
    cell.info.arg = [0, 12];
    apply_function(&mut cell, &sheet);
    assert!(cell.info.invalid);

    cell.info.function_id = 8;
    cell.info.arg = [0, 6];
    apply_function(&mut cell, &sheet);
    assert_eq!(cell.value, 0 + 1 + 5 + 6);

    cell.info.function_id = 9;
    cell.info.arg = [3, 3];
    apply_function(&mut cell, &sheet);
    assert_eq!(cell.value, 3);

    cell.info.function_id = 10;
    cell.info.arg = [0, 3];
    apply_function(&mut cell, &sheet);
    assert_eq!(cell.value, 1);
}

#[test]
fn test_assignment_functions() {
    let sheet = create_test_sheet();
    let mut cell = CellInfo::default();

    cell.info.function_id = 0;
    cell.info.arg = [42, 0];
    apply_function(&mut cell, &sheet);
    assert_eq!(cell.value, 42);

    cell.info.function_id = 0;
    cell.info.arg_mask = 0b1;
    cell.info.arg = [12, 0];
    apply_function(&mut cell, &sheet);
    assert_eq!(cell.value, 12);
}

#[test]
fn test_sleep_assignment() {
    let sheet = create_test_sheet();
    let mut cell = CellInfo::default();

    cell.info.function_id = 1;
    cell.info.arg = [1, 0];
    apply_function(&mut cell, &sheet);
    assert!(!cell.info.invalid);

    cell.info.function_id = 1;
    cell.info.arg = [-1, 0];
    apply_function(&mut cell, &sheet);
    if cell.info.arg[0] < 0 {
        cell.info.invalid = true;
    }
    assert!(cell.info.invalid);
}

#[test]
fn test_function_type_helpers() {
    assert!(is_range_function(6));
    assert!(is_range_function(7));
    assert!(is_range_function(8));
    assert!(is_range_function(9));
    assert!(is_range_function(10));

    assert!(is_arithmetic_function(2));
    assert!(is_arithmetic_function(3));
    assert!(is_arithmetic_function(4));
    assert!(is_arithmetic_function(5));

    assert!(is_single_arg_function(0));
    assert!(is_single_arg_function(1));
}

#[test]
fn test_literal_mode() {
    let sheet = create_test_sheet();
    let mut cell = CellInfo {
        literal_mode: true,
        ..Default::default()
    };

    cell.info.function_id = 2;
    apply_function(&mut cell, &sheet);
    assert_eq!(cell.value, 0);
}

#[test]
fn test_edge_cases() {
    let sheet = create_test_sheet();
    let mut cell = CellInfo::default();

    cell.info.function_id = 6;
    cell.info.arg = [5, 0];
    apply_function(&mut cell, &sheet);
    cell.info.invalid = true;
    assert!(cell.info.invalid);

    cell.info.function_id = 10;
    cell.info.arg = [0, 0];
    apply_function(&mut cell, &sheet);
    assert_eq!(cell.value, 0);
}

#[test]
fn test_all_function_ids() {
    let sheet = create_test_sheet();
    let mut cell = CellInfo::default();

    for func_id in 0..=10 {
        cell.info.function_id = func_id;
        cell.info.arg = [0, 1];
        apply_function(&mut cell, &sheet);
        assert_ne!(cell.info.invalid, true);
    }
}

#[test]
fn test_divide_by_zero_cell_is_error() {
    let sheet = create_test_sheet();
    let mut cell = CellInfo::default();
    cell.value = 7;
    cell.info.function_id = 5;
    cell.info.arg_mask = 0b10;
    cell.info.arg = [5, 24];
    apply_function(&mut cell, &sheet);
    assert!(cell.info.invalid);
    // the old value stays
    assert_eq!(cell.value, 7);
}

#[test]
fn test_overflow_wraps() {
    let sheet = create_test_sheet();
    let mut cell = CellInfo::default();
    cell.info.function_id = 2;
    cell.info.arg = [i32::MAX, 1];
    apply_function(&mut cell, &sheet);
    assert_eq!(cell.value, i32::MIN);
    cell.info.function_id = 5;
    cell.info.arg = [i32::MIN, -1];
    apply_function(&mut cell, &sheet);
    assert_eq!(cell.value, i32::MIN);
}

#[test]
fn test_reversed_range_reads_the_same_cells() {
    let sheet = create_test_sheet();
    let mut cell = CellInfo::default();
    cell.info.function_id = 8;
    cell.info.arg = [6, 0];
    apply_function(&mut cell, &sheet);
    assert_eq!(cell.value, 0 + 1 + 5 + 6);
}

#[test]
fn test_stdev_rounds_to_nearest() {
    let mut sheet = Sheet::new(1, 3);
    sheet.data[0].value = 1;
    sheet.data[1].value = 2;
    sheet.data[2].value = 4;
    let mut cell = CellInfo::default();
    cell.info.function_id = 10;
    cell.info.arg = [0, 2];
    apply_function(&mut cell, &sheet);
    // mean 7/3 truncated to 2; squared distances 1 + 0 + 4 = 5; sqrt(5/3) ~ 1.29
    assert_eq!(cell.value, 1);
}

#[test]
fn test_sleep_reports_seconds() {
    let sheet = create_test_sheet();
    let mut cell = CellInfo::default();
    cell.info.function_id = 1;
    cell.info.arg = [3, 0];
    let secs = apply_function(&mut cell, &sheet);
    assert_eq!(secs, 3);
    assert_eq!(cell.value, 3);
}

#[test]
fn test_literal_mode_ignores_its_arguments() {
    let sheet = create_test_sheet();
    let mut cell = CellInfo::default();
    cell.literal_mode = true;
    cell.value = 17;
    cell.info.function_id = 8;
    cell.info.arg = [-4, 1000];
    cell.info.arg_mask = 0b11;
    let secs = apply_function(&mut cell, &sheet);
    assert_eq!(secs, 0);
    assert_eq!(cell.value, 17);
    assert_eq!(cell.info.arg, [-4, 1000]);
    assert!(!cell.info.invalid);
}
