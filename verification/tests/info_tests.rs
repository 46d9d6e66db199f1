use spreadsheet::info::{CellInfo, CommandInfo, Info, ValueInfo};

#[test]
fn test_info_default() {
    let info = Info::default();
    assert_eq!(info.visit, 0);
    assert_eq!(info.arg_mask, 0);
    assert!(!info.invalid);
    assert_eq!(info.function_id, 0);
    assert_eq!(info.arg, [0, 0]);
}

#[test]
fn test_is_cell_arg1() {
    let mut info = Info::default();
    info.arg_mask = 0;
    assert!(!info.is_cell_arg1());
    info.arg_mask = 0b00000001;
    assert!(info.is_cell_arg1());
    info.arg_mask = 0b00000011;
    assert!(info.is_cell_arg1());
}

#[test]
fn test_is_cell_arg2() {
    let mut info = Info::default();
    info.arg_mask = 0;
    assert!(!info.is_cell_arg2());
    info.arg_mask = 0b00000010;
    assert!(info.is_cell_arg2());
    info.arg_mask = 0b00000011;
    assert!(info.is_cell_arg2());
    info.arg_mask = 0b00000001;
    assert!(!info.is_cell_arg2());
}

#[test]
fn test_is_cell_both() {
    let mut info = Info::default();
    info.arg_mask = 0;
    assert!(!info.is_cell_both());
    info.arg_mask = 0b00000001;
    assert!(!info.is_cell_both());
    info.arg_mask = 0b00000010;
    assert!(!info.is_cell_both());
    info.arg_mask = 0b00000011;
    assert!(info.is_cell_both());
}

#[test]
fn test_cellinfo_debug_clone_copy() {
    let info = Info {
        visit: 5,
        arg_mask: 0b11,
        invalid: true,
        function_id: 10,
        arg: [42, -1],
    };
    let cell1 = CellInfo {
        info,
        value: 100,
        literal_mode: false,
    };
    let debug_str = format!("{:?}", cell1);
    assert!(!debug_str.is_empty());
    let cell2 = cell1;
    assert_eq!(cell1.info.visit, cell2.info.visit);
    assert_eq!(cell1.value, cell2.value);
    assert_eq!(cell1.literal_mode, cell2.literal_mode);
    let cell3 = cell1.clone();
    assert_eq!(cell1.info.arg, cell3.info.arg);
}

#[test]
fn test_valueinfo_default_and_manual() {
    let val_info = ValueInfo::default();
    assert!(!val_info.is_cell);
    assert_eq!(val_info.value, 0);
    let val_info_custom = ValueInfo {
        is_cell: true,
        value: 123,
    };
    assert!(val_info_custom.is_cell);
    assert_eq!(val_info_custom.value, 123);
}

#[test]
fn test_commandinfo_default_and_manual() {
    let cmd_info = CommandInfo::default();
    assert_eq!(cmd_info.lhs_cell, 0);
    assert_eq!(cmd_info.info.visit, 0);
    let new_info = Info {
        visit: 3,
        arg_mask: 1,
        invalid: false,
        function_id: 7,
        arg: [10, 20],
    };
    let cmd_info_custom = CommandInfo {
        lhs_cell: 42,
        info: new_info,
    };
    assert_eq!(cmd_info_custom.lhs_cell, 42);
    assert_eq!(cmd_info_custom.info.function_id, 7);
    assert_eq!(cmd_info_custom.info.arg, [10, 20]);
}
