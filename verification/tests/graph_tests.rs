use spreadsheet::graph::Graph;
use spreadsheet::info::{CellInfo, Info};
use spreadsheet::list::ListMemPool;
use spreadsheet::sheet::Sheet;
use spreadsheet::status::StatusCode;

fn create_test_graph() -> Graph {
    let sheet = Sheet::new(3, 3);
    let mem_pool = ListMemPool::new();
    Graph::new(3, 3, sheet, mem_pool)
}

fn create_cell_info(function_id: u8, arg: [i32; 2], arg_mask: u8) -> CellInfo {
    CellInfo {
        info: Info {
            function_id,
            arg,
            arg_mask,
            ..Default::default()
        },
        ..Default::default()
    }
}

#[test]
fn test_cycle_detection() {
    let mut graph = create_test_graph();
    let cell_idx = graph.sheet.get_cell(0, 0);
    graph.sheet.data[cell_idx] = create_cell_info(0, [cell_idx as i32, 0], 0b1);
    let info = graph.sheet.data[cell_idx].info.clone();
    let result = graph.update_expression(cell_idx, &info);
    assert_eq!(result, Err(StatusCode::CyclicDep));
}

#[test]
fn test_valid_dependency_chain() {
    let mut graph = create_test_graph();
    let a1 = graph.sheet.get_cell(0, 0);
    let b1 = graph.sheet.get_cell(0, 1);
    let c1 = graph.sheet.get_cell(0, 2);
    graph.sheet.data[b1] = create_cell_info(2, [a1 as i32, 0], 0b1);
    graph.sheet.data[c1] = create_cell_info(2, [b1 as i32, 0], 0b1);
    let info = graph.sheet.data[c1].info.clone();
    let result = graph.update_expression(c1, &info);
    assert!(result.is_ok());
}

#[test]
fn test_range_dependencies() {
    let mut graph = create_test_graph();
    let target_cell = graph.sheet.get_cell(2, 2);
    graph.sheet.data[target_cell] = create_cell_info(8, [0, 5], 0b11);
    let info = graph.sheet.data[target_cell].info.clone();
    let result = graph.update_expression(target_cell, &info);
    assert!(result.is_ok());
}

#[test]
fn test_in_dependency_checks() {
    let graph = create_test_graph();
    let info = create_cell_info(2, [1, 2], 0b11);
    assert!(graph.in_dependency(1, &info));
    assert!(graph.in_dependency(2, &info));
}

#[test]
fn test_graph_reset() {
    let mut graph = create_test_graph();
    graph.stack_ptr = 5;
    graph.order_ptr = 10;
    graph.reset();
    assert_eq!(graph.stack_ptr, 0);
    assert_eq!(graph.order_ptr, 9);
}

#[test]
fn test_dependency_management() {
    let mut graph = create_test_graph();
    let cell_idx = graph.sheet.get_cell(0, 0);
    graph.sheet.data[cell_idx] = create_cell_info(2, [1, 2], 0b11);
    let cell_data = graph.sheet.data[cell_idx].clone();
    graph.add_expression(cell_idx as i32, &cell_data);
    assert!(graph.adj_list[1].head.is_some());

    graph.delete_expression(cell_idx as i32);
    assert!(graph.adj_list[1].head.is_none());
}

fn assign(graph: &mut Graph, cell: usize, info: Info) -> Result<(), StatusCode> {
    graph.update_expression(cell, &info)
}

fn constant(v: i32) -> Info {
    Info { function_id: 0, arg: [v, 0], arg_mask: 0, ..Default::default() }
}

#[test]
fn test_update_propagates_through_chain() {
    let mut graph = create_test_graph();
    // B1 = A1 + 1, C1 = B1 * 2, then A1 = 5
    assign(&mut graph, 1, Info { function_id: 2, arg: [0, 1], arg_mask: 0b01, ..Default::default() }).unwrap();
    assign(&mut graph, 2, Info { function_id: 4, arg: [1, 2], arg_mask: 0b01, ..Default::default() }).unwrap();
    assign(&mut graph, 0, constant(5)).unwrap();
    assert_eq!(graph.sheet.data[0].value, 5);
    assert_eq!(graph.sheet.data[1].value, 6);
    assert_eq!(graph.sheet.data[2].value, 12);
    // marks are clear again
    assert!(graph.sheet.data.iter().all(|c| c.info.visit == 0));
}

#[test]
fn test_cycle_is_refused_and_nothing_changes() {
    let mut graph = create_test_graph();
    assign(&mut graph, 1, Info { function_id: 0, arg: [0, 0], arg_mask: 0b01, ..Default::default() }).unwrap();
    let before: Vec<i32> = graph.sheet.data.iter().map(|c| c.value).collect();
    // A1 = B1 would close the cycle A1 -> B1 -> A1
    let r = assign(&mut graph, 0, Info { function_id: 0, arg: [1, 0], arg_mask: 0b01, ..Default::default() });
    assert_eq!(r, Err(StatusCode::CyclicDep));
    let after: Vec<i32> = graph.sheet.data.iter().map(|c| c.value).collect();
    assert_eq!(before, after);
    assert_eq!(graph.sheet.data[0].info.function_id, 0);
    assert_eq!(graph.sheet.data[0].info.arg_mask, 0);
    assert_eq!(graph.stack_ptr, 0);
    assert_eq!(graph.order_ptr, 9);
}

#[test]
fn test_range_formula_follows_its_cells() {
    let mut graph = create_test_graph();
    // C3 = SUM(A1:B2)
    assign(&mut graph, 8, Info { function_id: 8, arg: [0, 4], arg_mask: 0b11, ..Default::default() }).unwrap();
    assign(&mut graph, 0, constant(1)).unwrap();
    assign(&mut graph, 4, constant(10)).unwrap();
    assert_eq!(graph.sheet.data[8].value, 11);
    // a cell outside the range does not count
    assign(&mut graph, 2, constant(100)).unwrap();
    assert_eq!(graph.sheet.data[8].value, 11);
}

#[test]
fn test_error_propagates() {
    let mut graph = create_test_graph();
    // B1 = 1 / A1 with A1 = 0, C1 = B1 + 1
    assign(&mut graph, 1, Info { function_id: 5, arg: [1, 0], arg_mask: 0b10, ..Default::default() }).unwrap();
    assign(&mut graph, 2, Info { function_id: 2, arg: [1, 1], arg_mask: 0b01, ..Default::default() }).unwrap();
    assert!(graph.sheet.data[1].info.invalid);
    assert!(graph.sheet.data[2].info.invalid);
    assign(&mut graph, 0, constant(1)).unwrap();
    assert!(!graph.sheet.data[1].info.invalid);
    assert_eq!(graph.sheet.data[1].value, 1);
    assert_eq!(graph.sheet.data[2].value, 2);
}

#[test]
fn test_sleep_is_reported_not_slept() {
    let mut graph = create_test_graph();
    assign(&mut graph, 0, Info { function_id: 1, arg: [2, 0], arg_mask: 0, ..Default::default() }).unwrap();
    assert_eq!(graph.pending_sleep, 2);
    assert_eq!(graph.sheet.data[0].value, 2);
}

fn list_values(graph: &Graph, x: usize) -> Vec<i32> {
    let mut out = Vec::new();
    let mut cur = graph.adj_list[x].head;
    while let Some(p) = cur {
        out.push(graph.mem_pool.nodes[p].data);
        cur = graph.mem_pool.nodes[p].next;
    }
    out
}

#[test]
fn test_new_graph_is_empty() {
    let graph = create_test_graph();
    assert_eq!(graph.adj_list.len(), 9);
    assert!(graph.adj_list.iter().all(|a| a.head.is_none() && a.ptr.is_none()));
    assert_eq!(graph.stack, vec![0; 9]);
    assert_eq!(graph.stack_ptr, 0);
    assert_eq!(graph.order_ptr, 9);
    assert_eq!(graph.pending_sleep, 0);
}

#[test]
fn test_add_expression_pushes_in_front() {
    let mut graph = create_test_graph();
    // B1 = A1 + 0, then C1 = A1 + B1
    graph.add_expression(1, &create_cell_info(2, [0, 0], 0b01));
    graph.add_expression(2, &create_cell_info(2, [0, 1], 0b11));
    assert_eq!(list_values(&graph, 0), vec![2, 1]);
    assert_eq!(list_values(&graph, 1), vec![2]);
    for x in 2..9 {
        assert!(graph.adj_list[x].head.is_none());
    }
    assert_eq!(graph.adj_list[0].ptr, graph.adj_list[0].head);
    // removing C1 takes it off both lists again
    graph.sheet.data[2] = create_cell_info(2, [0, 1], 0b11);
    graph.delete_expression(2);
    assert_eq!(list_values(&graph, 0), vec![1]);
    assert!(graph.adj_list[1].head.is_none());
}

#[test]
fn test_range_pushes_once_per_cell() {
    let mut graph = create_test_graph();
    // C3 = SUM(A1:B2): A1, B1, A2, B2 each get C3
    graph.add_expression(8, &create_cell_info(8, [0, 4], 0b11));
    for x in [0usize, 1, 3, 4] {
        assert_eq!(list_values(&graph, x), vec![8]);
    }
    for x in [2usize, 5, 6, 7, 8] {
        assert!(graph.adj_list[x].head.is_none());
    }
}

#[test]
fn test_diamond_search_order() {
    let mut graph = create_test_graph();
    graph.add_expression(1, &create_cell_info(2, [0, 0], 0b01));
    graph.add_expression(2, &create_cell_info(2, [0, 1], 0b11));
    // a constant formula for A1 reads nothing
    let ok = graph.iterative_dfs(0, &create_cell_info(0, [7, 0], 0));
    assert!(ok);
    assert_eq!(graph.stack_ptr, 0);
    assert_eq!(graph.order_ptr, 6);
    assert_eq!(&graph.stack[6..9], &[0, 1, 2]);
    for c in 0..3 {
        assert_eq!(graph.sheet.data[c].info.visit, 2);
    }
}

#[test]
fn test_diamond_search_finds_read() {
    let mut graph = create_test_graph();
    graph.add_expression(1, &create_cell_info(2, [0, 0], 0b01));
    graph.add_expression(2, &create_cell_info(2, [0, 1], 0b11));
    // A1 = C1 would close a cycle
    let ok = graph.iterative_dfs(0, &create_cell_info(0, [2, 0], 0b01));
    assert!(!ok);
}

#[test]
fn test_in_dependency_any_arguments() {
    let graph = create_test_graph();
    // a range whose first corner is no cell: the test compares indices and
    // columns as the search does
    let info = create_cell_info(8, [-1, 4], 0b11);
    assert!(graph.in_dependency(0, &info));
    assert!(!graph.in_dependency(2, &info));
    assert!(!graph.in_dependency(5, &info));
    // cell arguments out of the sheet name no cell of it
    let info = create_cell_info(2, [-3, 40], 0b11);
    assert!(!graph.in_dependency(0, &info));
    assert!(graph.in_dependency(40, &info));
    // a constant argument is no cell
    let info = create_cell_info(2, [1, 2], 0b10);
    assert!(!graph.in_dependency(1, &info));
    assert!(graph.in_dependency(2, &info));
}

#[test]
fn test_sum_recomputed_after_change() {
    let mut graph = create_test_graph();
    assign(&mut graph, 0, constant(5)).unwrap();
    // C3 = SUM(A1:C2)
    assign(&mut graph, 8, Info { function_id: 8, arg: [0, 5], arg_mask: 0b11, ..Default::default() }).unwrap();
    assert_eq!(graph.sheet.data[8].value, 5);
    assign(&mut graph, 0, constant(10)).unwrap();
    assert_eq!(graph.sheet.data[0].value, 10);
    assert_eq!(graph.sheet.data[8].value, 10);
    assert_eq!(graph.sheet.data[8].info.function_id, 8);
    assert_eq!(graph.stack_ptr, 0);
    assert_eq!(graph.order_ptr, 9);
    assert!(graph.sheet.data.iter().all(|c| c.info.visit == 0));
}

#[test]
fn test_sleep_adds_up_over_reached_cells() {
    let mut graph = create_test_graph();
    // B1 = SLEEP(A1), C1 = SLEEP(A1)
    assign(&mut graph, 1, Info { function_id: 1, arg: [0, 0], arg_mask: 0b01, ..Default::default() }).unwrap();
    assign(&mut graph, 2, Info { function_id: 1, arg: [0, 0], arg_mask: 0b01, ..Default::default() }).unwrap();
    assert_eq!(graph.pending_sleep, 0);
    assign(&mut graph, 0, constant(3)).unwrap();
    assert_eq!(graph.pending_sleep, 6);
    assert_eq!(graph.sheet.data[1].value, 3);
    assert_eq!(graph.sheet.data[2].value, 3);
}
